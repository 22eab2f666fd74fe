use license_gen::format::LinebreakStyle;
use license_gen::text::is_whitespace;
use license_gen::wrap::{split_words, write_text, write_word, Cursor};

fn wrap(text: &str, linebreak: LinebreakStyle, max: usize) -> String {
    let mut out = String::new();
    let mut cursor = Cursor::new();
    write_text(text, &mut cursor, &mut out, linebreak, max);
    out
}

#[test]
fn whitespace_is_what_std_takes_for_it() {
    for u in 0..=0x10FFFFu32 {
        if let Some(c) = char::from_u32(u) {
            assert_eq!(is_whitespace(c), c.is_whitespace(), "U+{:04X}", u);
        }
    }
}

#[test]
fn words_are_what_split_whitespace_gives() {
    for text in [
        "",
        " ",
        "a",
        " a",
        "a ",
        "The quick  brown\tfox\n\njumps",
        "  leading and trailing  ",
        "tab\tand\u{a0}no-break\u{2003}em\u{3000}wide",
        "çà et là",
        "\r\n\r\n",
    ] {
        let expected: Vec<String> = text.split_whitespace().map(String::from).collect();
        assert_eq!(split_words(text), expected, "{:?}", text);
    }
}

#[test]
fn words_of_a_text_without_any_are_none() {
    assert_eq!(split_words(" \t\n"), Vec::<String>::new());
}

#[test]
fn quick_brown_fox_at_ten() {
    assert_eq!(
        wrap(
            "The quick brown fox jumps over the lazy dog",
            LinebreakStyle::Unix,
            10
        ),
        "The quick\nbrown fox\njumps over\nthe lazy\ndog"
    );
}

#[test]
fn every_line_fits_where_every_word_does() {
    let text = "a bb ccc dddd eeeee ffffff ggggggg hhhhhhhh a bb ccc dddd eeeee ffffff ggggggg";
    for max in 8..40 {
        let out = wrap(text, LinebreakStyle::Unix, max);
        for line in out.split('\n') {
            assert!(line.chars().count() <= max, "{:?} at {}", line, max);
            assert!(!line.is_empty());
        }
        let words: Vec<&str> = out.split_whitespace().collect();
        let given: Vec<&str> = text.split_whitespace().collect();
        assert_eq!(words, given);
    }
}

#[test]
fn a_line_that_is_just_full_takes_no_more() {
    assert_eq!(wrap("abcde fghi jk", LinebreakStyle::Unix, 10), "abcde fghi\njk");
    assert_eq!(wrap("abcde fghij k", LinebreakStyle::Unix, 10), "abcde\nfghij k");
}

#[test]
fn long_word_is_not_split() {
    let word = "abcdefghijklmno";
    assert_eq!(word.len(), 15);
    let out = wrap(word, LinebreakStyle::Unix, 10);
    assert_eq!(out, "abcdefghijklmno");
    assert_eq!(out.lines().next().unwrap().chars().count(), 15);
}

#[test]
fn word_after_a_long_word_starts_a_line() {
    assert_eq!(
        wrap("abcdefghijklmno pq rs", LinebreakStyle::Unix, 10),
        "abcdefghijklmno\npq rs"
    );
    assert_eq!(
        wrap("abcdefghijklmno abcdefghijklmno x", LinebreakStyle::Unix, 10),
        "abcdefghijklmno\nabcdefghijklmno\nx"
    );
}

#[test]
fn long_word_goes_on_a_line_that_is_not_full() {
    assert_eq!(
        wrap("ab abcdefghijklmno cd", LinebreakStyle::Unix, 10),
        "ab abcdefghijklmno\ncd"
    );
}

#[test]
fn width_counts_characters_not_bytes() {
    assert_eq!(wrap("ééééé ééééé", LinebreakStyle::Unix, 11), "ééééé ééééé");
    assert_eq!(wrap("ééééé ééééé", LinebreakStyle::Unix, 10), "ééééé\nééééé");
}

#[test]
fn windows_lines_end_with_carriage_return_and_line_feed() {
    assert_eq!(
        wrap(
            "The quick brown fox jumps over the lazy dog",
            LinebreakStyle::Windows,
            10
        ),
        "The quick\r\nbrown fox\r\njumps over\r\nthe lazy\r\ndog"
    );
}

#[test]
fn at_width_nought_every_word_has_a_line() {
    assert_eq!(wrap("a b c", LinebreakStyle::Unix, 0), "\na\nb\nc");
}

#[test]
fn text_goes_on_where_the_cursor_stands() {
    let mut out = String::from(">");
    let mut cursor = Cursor::new();
    write_text("one two", &mut cursor, &mut out, LinebreakStyle::Unix, 9);
    assert_eq!(cursor, Cursor { line_width: 7, pending_space: true });
    write_text(" three ", &mut cursor, &mut out, LinebreakStyle::Unix, 9);
    assert_eq!(out, ">one two\nthree");
    assert_eq!(cursor, Cursor { line_width: 5, pending_space: true });
    write_text("", &mut cursor, &mut out, LinebreakStyle::Unix, 9);
    assert_eq!(out, ">one two\nthree");
}

#[test]
fn a_word_is_written_after_a_space_or_a_line_ending() {
    let mut out = String::new();
    let mut cursor = Cursor::new();
    write_word("ab", &mut cursor, &mut out, LinebreakStyle::Unix, 5);
    assert_eq!((out.as_str(), cursor.line_width), ("ab", 2));
    write_word("cd", &mut cursor, &mut out, LinebreakStyle::Unix, 5);
    assert_eq!((out.as_str(), cursor.line_width), ("ab cd", 5));
    write_word("e", &mut cursor, &mut out, LinebreakStyle::Unix, 5);
    assert_eq!((out.as_str(), cursor.line_width), ("ab cd\ne", 1));
}

#[test]
fn a_full_line_breaks_whatever_its_width() {
    let mut out = String::new();
    let mut cursor = Cursor { line_width: usize::MAX, pending_space: true };
    write_word("abc", &mut cursor, &mut out, LinebreakStyle::Unix, usize::MAX);
    assert_eq!(out, "\nabc");
    assert_eq!(cursor, Cursor { line_width: 3, pending_space: true });
}

fn generator(seed: u64) -> impl FnMut() -> u64 {
    let mut state = seed;
    move || {
        state ^= state << 13;
        state ^= state >> 7;
        state ^= state << 17;
        state
    }
}

#[test]
fn any_text_has_the_words_that_std_finds() {
    let pieces: [&str; 14] = [
        "a", "bc", "é", "許可", " ", "  ", "\t", "\n", "\r\n", "\u{a0}", "\u{2003}", "\u{3000}",
        "\u{85}", "\u{200b}",
    ];
    let mut next = generator(0x1234_5678_9abc_def1);
    for _ in 0..20_000 {
        let count = (next() % 10) as usize;
        let mut text = String::new();
        for _ in 0..count {
            text.push_str(pieces[(next() % pieces.len() as u64) as usize]);
        }
        let expected: Vec<String> = text.split_whitespace().map(String::from).collect();
        assert_eq!(split_words(&text), expected, "{:?}", text);
    }
}

#[test]
fn any_wrapped_text_keeps_its_words_and_its_lines_fit() {
    let mut next = generator(0x0fed_cba9_8765_4321);
    for _ in 0..5_000 {
        let max = 1 + (next() % 14) as usize;
        let count = (next() % 12) as usize;
        let words: Vec<String> = (0..count)
            .map(|_| "w".repeat(1 + (next() % 16) as usize))
            .collect();
        let text = words.join(" ");
        for linebreak in [LinebreakStyle::Unix, LinebreakStyle::Windows] {
            let out = wrap(&text, linebreak, max);
            assert_eq!(out.split_whitespace().collect::<Vec<&str>>(), words);
            assert!(!out.contains(&linebreak.as_str().repeat(2)));
            let lines: Vec<&str> = out.split(linebreak.as_str()).collect();
            for (i, line) in lines.iter().enumerate() {
                let longest = line.split(' ').map(str::len).max().unwrap_or(0);
                if longest <= max {
                    assert!(line.len() <= max, "{:?} at {}", out, max);
                } else if i + 1 < lines.len() {
                    assert!(line.ends_with(&"w".repeat(longest)), "{:?} at {}", out, max);
                }
            }
        }
    }
}
