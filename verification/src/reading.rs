//! What is shown can be read again: numbers and formats.

use crate::format::{format_named, linebreak_named, Format, LinebreakStyle};
use crate::text::{all_digits, decimal, digit, digits_value, fields, is_digit, number_of};
use vstd::prelude::*;
use vstd::string::StringSliceAdditionalSpecFns;
use vstd::utf8::{encode_utf8, is_ascii_chars, is_ascii_chars_encode_utf8};

verus! {

/// The characters of an ASCII text as bytes.
pub open spec fn ascii(chars: Seq<char>) -> Seq<u8> {
    Seq::new(chars.len(), |i: int| chars[i] as u8)
}

/// A text that holds no separator is its one field.
pub proof fn lemma_fields_whole<T>(s: Seq<T>, separator: T)
    requires
        forall|i: int| 0 <= i < s.len() ==> s[i] != separator,
    ensures
        fields(s, separator) == seq![s],
    decreases s.len(),
{
    if s.len() > 0 {
        let shorter = s.drop_last();
        assert forall|i: int| 0 <= i < shorter.len() implies shorter[i] != separator by {
            assert(shorter[i] == s[i]);
        }
        lemma_fields_whole(shorter, separator);
        assert(s[s.len() - 1] != separator);
        assert(shorter.push(s.last()) == s);
        assert(seq![shorter].drop_last().push(s) =~= seq![s]);
    } else {
        assert(s == Seq::<T>::empty());
    }
}

/// The fields of two texts with a separator between them are the fields
/// of the first and then the fields of the second.
pub proof fn lemma_fields_apart<T>(first: Seq<T>, separator: T, second: Seq<T>)
    ensures
        fields(first + seq![separator] + second, separator) == fields(first, separator) + fields(
            second,
            separator,
        ),
    decreases second.len(),
{
    let text = first + seq![separator] + second;
    let head = fields(first, separator);
    if second.len() == 0 {
        assert(text.drop_last() == first);
        assert(head.push(Seq::empty()) =~= head + fields(second, separator));
    } else {
        let shorter = second.drop_last();
        let tail = fields(shorter, separator);
        assert(text.drop_last() == first + seq![separator] + shorter);
        assert(text.last() == second.last());
        lemma_fields_apart(first, separator, shorter);
        crate::text::lemma_fields_len(shorter, separator);
        if second.last() == separator {
            assert((head + tail).push(Seq::empty()) =~= head + tail.push(Seq::empty()));
        } else {
            assert((head + tail).drop_last() == head + tail.drop_last());
            assert((head + tail).last() == tail.last());
            assert((head + tail.drop_last()).push(tail.last().push(second.last())) =~= head
                + tail.drop_last().push(tail.last().push(second.last())));
        }
    }
}

/// A number in decimal digits is read as that number.
pub proof fn lemma_decimal_read_back(n: nat)
    ensures
        decimal(n).len() > 0,
        is_ascii_chars(decimal(n)),
        all_digits(ascii(decimal(n))),
        digits_value(ascii(decimal(n))) == n,
    decreases n,
{
    let shown = decimal(n);
    let last = digit(n % 10);
    assert(last as u8 == 0x30 + n % 10 && is_digit(last as u8) && '\0' <= last <= '\u{7f}') by {
        let d = (0x30 + n % 10) as u8;
        assert(d as char as u8 == d);
    }
    if n < 10 {
        assert(ascii(shown).drop_last() =~= Seq::<u8>::empty());
        assert(digits_value(ascii(shown).drop_last()) == 0);
    } else {
        lemma_decimal_read_back(n / 10);
        let before = decimal(n / 10);
        assert(ascii(shown).drop_last() =~= ascii(before));
        assert(ascii(shown).last() == last as u8);
        assert forall|i: int| 0 <= i < shown.len() implies '\0' <= #[trigger] shown[i]
            <= '\u{7f}' by {
            if i < before.len() {
                assert(shown[i] == before[i]);
            }
        }
        assert forall|i: int| 0 <= i < ascii(shown).len() implies is_digit(
            #[trigger] ascii(shown)[i],
        ) by {
            if i < before.len() {
                assert(ascii(shown)[i] == ascii(before)[i]);
            }
        }
    }
}

/// The bytes of an ASCII text are its characters.
pub proof fn lemma_ascii_bytes(chars: Seq<char>)
    requires
        is_ascii_chars(chars),
    ensures
        encode_utf8(chars) == ascii(chars),
{
    is_ascii_chars_encode_utf8(chars);
    assert(encode_utf8(chars) =~= ascii(chars));
}

/// The bytes of a text in ASCII that holds no comma are the one field of
/// themselves.
proof fn lemma_one_field(chars: Seq<char>)
    requires
        is_ascii_chars(chars),
        forall|i: int| 0 <= i < chars.len() ==> chars[i] != ',',
    ensures
        fields(ascii(chars), 0x2Cu8) == seq![ascii(chars)],
{
    assert forall|i: int| 0 <= i < ascii(chars).len() implies ascii(chars)[i] != 0x2Cu8 by {
        let c = chars[i];
        assert('\0' <= c <= '\u{7f}' && c != ',');
        assert(c as u8 != 0x2Cu8) by {
            assert((c as u8) as char == c);
        }
    }
    lemma_fields_whole(ascii(chars), 0x2Cu8);
}

/// The digits of a number are read as the number, and are one field.
proof fn lemma_number_field(n: usize)
    ensures
        is_ascii_chars(decimal(n as nat)),
        number_of(ascii(decimal(n as nat))) == Some(n),
        fields(ascii(decimal(n as nat)), 0x2Cu8) == seq![ascii(decimal(n as nat))],
{
    let number = decimal(n as nat);
    lemma_decimal_read_back(n as nat);
    assert forall|i: int| 0 <= i < number.len() implies number[i] != ',' by {
        assert(is_digit(ascii(number)[i]));
    }
    lemma_one_field(number);
    assert(is_digit(ascii(number)[0]));
}

/// The names of the formats and of the line-break styles, in bytes: each
/// is one field, and no two are of the same length but `html` and `unix`.
proof fn lemma_names()
    ensures
        "plain".spec_bytes() == ascii("plain"@) && ascii("plain"@).len() == 5,
        "markdown".spec_bytes() == ascii("markdown"@) && ascii("markdown"@).len() == 8,
        "md".spec_bytes() == ascii("md"@) && ascii("md"@).len() == 2,
        "html".spec_bytes() == ascii("html"@) && ascii("html"@).len() == 4,
        "unix".spec_bytes() == ascii("unix"@) && ascii("unix"@).len() == 4,
        "windows".spec_bytes() == ascii("windows"@) && ascii("windows"@).len() == 7,
        fields(ascii("plain"@), 0x2Cu8) == seq![ascii("plain"@)],
        fields(ascii("markdown"@), 0x2Cu8) == seq![ascii("markdown"@)],
        fields(ascii("html"@), 0x2Cu8) == seq![ascii("html"@)],
        fields(ascii("unix"@), 0x2Cu8) == seq![ascii("unix"@)],
        fields(ascii("windows"@), 0x2Cu8) == seq![ascii("windows"@)],
        is_ascii_chars("plain"@) && is_ascii_chars("markdown"@) && is_ascii_chars("html"@),
        is_ascii_chars("unix"@) && is_ascii_chars("windows"@),
        "plain,"@ == "plain"@ + seq![','],
        "markdown,"@ == "markdown"@ + seq![','],
{
    reveal_strlit("plain");
    reveal_strlit("plain,");
    reveal_strlit("markdown");
    reveal_strlit("markdown,");
    reveal_strlit("md");
    reveal_strlit("html");
    reveal_strlit("unix");
    reveal_strlit("windows");
    lemma_ascii_bytes("plain"@);
    lemma_ascii_bytes("markdown"@);
    lemma_ascii_bytes("md"@);
    lemma_ascii_bytes("html"@);
    lemma_ascii_bytes("unix"@);
    lemma_ascii_bytes("windows"@);
    lemma_one_field("plain"@);
    lemma_one_field("markdown"@);
    lemma_one_field("html"@);
    lemma_one_field("unix"@);
    lemma_one_field("windows"@);
    assert("plain,"@ =~= "plain"@ + seq![',']);
    assert("markdown,"@ =~= "markdown"@ + seq![',']);
}

/// A line-break style is read as the style that it is shown as.
pub proof fn lemma_linebreak_read_back(style: LinebreakStyle)
    ensures
        is_ascii_chars(style.shown()),
        fields(ascii(style.shown()), 0x2Cu8) == seq![ascii(style.shown())],
        linebreak_named(ascii(style.shown())) == Some(style),
        linebreak_named(encode_utf8(style.shown())) == Some(style),
{
    lemma_names();
    lemma_ascii_bytes(style.shown());
}

/// The plain format is read as it is shown.
proof fn lemma_plain_read_back(line_width: usize, linebreak: LinebreakStyle)
    ensures
        format_named(encode_utf8((Format::Plain { line_width, linebreak }).shown())) == Some(
            Format::Plain { line_width, linebreak },
        ),
{
    let name = ascii("plain"@);
    let number = ascii(decimal(line_width as nat));
    let style = ascii(linebreak.shown());
    let comma = seq![0x2Cu8];
    let shown = (Format::Plain { line_width, linebreak }).shown();
    lemma_names();
    lemma_number_field(line_width);
    lemma_linebreak_read_back(linebreak);
    assert(encode_utf8(shown) == name + comma + (number + comma + style)) by {
        assert(shown =~= "plain"@ + seq![','] + decimal(line_width as nat) + seq![',']
            + linebreak.shown());
        assert(is_ascii_chars(shown));
        lemma_ascii_bytes(shown);
        assert(ascii(shown) =~= name + comma + (number + comma + style));
    }
    let parts = fields(encode_utf8(shown), 0x2Cu8);
    assert(parts =~= seq![name, number, style]) by {
        lemma_fields_apart(name, 0x2Cu8, number + comma + style);
        lemma_fields_apart(number, 0x2Cu8, style);
    }
    assert(parts[0] == name && parts[1] == number && parts[2] == style);
}

/// The Markdown format is read as it is shown.
proof fn lemma_markdown_read_back(line_width: usize)
    ensures
        format_named(encode_utf8((Format::Markdown { line_width }).shown())) == Some(
            Format::Markdown { line_width },
        ),
{
    let name = ascii("markdown"@);
    let number = ascii(decimal(line_width as nat));
    let comma = seq![0x2Cu8];
    let shown = (Format::Markdown { line_width }).shown();
    lemma_names();
    lemma_number_field(line_width);
    assert(encode_utf8(shown) == name + comma + number) by {
        assert(shown =~= "markdown"@ + seq![','] + decimal(line_width as nat));
        assert(is_ascii_chars(shown));
        lemma_ascii_bytes(shown);
        assert(ascii(shown) =~= name + comma + number);
    }
    let parts = fields(encode_utf8(shown), 0x2Cu8);
    assert(parts =~= seq![name, number]) by {
        lemma_fields_apart(name, 0x2Cu8, number);
    }
    assert(parts[0] == name && parts[1] == number);
}

/// A format is read as the format that it is shown as.
pub proof fn lemma_format_read_back(format: Format)
    ensures
        format_named(encode_utf8(format.shown())) == Some(format),
{
    match format {
        Format::Plain { line_width, linebreak } => {
            lemma_plain_read_back(line_width, linebreak);
        },
        Format::Markdown { line_width } => {
            lemma_markdown_read_back(line_width);
        },
        Format::Html => {
            lemma_names();
        },
    }
}

} // verus!
