//! What holds of the lines of a wrapped paragraph.

use crate::format::LinebreakStyle;
use crate::text::is_space;
use crate::wrap::{lemma_wrapped_more, words, wrapped, Cursor};
use vstd::prelude::*;

verus! {

/// Whether `c` belongs to a line ending.
pub open spec fn is_break(c: char) -> bool {
    c == '\n' || c == '\r'
}

/// Whether `w` can be a word: it holds a character, and no white space.
pub open spec fn is_word(w: Seq<char>) -> bool {
    w.len() > 0 && forall|k: int| 0 <= k < w.len() ==> !is_space(#[trigger] w[k])
}

/// Whether every member of `list` can be a word.
pub open spec fn all_words(list: Seq<Seq<char>>) -> bool {
    forall|i: int| 0 <= i < list.len() ==> is_word(#[trigger] list[i])
}

/// Whether the characters of `text` from `a` up to `b` hold no part of a
/// line ending: they lie on one line.
pub open spec fn on_one_line(text: Seq<char>, a: int, b: int) -> bool {
    forall|k: int| a <= k < b ==> !is_break(#[trigger] text[k])
}

/// Whether no line of `text` holds more than `max` characters.
pub open spec fn lines_within(text: Seq<char>, max: int) -> bool {
    forall|a: int, b: int|
        0 <= a <= b <= text.len() && #[trigger] on_one_line(text, a, b) ==> b - a <= max
}

/// How many characters the last line of `text` holds so far.
pub open spec fn last_line(text: Seq<char>) -> nat
    decreases text.len(),
{
    if text.len() == 0 || is_break(text.last()) {
        0
    } else {
        1 + last_line(text.drop_last())
    }
}

/// Whether `part` stands in `text` at `i`.
pub open spec fn occurs_at(text: Seq<char>, part: Seq<char>, i: int) -> bool {
    0 <= i && i + part.len() <= text.len() && text.subrange(i, i + part.len()) == part
}

/// The last line is the longest run at the end of the text that lies on
/// one line.
pub proof fn lemma_last_line(text: Seq<char>)
    ensures
        last_line(text) <= text.len(),
        on_one_line(text, text.len() - last_line(text), text.len() as int),
        forall|a: int|
            0 <= a <= text.len() && #[trigger] on_one_line(text, a, text.len() as int)
                ==> text.len() - a <= last_line(text),
    decreases text.len(),
{
    if text.len() == 0 {
    } else if is_break(text.last()) {
        assert forall|a: int|
            0 <= a <= text.len() && #[trigger] on_one_line(
                text,
                a,
                text.len() as int,
            ) implies text.len() - a <= last_line(text) by {
            if a < text.len() {
                assert(is_break(text[text.len() - 1]));
            }
        }
    } else {
        let before = text.drop_last();
        lemma_last_line(before);
        assert forall|k: int| text.len() - last_line(text) <= k < text.len() implies !is_break(
            #[trigger] text[k],
        ) by {
            if k < before.len() {
                assert(text[k] == before[k]);
            }
        }
        assert forall|a: int|
            0 <= a <= text.len() && #[trigger] on_one_line(
                text,
                a,
                text.len() as int,
            ) implies text.len() - a <= last_line(text) by {
            if a < text.len() {
                assert forall|k: int| a <= k < before.len() implies !is_break(
                    #[trigger] before[k],
                ) by {
                    assert(before[k] == text[k]);
                }
                assert(on_one_line(before, a, before.len() as int));
            }
        }
    }
}

/// Text that is added without a line ending in it makes the last line
/// longer, and no other line.
pub proof fn lemma_line_goes_on(text: Seq<char>, more: Seq<char>, max: int)
    requires
        lines_within(text, max),
        on_one_line(more, 0, more.len() as int),
        last_line(text) + more.len() <= max,
    ensures
        lines_within(text + more, max),
        last_line(text + more) == last_line(text) + more.len(),
    decreases more.len(),
{
    let all = text + more;
    lemma_last_line(text);
    if more.len() == 0 {
        assert(all == text);
    } else {
        let shorter = more.drop_last();
        assert forall|k: int| 0 <= k < shorter.len() implies !is_break(#[trigger] shorter[k]) by {
            assert(shorter[k] == more[k]);
        }
        lemma_line_goes_on(text, shorter, max);
        assert(all.drop_last() == text + shorter);
        assert(all.last() == more.last());
        assert(!is_break(more[more.len() - 1]));
    }
    assert forall|a: int, b: int|
        0 <= a <= b <= all.len() && #[trigger] on_one_line(all, a, b) implies b - a <= max by {
        if b <= text.len() {
            assert forall|k: int| a <= k < b implies !is_break(#[trigger] text[k]) by {
                assert(text[k] == all[k]);
            }
            assert(on_one_line(text, a, b));
        } else if a <= text.len() {
            assert forall|k: int| a <= k < text.len() implies !is_break(#[trigger] text[k]) by {
                assert(text[k] == all[k]);
            }
            assert(on_one_line(text, a, text.len() as int));
        }
    }
}

/// A line ending closes the last line, and leaves the lines as long as
/// they were.
pub proof fn lemma_line_ends(text: Seq<char>, linebreak: LinebreakStyle, max: int)
    requires
        lines_within(text, max),
        0 <= max,
    ensures
        lines_within(text + linebreak.chars(), max),
        last_line(text + linebreak.chars()) == 0,
{
    let ending = linebreak.chars();
    let all = text + ending;
    assert(all.last() == '\n');
    assert forall|a: int, b: int|
        0 <= a <= b <= all.len() && #[trigger] on_one_line(all, a, b) implies b - a <= max by {
        if b <= text.len() {
            assert forall|k: int| a <= k < b implies !is_break(#[trigger] text[k]) by {
                assert(text[k] == all[k]);
            }
            assert(on_one_line(text, a, b));
        } else if a < b {
            assert(is_break(all[b - 1]));
        }
    }
}

/// The words of a text can be words: each holds a character, and none
/// holds white space.
pub proof fn lemma_words_are_words(s: Seq<char>)
    ensures
        all_words(words(s)),
        words(s).len() > 0 <==> exists|k: int| 0 <= k < s.len() && !is_space(s[k]),
        s.len() > 0 && !is_space(s.last()) ==> words(s).len() > 0,
    decreases s.len(),
{
    if s.len() > 0 {
        let before = s.drop_last();
        lemma_words_are_words(before);
        let list = words(s);
        if is_space(s.last()) {
            if exists|k: int| 0 <= k < s.len() && !is_space(s[k]) {
                let k = choose|k: int| 0 <= k < s.len() && !is_space(s[k]);
                assert(before[k] == s[k]);
            }
            if exists|k: int| 0 <= k < before.len() && !is_space(before[k]) {
                let k = choose|k: int| 0 <= k < before.len() && !is_space(before[k]);
                assert(!is_space(s[k]));
            }
        } else if s.len() >= 2 && !is_space(s[s.len() - 2]) {
            assert(before.last() == s[s.len() - 2]);
            let old = words(before);
            let word = old.last().push(s.last());
            assert(is_word(old[old.len() - 1]));
            assert forall|i: int| 0 <= i < list.len() implies is_word(#[trigger] list[i]) by {
                if i < list.len() - 1 {
                    assert(list[i] == old[i]);
                } else {
                    assert(list[i] == word);
                    assert forall|k: int| 0 <= k < word.len() implies !is_space(
                        #[trigger] word[k],
                    ) by {
                        if k < word.len() - 1 {
                            assert(word[k] == old.last()[k]);
                        }
                    }
                }
            }
            assert(!is_space(s[s.len() - 1]));
        } else {
            let old = words(before);
            assert forall|i: int| 0 <= i < list.len() implies is_word(#[trigger] list[i]) by {
                if i < list.len() - 1 {
                    assert(list[i] == old[i]);
                }
            }
            assert(!is_space(s[s.len() - 1]));
        }
    }
}

/// A word is the one word of itself.
pub proof fn lemma_words_of_word(w: Seq<char>)
    requires
        is_word(w),
    ensures
        words(w) == seq![w],
    decreases w.len(),
{
    assert(!is_space(w[w.len() - 1]));
    if w.len() >= 2 {
        let shorter = w.drop_last();
        assert(!is_space(w[w.len() - 2]));
        assert forall|k: int| 0 <= k < shorter.len() implies !is_space(#[trigger] shorter[k]) by {
            assert(shorter[k] == w[k]);
        }
        lemma_words_of_word(shorter);
        assert(shorter.push(w.last()) == w);
        assert(seq![shorter].drop_last().push(w) =~= seq![w]);
    } else {
        assert(seq![w.last()] == w);
        assert(words(w.drop_last()).push(w) =~= seq![w]);
    }
}

/// The words of two texts with white space between them are the words of
/// the first and then the words of the second.
pub proof fn lemma_words_apart(first: Seq<char>, between: char, second: Seq<char>)
    requires
        is_space(between),
    ensures
        words(first + seq![between] + second) == words(first) + words(second),
    decreases second.len(),
{
    let text = first + seq![between] + second;
    if second.len() == 0 {
        assert(text.drop_last() == first);
        assert(words(first) + words(second) == words(first));
    } else {
        let shorter = second.drop_last();
        assert(text.drop_last() == first + seq![between] + shorter);
        assert(text.last() == second.last());
        lemma_words_apart(first, between, shorter);
        if is_space(second.last()) {
        } else if second.len() >= 2 && !is_space(second[second.len() - 2]) {
            assert(text[text.len() - 2] == second[second.len() - 2]);
            assert(shorter.last() == second[second.len() - 2]);
            lemma_words_are_words(shorter);
            let head = words(first);
            let tail = words(shorter);
            assert((head + tail).drop_last() == head + tail.drop_last());
            assert((head + tail).last() == tail.last());
            assert((head + tail.drop_last()).push(tail.last().push(second.last())) =~= head
                + tail.drop_last().push(tail.last().push(second.last())));
        } else {
            if second.len() >= 2 {
                assert(text[text.len() - 2] == second[second.len() - 2]);
            } else {
                assert(text[text.len() - 2] == between);
            }
            assert((words(first) + words(shorter)).push(seq![second.last()]) =~= words(first)
                + words(shorter).push(seq![second.last()]));
        }
    }
}

/// A word lies on one line.
pub proof fn lemma_word_on_one_line(w: Seq<char>)
    requires
        is_word(w),
    ensures
        on_one_line(w, 0, w.len() as int),
{
    assert forall|k: int| 0 <= k < w.len() implies !is_break(#[trigger] w[k]) by {
        assert(!is_space(w[k]));
    }
}

/// Where no word is longer than a line may be, no line of the wrapped
/// words is: every line holds `max` characters at most, and the cursor
/// holds the width of the last.
pub proof fn lemma_lines_fit(list: Seq<Seq<char>>, max: usize, linebreak: LinebreakStyle)
    requires
        all_words(list),
        forall|i: int| 0 <= i < list.len() ==> (#[trigger] list[i]).len() <= max,
    ensures
        lines_within(wrapped(Cursor::start(), list, max, linebreak.chars()), max as int),
        lines_within(
            wrapped(Cursor::start(), list, max, linebreak.chars()) + linebreak.chars()
                + linebreak.chars(),
            max as int,
        ),
        last_line(wrapped(Cursor::start(), list, max, linebreak.chars())) == Cursor::start().after_all(
            list,
            max,
        ).line_width,
        Cursor::start().after_all(list, max).line_width <= max,
        Cursor::start().after_all(list, max).pending_space == (list.len() > 0),
    decreases list.len(),
{
    let ending = linebreak.chars();
    let text = wrapped(Cursor::start(), list, max, ending);
    if list.len() == 0 {
        assert(lines_within(text, max as int));
    } else {
        let before = list.drop_last();
        let word = list.last();
        let cursor = Cursor::start().after_all(before, max);
        let sofar = wrapped(Cursor::start(), before, max, ending);
        assert forall|i: int| 0 <= i < before.len() implies is_word(#[trigger] before[i])
            && before[i].len() <= max by {
            assert(before[i] == list[i]);
        }
        lemma_lines_fit(before, max, linebreak);
        lemma_word_on_one_line(word);
        let gap = cursor.gap(word.len(), max, ending);
        if cursor.breaks_before(word.len(), max) {
            lemma_line_ends(sofar, linebreak, max as int);
            lemma_line_goes_on(sofar + gap, word, max as int);
        } else if cursor.pending_space {
            let joined = seq![' '] + word;
            assert forall|k: int| 0 <= k < joined.len() implies !is_break(#[trigger] joined[k]) by {
                if k > 0 {
                    assert(joined[k] == word[k - 1]);
                }
            }
            lemma_line_goes_on(sofar, joined, max as int);
            assert(sofar + gap + word =~= sofar + joined);
        } else {
            assert(before.len() == 0);
            lemma_line_goes_on(sofar, word, max as int);
            assert(sofar + gap + word =~= sofar + word);
        }
    }
    lemma_line_ends(text, linebreak, max as int);
    lemma_line_ends(text + ending, linebreak, max as int);
}

/// Whether no line of `text` is empty: what follows a line feed in it is
/// no part of a line ending.
pub open spec fn no_empty_line(text: Seq<char>) -> bool {
    forall|k: int| 0 <= k < text.len() - 1 && #[trigger] text[k] == '\n' ==> !is_break(text[k + 1])
}

/// Wrapped words hold no empty line and do not end with a line ending.
pub proof fn lemma_wrapped_has_no_empty_line(
    cursor: Cursor,
    list: Seq<Seq<char>>,
    max: usize,
    linebreak: LinebreakStyle,
)
    requires
        all_words(list),
    ensures
        no_empty_line(wrapped(cursor, list, max, linebreak.chars())),
        list.len() > 0 ==> wrapped(cursor, list, max, linebreak.chars()).len() > 0 && !is_break(
            wrapped(cursor, list, max, linebreak.chars()).last(),
        ),
        list.len() == 0 ==> wrapped(cursor, list, max, linebreak.chars()).len() == 0,
    decreases list.len(),
{
    let ending = linebreak.chars();
    let text = wrapped(cursor, list, max, ending);
    if list.len() > 0 {
        let before = list.drop_last();
        let word = list.last();
        let sofar = wrapped(cursor, before, max, ending);
        let gap = cursor.after_all(before, max).gap(word.len(), max, ending);
        assert forall|i: int| 0 <= i < before.len() implies is_word(#[trigger] before[i]) by {
            assert(before[i] == list[i]);
        }
        lemma_wrapped_has_no_empty_line(cursor, before, max, linebreak);
        lemma_word_on_one_line(word);
        assert(text == sofar + gap + word);
        assert(text.last() == word.last());
        assert forall|k: int| 0 <= k < text.len() - 1 && #[trigger] text[k] == '\n' implies !is_break(
            text[k + 1],
        ) by {
            if k + 1 < sofar.len() {
                assert(text[k] == sofar[k] && text[k + 1] == sofar[k + 1]);
            } else if k < sofar.len() {
                assert(text[k] == sofar.last());
            } else if k < sofar.len() + gap.len() {
                assert(text[k] == gap[k - sofar.len()]);
                assert(k == sofar.len() + gap.len() - 1);
                assert(text[k + 1] == word[0]);
            } else {
                assert(text[k] == word[k - sofar.len() - gap.len()]);
            }
        }
    }
}

/// A wrapped paragraph ends with a blank line and holds no other: the
/// line ending stands twice in a row at the paragraph's end, and nowhere
/// before.
pub proof fn lemma_one_blank_line(list: Seq<Seq<char>>, max: usize, linebreak: LinebreakStyle)
    requires
        all_words(list),
    ensures
        ({
            let ending = linebreak.chars();
            let text = wrapped(Cursor::start(), list, max, ending) + ending + ending;
            forall|i: int| #[trigger]
                occurs_at(text, ending + ending, i) <==> i == text.len() - 2 * ending.len()
        }),
{
    let ending = linebreak.chars();
    let body = wrapped(Cursor::start(), list, max, ending);
    let text = body + ending + ending;
    let twice = ending + ending;
    lemma_wrapped_has_no_empty_line(Cursor::start(), list, max, linebreak);
    assert(text.subrange(text.len() - twice.len(), text.len() as int) =~= twice);
    assert forall|i: int| #[trigger] occurs_at(text, twice, i) implies i == text.len() - 2
        * ending.len() by {
        let found = text.subrange(i, i + twice.len());
        let k = i + ending.len() - 1;
        assert(found[ending.len() - 1] == '\n');
        assert(found[ending.len() as int] == twice[ending.len() as int]);
        assert(text[k] == '\n' && is_break(text[k + 1]));
        if k + 1 < body.len() {
            assert(text[k] == body[k] && text[k + 1] == body[k + 1]);
        } else if k < body.len() {
            assert(text[k] == body.last());
        } else if k < body.len() + ending.len() - 1 {
            assert(text[k] == ending[k - body.len()]);
        } else if k >= body.len() + ending.len() {
            if k < text.len() - 1 {
                assert(text[k] == ending[k - body.len() - ending.len()]);
            }
        }
    }
}

/// Where word `i` of `list` begins in the wrapped words.
pub open spec fn word_start(list: Seq<Seq<char>>, max: usize, ending: Seq<char>, i: int) -> int {
    (wrapped(Cursor::start(), list.take(i), max, ending) + Cursor::start().after_all(
        list.take(i),
        max,
    ).gap(list[i].len(), max, ending)).len() as int
}

/// The wrapped words, taken apart at word `i`: what stands before it, the
/// word, and what the words after it make from where it leaves the cursor.
pub proof fn lemma_wrapped_at(list: Seq<Seq<char>>, max: usize, ending: Seq<char>, i: int)
    requires
        0 <= i < list.len(),
    ensures
        wrapped(Cursor::start(), list, max, ending) == wrapped(
            Cursor::start(),
            list.take(i),
            max,
            ending,
        ) + Cursor::start().after_all(list.take(i), max).gap(list[i].len(), max, ending) + list[i]
            + wrapped(
            Cursor::start().after_all(list.take(i), max).after(list[i].len(), max),
            list.skip(i + 1),
            max,
            ending,
        ),
{
    let upto = list.take(i + 1);
    assert(upto + list.skip(i + 1) == list);
    assert(upto.drop_last() == list.take(i));
    assert(upto.last() == list[i]);
    lemma_wrapped_more(Cursor::start(), upto, list.skip(i + 1), max, ending);
}

/// No word is split: each stands whole in the wrapped words, at its place.
pub proof fn lemma_word_unbroken(list: Seq<Seq<char>>, max: usize, ending: Seq<char>, i: int)
    requires
        0 <= i < list.len(),
    ensures
        occurs_at(
            wrapped(Cursor::start(), list, max, ending),
            list[i],
            word_start(list, max, ending, i),
        ),
{
    lemma_wrapped_at(list, max, ending, i);
    let at = word_start(list, max, ending, i);
    let text = wrapped(Cursor::start(), list, max, ending);
    assert(text.subrange(at, at + list[i].len()) =~= list[i]);
}

/// The wrapped words up to and with word `i` are those before it, what
/// goes between, and the word.
pub proof fn lemma_wrapped_next(list: Seq<Seq<char>>, max: usize, ending: Seq<char>, i: int)
    requires
        0 <= i < list.len(),
    ensures
        wrapped(Cursor::start(), list.take(i + 1), max, ending) == wrapped(
            Cursor::start(),
            list.take(i),
            max,
            ending,
        ) + Cursor::start().after_all(list.take(i), max).gap(list[i].len(), max, ending) + list[i],
        Cursor::start().after_all(list.take(i + 1), max) == Cursor::start().after_all(
            list.take(i),
            max,
        ).after(list[i].len(), max),
{
    let upto = list.take(i + 1);
    assert(upto.drop_last() == list.take(i));
    assert(upto.last() == list[i]);
}

/// After a word that is longer than a line may be, the line is full.
pub proof fn lemma_full_after_long_word(cursor: Cursor, len: nat, max: usize)
    requires
        len > max,
    ensures
        cursor.after(len, max).line_width >= max,
        forall|next: nat| cursor.after(len, max).breaks_before(next, max),
{
}

/// Where word `i` ends, the next begins after what goes between them.
pub proof fn lemma_next_word_start(list: Seq<Seq<char>>, max: usize, ending: Seq<char>, i: int)
    requires
        0 <= i,
        i + 1 < list.len(),
    ensures
        word_start(list, max, ending, i + 1) == word_start(list, max, ending, i) + list[i].len()
            + Cursor::start().after_all(list.take(i), max).after(list[i].len(), max).gap(
            list[i + 1].len(),
            max,
            ending,
        ).len(),
{
    lemma_wrapped_next(list, max, ending, i);
}

/// A part stands where it was put: after what stands before it.
pub proof fn lemma_occurs(before: Seq<char>, part: Seq<char>, after: Seq<char>)
    ensures
        occurs_at(before + part + after, part, before.len() as int),
{
    let text = before + part + after;
    assert(text.subrange(before.len() as int, (before.len() + part.len()) as int) =~= part);
}

/// Wrapped words begin with what goes before the first word, and the
/// first word.
pub proof fn lemma_wrapped_first(cursor: Cursor, list: Seq<Seq<char>>, max: usize, ending: Seq<char>)
    requires
        list.len() > 0,
    ensures
        wrapped(cursor, list, max, ending) == cursor.gap(list[0].len(), max, ending) + (list[0]
            + wrapped(cursor.after(list[0].len(), max), list.skip(1), max, ending)),
{
    let first = seq![list[0]];
    assert(first + list.skip(1) == list);
    assert(first.drop_last() == Seq::<Seq<char>>::empty());
    assert(wrapped(cursor, first, max, ending) == cursor.gap(list[0].len(), max, ending) + list[0]
        && cursor.after_all(first, max) == cursor.after(list[0].len(), max)) by {
        assert(cursor.after_all(first.drop_last(), max) == cursor);
        assert(wrapped(cursor, first.drop_last(), max, ending) == Seq::<char>::empty());
        assert(Seq::<char>::empty() + cursor.gap(list[0].len(), max, ending) + list[0]
            =~= cursor.gap(list[0].len(), max, ending) + list[0]);
    }
    lemma_wrapped_more(cursor, first, list.skip(1), max, ending);
    let rest = wrapped(cursor.after(list[0].len(), max), list.skip(1), max, ending);
    assert(cursor.gap(list[0].len(), max, ending) + list[0] + rest =~= cursor.gap(
        list[0].len(),
        max,
        ending,
    ) + (list[0] + rest));
}

/// A part stands where it was put, whatever was put before and after it.
proof fn lemma_occurs_within(
    upto: Seq<char>,
    after: Seq<char>,
    part: Seq<char>,
    rest: Seq<char>,
    tail: Seq<char>,
)
    requires
        after == part + rest,
    ensures
        occurs_at(upto + after + tail + tail, part, upto.len() as int),
{
    lemma_occurs(upto, part, rest + tail + tail);
    assert(upto + after + tail + tail =~= upto + part + (rest + tail + tail));
}

/// What follows word `i` in a wrapped paragraph: what goes before the next
/// word, or the end of the paragraph.
proof fn lemma_after_word(list: Seq<Seq<char>>, max: usize, ending: Seq<char>, i: int)
    requires
        0 <= i < list.len(),
    ensures
        ({
            let text = wrapped(Cursor::start(), list, max, ending) + ending + ending;
            let end = word_start(list, max, ending, i) + list[i].len();
            let cursor = Cursor::start().after_all(list.take(i), max).after(list[i].len(), max);
            &&& i + 1 < list.len() ==> occurs_at(
                text,
                cursor.gap(list[i + 1].len(), max, ending),
                end,
            )
            &&& i + 1 == list.len() ==> occurs_at(text, ending, end)
        }),
{
    let upto = wrapped(Cursor::start(), list.take(i + 1), max, ending);
    let cursor = Cursor::start().after_all(list.take(i + 1), max);
    let others = list.skip(i + 1);
    let after = wrapped(cursor, others, max, ending);
    lemma_wrapped_next(list, max, ending, i);
    assert(list.take(i + 1) + others == list);
    lemma_wrapped_more(Cursor::start(), list.take(i + 1), others, max, ending);
    if i + 1 < list.len() {
        lemma_wrapped_first(cursor, others, max, ending);
        lemma_occurs_within(
            upto,
            after,
            cursor.gap(others[0].len(), max, ending),
            others[0] + wrapped(cursor.after(others[0].len(), max), others.skip(1), max, ending),
            ending,
        );
    } else {
        assert(upto + after == upto);
        lemma_occurs(upto, ending, ending);
    }
}

/// The line ends after a word that is longer than a line may be: a line
/// ending follows the word at once, and the word after it, where there is
/// one, begins the next line.
pub proof fn lemma_line_ends_after_long_word(
    list: Seq<Seq<char>>,
    max: usize,
    linebreak: LinebreakStyle,
    i: int,
)
    requires
        0 <= i < list.len(),
        list[i].len() > max,
    ensures
        ({
            let ending = linebreak.chars();
            let text = wrapped(Cursor::start(), list, max, ending) + ending + ending;
            let at = word_start(list, max, ending, i);
            &&& occurs_at(text, list[i], at)
            &&& occurs_at(text, ending, at + list[i].len())
            &&& i + 1 < list.len() ==> word_start(list, max, ending, i + 1) == at + list[i].len()
                + ending.len()
        }),
{
    let ending = linebreak.chars();
    let body = wrapped(Cursor::start(), list, max, ending);
    let text = body + ending + ending;
    let at = word_start(list, max, ending, i);
    lemma_word_unbroken(list, max, ending, i);
    assert(text.subrange(at, at + list[i].len()) =~= body.subrange(at, at + list[i].len()));
    lemma_after_word(list, max, ending, i);
    lemma_full_after_long_word(Cursor::start().after_all(list.take(i), max), list[i].len(), max);
    if i + 1 < list.len() {
        lemma_next_word_start(list, max, ending, i);
    }
}

/// A word that is longer than a line may be stands on a line of its own
/// where it begins a line: as the first word, or after a line that is
/// full. It stands first on its line and last.
pub proof fn lemma_long_word_alone(
    list: Seq<Seq<char>>,
    max: usize,
    linebreak: LinebreakStyle,
    i: int,
)
    requires
        0 <= i < list.len(),
        list[i].len() > max,
        i == 0 || Cursor::start().after_all(list.take(i), max).line_width >= max,
    ensures
        ({
            let ending = linebreak.chars();
            let text = wrapped(Cursor::start(), list, max, ending) + ending + ending;
            let at = word_start(list, max, ending, i);
            &&& occurs_at(text, list[i], at)
            &&& at == 0 || occurs_at(text, ending, at - ending.len())
            &&& occurs_at(text, ending, at + list[i].len())
        }),
{
    let ending = linebreak.chars();
    let body = wrapped(Cursor::start(), list, max, ending);
    let text = body + ending + ending;
    let at = word_start(list, max, ending, i);
    let before = wrapped(Cursor::start(), list.take(i), max, ending);
    let cursor = Cursor::start().after_all(list.take(i), max);
    lemma_line_ends_after_long_word(list, max, linebreak, i);
    lemma_wrapped_at(list, max, ending, i);
    if i == 0 {
        assert(list.take(0).len() == 0);
        assert(cursor == Cursor::start());
    }
    if cursor.breaks_before(list[i].len(), max) {
        assert(text.subrange(at - ending.len(), at) =~= ending);
    }
}

} // verus!
