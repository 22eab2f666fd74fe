//! The line-wrapping engine: words, and where the lines between them break.

use crate::format::LinebreakStyle;
use crate::text::{is_space, is_whitespace, push_char, texts_of};
use vstd::prelude::*;

verus! {

/// The words of a text: its longest runs of characters that are not white
/// space, in order.
pub open spec fn words(s: Seq<char>) -> Seq<Seq<char>>
    decreases s.len(),
{
    if s.len() == 0 {
        Seq::empty()
    } else if is_space(s.last()) {
        words(s.drop_last())
    } else if s.len() >= 2 && !is_space(s[s.len() - 2]) {
        let before = words(s.drop_last());
        before.drop_last().push(before.last().push(s.last()))
    } else {
        words(s.drop_last()).push(seq![s.last()])
    }
}

/// Splits a text into its words.
pub fn split_words(text: &str) -> (list: Vec<String>)
    ensures
        texts_of(list@) == words(text@),
{
    let mut list: Vec<String> = Vec::new();
    let mut word = String::new();
    let mut in_word = false;
    for c in it: text.chars()
        invariant
            it.seq() == text@,
            in_word <==> it.index() > 0 && !is_space(text@[it.index() - 1]),
            !in_word ==> word@.len() == 0 && texts_of(list@) == words(text@.take(it.index() as int)),
            in_word ==> texts_of(list@).push(word@) == words(text@.take(it.index() as int)),
    {
        let ghost before = text@.take(it.index() as int);
        let ghost now = text@.take(it.index() + 1);
        assert(now.drop_last() == before);
        assert(now.last() == c);
        if is_whitespace(c) {
            if in_word {
                let ghost done = texts_of(list@);
                let ghost last = word@;
                list.push(word);
                assert(texts_of(list@) =~= done.push(last));
                word = String::new();
                in_word = false;
            }
        } else {
            proof {
                if in_word {
                    let done = texts_of(list@);
                    assert(done.push(word@).drop_last() == done);
                    assert(now[now.len() - 2] == before.last());
                } else {
                    assert(now.len() >= 2 ==> now[now.len() - 2] == before.last());
                    assert(word@.push(c) == seq![c]);
                }
            }
            push_char(&mut word, c);
            in_word = true;
        }
    }
    assert(text@.take(text@.len() as int) == text@);
    if in_word {
        let ghost done = texts_of(list@);
        let ghost last = word@;
        list.push(word);
        assert(texts_of(list@) =~= done.push(last));
    }
    list
}

/// Where the line being written stands.
#[derive(Debug, Clone, Copy, PartialEq, Eq, Structural)]
pub struct Cursor {
    /// How many characters the line holds. It counts no further than
    /// `usize::MAX`.
    pub line_width: usize,
    /// Whether the line holds a word, so that a space goes before the next.
    pub pending_space: bool,
}

impl Cursor {
    /// The cursor at the start of a paragraph.
    pub open spec fn start() -> Cursor {
        Cursor { line_width: 0, pending_space: false }
    }

    /// The cursor at the start of a paragraph.
    pub fn new() -> (c: Cursor)
        ensures
            c == Cursor::start(),
    {
        Cursor { line_width: 0, pending_space: false }
    }

    /// The width that the line would have with a word of `len` characters
    /// added to it.
    pub open spec fn extended(self, len: nat) -> nat {
        (self.line_width + (if self.pending_space { 1nat } else { 0nat }) + len) as nat
    }

    /// Whether the line breaks before a word of `len` characters: the line
    /// is full, or the word fits on a line of its own but not on this one.
    pub open spec fn breaks_before(self, len: nat, max: usize) -> bool {
        self.line_width >= max || (self.extended(len) > max && len <= max)
    }

    /// What is written between the text so far and a word of `len`
    /// characters: a line ending, a space, or nothing.
    pub open spec fn gap(self, len: nat, max: usize, ending: Seq<char>) -> Seq<char> {
        if self.breaks_before(len, max) {
            ending
        } else if self.pending_space {
            seq![' ']
        } else {
            Seq::empty()
        }
    }

    /// The cursor after a word of `len` characters.
    pub open spec fn after(self, len: nat, max: usize) -> Cursor {
        let width = if self.breaks_before(len, max) {
            len
        } else {
            self.extended(len)
        };
        Cursor {
            line_width: if width > usize::MAX { usize::MAX } else { width as usize },
            pending_space: true,
        }
    }

    /// The cursor after a list of words, one after the other.
    pub open spec fn after_all(self, list: Seq<Seq<char>>, max: usize) -> Cursor
        decreases list.len(),
    {
        if list.len() == 0 {
            self
        } else {
            self.after_all(list.drop_last(), max).after(list.last().len(), max)
        }
    }
}

/// The text that a list of words makes when the line stands at `cursor`:
/// each word, with what `Cursor::gap` puts before it.
pub open spec fn wrapped(cursor: Cursor, list: Seq<Seq<char>>, max: usize, ending: Seq<char>) -> Seq<
    char,
>
    decreases list.len(),
{
    if list.len() == 0 {
        Seq::empty()
    } else {
        let before = list.drop_last();
        wrapped(cursor, before, max, ending) + cursor.after_all(before, max).gap(
            list.last().len(),
            max,
            ending,
        ) + list.last()
    }
}

/// Wrapping a list of words and then more words, from where the first
/// leave the cursor, is wrapping them all.
pub proof fn lemma_wrapped_more(
    cursor: Cursor,
    first: Seq<Seq<char>>,
    more: Seq<Seq<char>>,
    max: usize,
    ending: Seq<char>,
)
    ensures
        wrapped(cursor, first + more, max, ending) == wrapped(cursor, first, max, ending) + wrapped(
            cursor.after_all(first, max),
            more,
            max,
            ending,
        ),
        cursor.after_all(first + more, max) == cursor.after_all(first, max).after_all(more, max),
    decreases more.len(),
{
    if more.len() == 0 {
        assert(first + more == first);
    } else {
        let all = first + more;
        assert(all.drop_last() == first + more.drop_last());
        assert(all.last() == more.last());
        lemma_wrapped_more(cursor, first, more.drop_last(), max, ending);
        assert(wrapped(cursor, all, max, ending) =~= wrapped(cursor, first, max, ending) + wrapped(
            cursor.after_all(first, max),
            more,
            max,
            ending,
        ));
    }
}

/// Writes one word to `out`, after a line ending where the line breaks and
/// after a space where it goes on.
pub fn write_word(
    word: &str,
    cursor: &mut Cursor,
    out: &mut String,
    linebreak: LinebreakStyle,
    max_line_width: usize,
)
    ensures
        final(out)@ == old(out)@ + old(cursor).gap(word@.len(), max_line_width, linebreak.chars())
            + word@,
        *final(cursor) == old(cursor).after(word@.len(), max_line_width),
{
    let len = word.unicode_len();
    let is_too_long = cursor.line_width >= max_line_width;
    let word_too_long = len > max_line_width;
    let will_be_too_long = if is_too_long {
        true
    } else if cursor.pending_space {
        max_line_width - cursor.line_width - 1 < len
    } else {
        max_line_width - cursor.line_width < len
    };
    if is_too_long || will_be_too_long && !word_too_long {
        out.append(linebreak.as_str());
        cursor.line_width = 0;
        cursor.pending_space = false;
    }
    if cursor.pending_space {
        push_char(out, ' ');
        cursor.line_width = cursor.line_width.saturating_add(1);
    }
    out.append(word);
    cursor.line_width = cursor.line_width.saturating_add(len);
    cursor.pending_space = true;
    assert(out@ =~= old(out)@ + old(cursor).gap(word@.len(), max_line_width, linebreak.chars())
        + word@);
}

/// Splits a run of text into words and writes them to `out`, going on from
/// where `cursor` stands.
pub fn write_text(
    text: &str,
    cursor: &mut Cursor,
    out: &mut String,
    linebreak: LinebreakStyle,
    max_line_width: usize,
)
    ensures
        final(out)@ == old(out)@ + wrapped(
            *old(cursor),
            words(text@),
            max_line_width,
            linebreak.chars(),
        ),
        *final(cursor) == old(cursor).after_all(words(text@), max_line_width),
{
    let list = split_words(text);
    let ghost all = texts_of(list@);
    let mut i: usize = 0;
    while i < list.len()
        invariant
            i <= list.len(),
            all == texts_of(list@),
            out@ == old(out)@ + wrapped(
                *old(cursor),
                all.take(i as int),
                max_line_width,
                linebreak.chars(),
            ),
            *cursor == old(cursor).after_all(all.take(i as int), max_line_width),
        decreases list.len() - i,
    {
        proof {
            let now = all.take(i + 1);
            assert(now.drop_last() == all.take(i as int));
            assert(now.last() == list@[i as int]@);
        }
        write_word(list[i].as_str(), cursor, out, linebreak, max_line_width);
        i += 1;
    }
    assert(all.take(list.len() as int) == all);
}

} // verus!
