//! The copyright notice within a rendered document: where it stands, and
//! what leaving it out changes.

use crate::format::Format;
use crate::markup::{lemma_element_names, Event, COPYRIGHT_TEXT, TEXT};
use crate::plain::{block, body, document, lemma_block_rest, lemma_body_rest};
use vstd::prelude::*;

verus! {

/// `text` without the characters that `marked` marks.
pub open spec fn unmarked(text: Seq<char>, marked: Seq<bool>) -> Seq<char>
    recommends
        text.len() == marked.len(),
    decreases text.len(),
{
    if text.len() == 0 {
        Seq::empty()
    } else if marked.last() {
        unmarked(text.drop_last(), marked.drop_last())
    } else {
        unmarked(text.drop_last(), marked.drop_last()).push(text.last())
    }
}

/// One mark for each of `n` characters, all alike.
pub open spec fn marks(n: nat, mark: bool) -> Seq<bool> {
    Seq::new(n, |k: int| mark)
}

/// For each character that the writer of the element that holds a
/// license's text writes where the copyright notice is not left out:
/// whether it belongs to a copyright notice.
pub open spec fn notice_in_body(s: Seq<Event>, max: usize, ending: Seq<char>) -> Seq<bool>
    decreases s.len(),
{
    if s.len() == 0 || s[0].is_terminal() || s[0].ends(TEXT) {
        Seq::empty()
    } else {
        let first = block(s, max, ending, true);
        let mine = marks(first.text.len(), s[0].starts(COPYRIGHT_TEXT));
        if first.result is Ok {
            proof {
                lemma_block_rest(s, max, ending, true);
            }
            mine + notice_in_body(first.rest, max, ending)
        } else {
            mine
        }
    }
}

/// For each character of a document rendered with its copyright notices:
/// whether it belongs to one of them.
pub open spec fn notice_in_document(s: Seq<Event>, max: usize, ending: Seq<char>) -> Seq<bool>
    decreases s.len(),
{
    if s.len() == 0 || s[0].is_terminal() {
        Seq::empty()
    } else if s[0].starts(TEXT) {
        let inside = body(s.skip(1), max, ending, true);
        let mine = notice_in_body(s.skip(1), max, ending);
        if inside.result is Ok {
            proof {
                lemma_body_rest(s.skip(1), max, ending, true);
            }
            mine + notice_in_document(inside.rest, max, ending)
        } else {
            mine
        }
    } else {
        notice_in_document(s.skip(1), max, ending)
    }
}

/// What is left of two texts, one after the other, is what is left of the
/// first and then what is left of the second.
pub proof fn lemma_unmarked_both(
    first: Seq<char>,
    marked_first: Seq<bool>,
    second: Seq<char>,
    marked_second: Seq<bool>,
)
    requires
        first.len() == marked_first.len(),
        second.len() == marked_second.len(),
    ensures
        unmarked(first + second, marked_first + marked_second) == unmarked(first, marked_first)
            + unmarked(second, marked_second),
    decreases second.len(),
{
    if second.len() == 0 {
        assert(first + second == first);
        assert(marked_first + marked_second == marked_first);
    } else {
        let text = first + second;
        let marked = marked_first + marked_second;
        assert(text.drop_last() == first + second.drop_last());
        assert(marked.drop_last() == marked_first + marked_second.drop_last());
        assert(text.last() == second.last());
        assert(marked.last() == marked_second.last());
        lemma_unmarked_both(first, marked_first, second.drop_last(), marked_second.drop_last());
        assert(unmarked(text, marked) =~= unmarked(first, marked_first) + unmarked(
            second,
            marked_second,
        ));
    }
}

/// Where every character is marked nothing is left, and where none is,
/// the text.
pub proof fn lemma_unmarked_alike(text: Seq<char>, mark: bool)
    ensures
        unmarked(text, marks(text.len(), mark)) == if mark {
            Seq::empty()
        } else {
            text
        },
    decreases text.len(),
{
    if text.len() > 0 {
        assert(marks(text.len(), mark).drop_last() == marks(text.drop_last().len(), mark));
        lemma_unmarked_alike(text.drop_last(), mark);
        assert(text.drop_last().push(text.last()) == text);
    }
}

/// Leaving the copyright notice out changes nothing but this: the text
/// written is the text with the notice, without the characters of the
/// notice. The writer reads as far and ends as it does with the notice.
pub proof fn lemma_body_without_notice(s: Seq<Event>, max: usize, ending: Seq<char>)
    ensures
        notice_in_body(s, max, ending).len() == body(s, max, ending, true).text.len(),
        body(s, max, ending, false).text == unmarked(
            body(s, max, ending, true).text,
            notice_in_body(s, max, ending),
        ),
        body(s, max, ending, false).rest == body(s, max, ending, true).rest,
        body(s, max, ending, false).result == body(s, max, ending, true).result,
    decreases s.len(),
{
    if !(s.len() == 0 || s[0].is_terminal() || s[0].ends(TEXT)) {
        let with = block(s, max, ending, true);
        let without = block(s, max, ending, false);
        let mine = marks(with.text.len(), s[0].starts(COPYRIGHT_TEXT));
        lemma_unmarked_alike(with.text, s[0].starts(COPYRIGHT_TEXT));
        lemma_element_names();
        assert(without.text == unmarked(with.text, mine));
        if with.result is Ok {
            lemma_block_rest(s, max, ending, true);
            lemma_body_without_notice(with.rest, max, ending);
            lemma_unmarked_both(
                with.text,
                mine,
                body(with.rest, max, ending, true).text,
                notice_in_body(with.rest, max, ending),
            );
        }
    }
}

/// Leaving the copyright notice out of a document changes nothing but
/// this: the text rendered is the text with the notice, without the
/// characters of the notice. With and without it the render ends alike.
pub proof fn lemma_document_without_notice(s: Seq<Event>, max: usize, ending: Seq<char>)
    ensures
        notice_in_document(s, max, ending).len() == document(s, max, ending, true).text.len(),
        document(s, max, ending, false).text == unmarked(
            document(s, max, ending, true).text,
            notice_in_document(s, max, ending),
        ),
        document(s, max, ending, false).rest == document(s, max, ending, true).rest,
        document(s, max, ending, false).result == document(s, max, ending, true).result,
    decreases s.len(),
{
    if s.len() == 0 || s[0].is_terminal() {
    } else if s[0].starts(TEXT) {
        let inside = body(s.skip(1), max, ending, true);
        lemma_body_without_notice(s.skip(1), max, ending);
        if inside.result is Ok {
            lemma_body_rest(s.skip(1), max, ending, true);
            lemma_document_without_notice(inside.rest, max, ending);
            lemma_unmarked_both(
                inside.text,
                notice_in_body(s.skip(1), max, ending),
                document(inside.rest, max, ending, true).text,
                notice_in_document(inside.rest, max, ending),
            );
        }
    } else {
        lemma_document_without_notice(s.skip(1), max, ending);
    }
}

/// For each character of a document rendered in `format` with its
/// copyright notices: whether it belongs to one of them.
pub open spec fn notice_in(format: Format, s: Seq<Event>) -> Seq<bool> {
    match format {
        Format::Plain { line_width, linebreak } => notice_in_document(
            s,
            line_width,
            linebreak.chars(),
        ),
        _ => Seq::empty(),
    }
}

/// In every format, leaving the copyright notice out changes nothing but
/// this: the text rendered is the text with the notice, without the
/// characters of the notice. With and without it the render ends alike.
pub proof fn lemma_rendered_without_notice(format: Format, s: Seq<Event>)
    ensures
        notice_in(format, s).len() == format.rendered(s, true).text.len(),
        format.rendered(s, false).text == unmarked(
            format.rendered(s, true).text,
            notice_in(format, s),
        ),
        format.rendered(s, false).rest == format.rendered(s, true).rest,
        format.rendered(s, false).result == format.rendered(s, true).result,
{
    if let Format::Plain { line_width, linebreak } = format {
        lemma_document_without_notice(s, line_width, linebreak.chars());
    }
}

} // verus!
