//! The plain-text writers: one for each part of a document, and one for the
//! element that holds them.

use crate::config::Config;
use crate::error::RenderError;
use crate::format::LinebreakStyle;
use crate::markup::{
    Event, EventStream, MarkupEvent, COPYRIGHT_TEXT, PARAGRAPH, TEXT, TITLE_TEXT,
};
use crate::lines::{
    all_words, lemma_lines_fit, lemma_one_blank_line, lemma_words_are_words, lines_within,
    occurs_at,
};
use crate::wrap::{lemma_wrapped_more, words, wrapped, write_text, Cursor};
use vstd::prelude::*;

verus! {

/// What a writer makes of the events before it.
pub struct Rendered {
    /// The text that it writes.
    pub text: Seq<char>,
    /// The events that it leaves unread.
    pub rest: Seq<Event>,
    /// How it ends.
    pub result: Result<(), RenderError>,
}

/// The error that a writer ends with at a terminal event.
pub open spec fn failure_at(end: Event) -> RenderError {
    if end is Malformed {
        RenderError::MarkupSyntax
    } else {
        RenderError::UnterminatedElement
    }
}

/// How many events stand before the first that closes the element `name`
/// or ends the stream.
pub open spec fn length_of(s: Seq<Event>, name: &str) -> int
    decreases s.len(),
{
    if s.len() == 0 || s[0].ends(name) || s[0].is_terminal() {
        0
    } else {
        1 + length_of(s.skip(1), name)
    }
}

/// The events that a writer for the element `name` leaves unread: those
/// after the end tag; at a terminal event, that event and what follows.
pub open spec fn left_after(s: Seq<Event>, name: &str) -> Seq<Event> {
    let n = length_of(s, name);
    if n < s.len() && s[n].ends(name) {
        s.skip(n + 1)
    } else {
        s.skip(n)
    }
}

/// How a writer for the element `name` ends: well at the end tag, with an
/// error at a terminal event.
pub open spec fn end_of(s: Seq<Event>, name: &str) -> Result<(), RenderError> {
    let n = length_of(s, name);
    if n < s.len() && s[n].ends(name) {
        Ok(())
    } else if n < s.len() {
        Err(failure_at(s[n]))
    } else {
        Err(RenderError::UnterminatedElement)
    }
}

/// The words of the runs of text among `s`, in order.
pub open spec fn words_in(s: Seq<Event>) -> Seq<Seq<char>>
    decreases s.len(),
{
    if s.len() == 0 {
        Seq::empty()
    } else {
        words_in(s.drop_last()) + match s.last() {
            Event::Text(content) => words(content),
            _ => Seq::empty(),
        }
    }
}

/// The runs of text among `s` as they stand, with a blank line for every
/// paragraph that ends.
pub open spec fn copied(s: Seq<Event>, ending: Seq<char>) -> Seq<char>
    decreases s.len(),
{
    if s.len() == 0 {
        Seq::empty()
    } else {
        copied(s.drop_last(), ending) + match s.last() {
            Event::Text(content) => content,
            event => if event.ends(PARAGRAPH) {
                ending + ending
            } else {
                Seq::empty()
            },
        }
    }
}

/// What the paragraph writer makes of `s`: the words up to the paragraph's
/// end, wrapped, and a blank line where the paragraph ends.
pub open spec fn paragraph(s: Seq<Event>, max: usize, ending: Seq<char>) -> Rendered {
    let n = length_of(s, PARAGRAPH);
    let body = wrapped(Cursor::start(), words_in(s.take(n)), max, ending);
    Rendered {
        text: if end_of(s, PARAGRAPH) is Ok {
            body + ending + ending
        } else {
            body
        },
        rest: left_after(s, PARAGRAPH),
        result: end_of(s, PARAGRAPH),
    }
}

/// What a writer that copies makes of `s`, up to the end of the element
/// `name`.
pub open spec fn verbatim(s: Seq<Event>, name: &str, ending: Seq<char>) -> Rendered {
    Rendered {
        text: copied(s.take(length_of(s, name)), ending),
        rest: left_after(s, name),
        result: end_of(s, name),
    }
}

/// What passing over the element `name` makes of `s`: no text.
pub open spec fn skipped(s: Seq<Event>, name: &str) -> Rendered {
    Rendered { text: Seq::empty(), rest: left_after(s, name), result: end_of(s, name) }
}

/// What the writers make of the element that the first event of `s` starts:
/// the title and the copyright notice are copied, the notice only where
/// `emit` holds, a paragraph is wrapped, and every other start tag, like
/// every other event, is passed over by itself.
pub open spec fn block(s: Seq<Event>, max: usize, ending: Seq<char>, emit: bool) -> Rendered
    recommends
        s.len() > 0,
{
    let inner = s.skip(1);
    if s[0].starts(TITLE_TEXT) {
        verbatim(inner, TITLE_TEXT, ending)
    } else if s[0].starts(COPYRIGHT_TEXT) {
        if emit {
            verbatim(inner, COPYRIGHT_TEXT, ending)
        } else {
            skipped(inner, COPYRIGHT_TEXT)
        }
    } else if s[0].starts(PARAGRAPH) {
        paragraph(inner, max, ending)
    } else {
        Rendered { text: Seq::empty(), rest: inner, result: Ok(()) }
    }
}

/// One writer after another: the texts of both, and the end of the second.
pub open spec fn and_then(first: Rendered, second: Rendered) -> Rendered {
    Rendered { text: first.text + second.text, rest: second.rest, result: second.result }
}

/// What the writer of the element that holds a license's text makes of
/// `s`: block after block, up to the end tag of that element.
pub open spec fn body(s: Seq<Event>, max: usize, ending: Seq<char>, emit: bool) -> Rendered
    decreases s.len(),
{
    if s.len() == 0 {
        Rendered { text: Seq::empty(), rest: s, result: Err(RenderError::UnterminatedElement) }
    } else if s[0].is_terminal() {
        Rendered { text: Seq::empty(), rest: s, result: Err(failure_at(s[0])) }
    } else if s[0].ends(TEXT) {
        Rendered { text: Seq::empty(), rest: s.skip(1), result: Ok(()) }
    } else {
        let first = block(s, max, ending, emit);
        if first.result is Ok {
            proof {
                lemma_block_rest(s, max, ending, emit);
            }
            and_then(first, body(first.rest, max, ending, emit))
        } else {
            first
        }
    }
}

/// What rendering as plain text makes of a whole document: the text of
/// every element that holds a license's text, and nothing of what stands
/// outside them. It ends well at the end of the stream.
pub open spec fn document(s: Seq<Event>, max: usize, ending: Seq<char>, emit: bool) -> Rendered
    decreases s.len(),
{
    if s.len() == 0 || s[0] is EndOfStream {
        Rendered { text: Seq::empty(), rest: s, result: Ok(()) }
    } else if s[0] is Malformed {
        Rendered { text: Seq::empty(), rest: s, result: Err(RenderError::MarkupSyntax) }
    } else if s[0].starts(TEXT) {
        let inside = body(s.skip(1), max, ending, emit);
        if inside.result is Ok {
            proof {
                lemma_body_rest(s.skip(1), max, ending, emit);
            }
            and_then(inside, document(inside.rest, max, ending, emit))
        } else {
            inside
        }
    } else {
        document(s.skip(1), max, ending, emit)
    }
}

/// The writer of the element that holds a license's text leaves no more
/// events than it found.
pub proof fn lemma_body_rest(s: Seq<Event>, max: usize, ending: Seq<char>, emit: bool)
    ensures
        body(s, max, ending, emit).rest.len() <= s.len(),
    decreases s.len(),
{
    if s.len() > 0 && !s[0].is_terminal() && !s[0].ends(TEXT) {
        let first = block(s, max, ending, emit);
        lemma_block_rest(s, max, ending, emit);
        if first.result is Ok {
            lemma_body_rest(first.rest, max, ending, emit);
        }
    }
}

/// A block leaves fewer events than it found.
pub proof fn lemma_block_rest(s: Seq<Event>, max: usize, ending: Seq<char>, emit: bool)
    requires
        s.len() > 0,
    ensures
        block(s, max, ending, emit).rest.len() < s.len(),
{
    lemma_length_of(s.skip(1), TITLE_TEXT);
    lemma_length_of(s.skip(1), COPYRIGHT_TEXT);
    lemma_length_of(s.skip(1), PARAGRAPH);
}

/// The count of events before the end of an element lies within the list.
pub proof fn lemma_length_of(s: Seq<Event>, name: &str)
    ensures
        0 <= length_of(s, name) <= s.len(),
        forall|i: int| 0 <= i < length_of(s, name) ==> !(#[trigger] s[i]).ends(name) && !s[i].is_terminal(),
        length_of(s, name) < s.len() ==> s[length_of(s, name)].ends(name) || s[length_of(
            s,
            name,
        )].is_terminal(),
    decreases s.len(),
{
    if !(s.len() == 0 || s[0].ends(name) || s[0].is_terminal()) {
        lemma_length_of(s.skip(1), name);
        let n = length_of(s.skip(1), name);
        assert forall|i: int| 0 <= i < n + 1 implies !(#[trigger] s[i]).ends(name)
            && !s[i].is_terminal() by {
            if i > 0 {
                assert(s[i] == s.skip(1)[i - 1]);
            }
        }
        if n + 1 < s.len() {
            assert(s[n + 1] == s.skip(1)[n]);
        }
    }
}

/// The first event that closes the element or ends the stream is where
/// the count of `length_of` stops.
pub proof fn lemma_length_is(s: Seq<Event>, name: &str, n: int)
    requires
        0 <= n < s.len(),
        forall|i: int| 0 <= i < n ==> !(#[trigger] s[i]).ends(name) && !s[i].is_terminal(),
        s[n].ends(name) || s[n].is_terminal(),
    ensures
        length_of(s, name) == n,
    decreases n,
{
    if n > 0 {
        let rest = s.skip(1);
        assert forall|i: int| 0 <= i < n - 1 implies !(#[trigger] rest[i]).ends(name)
            && !rest[i].is_terminal() by {
            assert(rest[i] == s[i + 1]);
        }
        assert(rest[n - 1] == s[n]);
        assert(!s[0].ends(name) && !s[0].is_terminal());
        lemma_length_is(rest, name, n - 1);
    }
}

/// The words of runs of text can be words: each holds a character, and
/// none holds white space.
pub proof fn lemma_words_in_are_words(s: Seq<Event>)
    ensures
        all_words(words_in(s)),
    decreases s.len(),
{
    if s.len() > 0 {
        lemma_words_in_are_words(s.drop_last());
        if let Event::Text(content) = s.last() {
            lemma_words_are_words(content);
        }
    }
}

/// Where no word of a paragraph is longer than a line may be, no line of
/// the paragraph as it is written holds more than `max` characters.
pub proof fn lemma_paragraph_lines_fit(s: Seq<Event>, max: usize, linebreak: LinebreakStyle)
    requires
        forall|i: int|
            0 <= i < words_in(s.take(length_of(s, PARAGRAPH))).len() ==> (#[trigger] words_in(
                s.take(length_of(s, PARAGRAPH)),
            )[i]).len() <= max,
    ensures
        lines_within(paragraph(s, max, linebreak.chars()).text, max as int),
{
    let list = words_in(s.take(length_of(s, PARAGRAPH)));
    lemma_words_in_are_words(s.take(length_of(s, PARAGRAPH)));
    lemma_lines_fit(list, max, linebreak);
}

/// A paragraph that is written to its end ends with a blank line and
/// holds no other: the line ending stands twice in a row at the end of
/// its text, and nowhere before.
pub proof fn lemma_paragraph_one_blank_line(s: Seq<Event>, max: usize, linebreak: LinebreakStyle)
    requires
        paragraph(s, max, linebreak.chars()).result is Ok,
    ensures
        ({
            let text = paragraph(s, max, linebreak.chars()).text;
            let twice = linebreak.chars() + linebreak.chars();
            forall|i: int| #[trigger] occurs_at(text, twice, i) <==> i == text.len() - twice.len()
        }),
{
    let list = words_in(s.take(length_of(s, PARAGRAPH)));
    lemma_words_in_are_words(s.take(length_of(s, PARAGRAPH)));
    lemma_one_blank_line(list, max, linebreak);
}

/// Writes a paragraph: the words of its runs of text, wrapped, and a blank
/// line after them. The stream stands behind the paragraph's start tag.
pub fn write_p(
    xml: &mut EventStream,
    out: &mut String,
    _config: &Config,
    linebreak: LinebreakStyle,
    max_line_width: usize,
) -> (result: Result<(), RenderError>)
    ensures
        final(xml).upcoming() == paragraph(
            old(xml).upcoming(),
            max_line_width,
            linebreak.chars(),
        ).rest,
        final(out)@ == old(out)@ + paragraph(
            old(xml).upcoming(),
            max_line_width,
            linebreak.chars(),
        ).text,
        result == paragraph(old(xml).upcoming(), max_line_width, linebreak.chars()).result,
{
    let ghost s = xml.upcoming();
    let ghost ending = linebreak.chars();
    let ghost mut n: int = 0;
    let mut cursor = Cursor::new();
    assert(s.skip(0) == s);
    assert(s.take(0).len() == 0);
    loop
        invariant
            0 <= n <= s.len(),
            xml.upcoming() == s.skip(n),
            forall|i: int| 0 <= i < n ==> !(#[trigger] s[i]).ends(PARAGRAPH) && !s[i].is_terminal(),
            ending == linebreak.chars(),
            s == old(xml).upcoming(),
            out@ == old(out)@ + wrapped(Cursor::start(), words_in(s.take(n)), max_line_width, ending),
            cursor == Cursor::start().after_all(words_in(s.take(n)), max_line_width),
        decreases s.len() - n,
    {
        let event = xml.peek();
        assert(n < s.len() && event@ == s[n]);
        if event.ends(PARAGRAPH) {
            out.append(linebreak.as_str());
            out.append(linebreak.as_str());
            xml.advance();
            proof {
                lemma_length_is(s, PARAGRAPH, n);
                assert(s.skip(n).skip(1) == s.skip(n + 1));
                assert(out@ =~= old(out)@ + (wrapped(
                    Cursor::start(),
                    words_in(s.take(n)),
                    max_line_width,
                    ending,
                ) + ending + ending));
            }
            return Ok(());
        }
        match event {
            MarkupEvent::EndOfStream => {
                proof {
                    lemma_length_is(s, PARAGRAPH, n);
                }
                return Err(RenderError::UnterminatedElement);
            },
            MarkupEvent::Malformed => {
                proof {
                    lemma_length_is(s, PARAGRAPH, n);
                }
                return Err(RenderError::MarkupSyntax);
            },
            MarkupEvent::Text(content) => {
                proof {
                    lemma_wrapped_more(
                        Cursor::start(),
                        words_in(s.take(n)),
                        words(content@),
                        max_line_width,
                        ending,
                    );
                }
                write_text(content.as_str(), &mut cursor, out, linebreak, max_line_width);
            },
            _ => {},
        }
        proof {
            assert(s.take(n + 1).drop_last() == s.take(n));
            assert(s.take(n + 1).last() == s[n]);
            assert(s.skip(n).skip(1) == s.skip(n + 1));
            assert(!(s[n] is Text) ==> words_in(s.take(n + 1)) =~= words_in(s.take(n)));
        }
        xml.advance();
        proof {
            n = n + 1;
        }
    }
}

/// Copies the runs of text of the element `name` to `out`, with a blank
/// line for every paragraph that ends in it.
fn copy_element(xml: &mut EventStream, out: &mut String, linebreak: LinebreakStyle, name: &str) -> (result:
    Result<(), RenderError>)
    ensures
        final(xml).upcoming() == verbatim(old(xml).upcoming(), name, linebreak.chars()).rest,
        final(out)@ == old(out)@ + verbatim(old(xml).upcoming(), name, linebreak.chars()).text,
        result == verbatim(old(xml).upcoming(), name, linebreak.chars()).result,
{
    let ghost s = xml.upcoming();
    let ghost ending = linebreak.chars();
    let ghost mut n: int = 0;
    assert(s.skip(0) == s);
    assert(s.take(0).len() == 0);
    assert(out@ + Seq::<char>::empty() == out@);
    loop
        invariant
            0 <= n <= s.len(),
            xml.upcoming() == s.skip(n),
            forall|i: int| 0 <= i < n ==> !(#[trigger] s[i]).ends(name) && !s[i].is_terminal(),
            ending == linebreak.chars(),
            s == old(xml).upcoming(),
            out@ == old(out)@ + copied(s.take(n), ending),
        decreases s.len() - n,
    {
        let event = xml.peek();
        assert(n < s.len() && event@ == s[n]);
        if event.ends(name) {
            xml.advance();
            proof {
                lemma_length_is(s, name, n);
                assert(s.skip(n).skip(1) == s.skip(n + 1));
            }
            return Ok(());
        }
        match event {
            MarkupEvent::EndOfStream => {
                proof {
                    lemma_length_is(s, name, n);
                }
                return Err(RenderError::UnterminatedElement);
            },
            MarkupEvent::Malformed => {
                proof {
                    lemma_length_is(s, name, n);
                }
                return Err(RenderError::MarkupSyntax);
            },
            MarkupEvent::Text(content) => {
                out.append(content.as_str());
            },
            _ => {
                if event.ends(PARAGRAPH) {
                    out.append(linebreak.as_str());
                    out.append(linebreak.as_str());
                }
            },
        }
        proof {
            assert(s.take(n + 1).drop_last() == s.take(n));
            assert(s.take(n + 1).last() == s[n]);
            assert(s.skip(n).skip(1) == s.skip(n + 1));
            assert(out@ =~= old(out)@ + copied(s.take(n + 1), ending));
        }
        xml.advance();
        proof {
            n = n + 1;
        }
    }
}

/// Writes the title: its runs of text as they stand, with a blank line for
/// every paragraph that ends in it. The stream stands behind the title's
/// start tag.
pub fn write_title_text(
    xml: &mut EventStream,
    out: &mut String,
    _config: &Config,
    linebreak: LinebreakStyle,
) -> (result: Result<(), RenderError>)
    ensures
        final(xml).upcoming() == verbatim(old(xml).upcoming(), TITLE_TEXT, linebreak.chars()).rest,
        final(out)@ == old(out)@ + verbatim(
            old(xml).upcoming(),
            TITLE_TEXT,
            linebreak.chars(),
        ).text,
        result == verbatim(old(xml).upcoming(), TITLE_TEXT, linebreak.chars()).result,
{
    copy_element(xml, out, linebreak, TITLE_TEXT)
}

/// Writes the copyright notice: its runs of text as they stand, with a
/// blank line for every paragraph that ends in it. The year and the holder
/// of `_config` are not put into it. The stream stands behind the notice's
/// start tag.
pub fn write_copyright_text(
    xml: &mut EventStream,
    out: &mut String,
    _config: &Config,
    linebreak: LinebreakStyle,
) -> (result: Result<(), RenderError>)
    ensures
        final(xml).upcoming() == verbatim(
            old(xml).upcoming(),
            COPYRIGHT_TEXT,
            linebreak.chars(),
        ).rest,
        final(out)@ == old(out)@ + verbatim(
            old(xml).upcoming(),
            COPYRIGHT_TEXT,
            linebreak.chars(),
        ).text,
        result == verbatim(old(xml).upcoming(), COPYRIGHT_TEXT, linebreak.chars()).result,
{
    copy_element(xml, out, linebreak, COPYRIGHT_TEXT)
}

/// Passes over the copyright notice and writes nothing. The stream stands
/// behind the notice's start tag.
pub fn skip_copyright_text(xml: &mut EventStream) -> (result: Result<(), RenderError>)
    ensures
        final(xml).upcoming() == skipped(old(xml).upcoming(), COPYRIGHT_TEXT).rest,
        result == skipped(old(xml).upcoming(), COPYRIGHT_TEXT).result,
{
    let ghost s = xml.upcoming();
    let ghost mut n: int = 0;
    assert(s.skip(0) == s);
    loop
        invariant
            0 <= n <= s.len(),
            xml.upcoming() == s.skip(n),
            forall|i: int|
                0 <= i < n ==> !(#[trigger] s[i]).ends(COPYRIGHT_TEXT) && !s[i].is_terminal(),
            s == old(xml).upcoming(),
        decreases s.len() - n,
    {
        let event = xml.peek();
        assert(n < s.len() && event@ == s[n]);
        proof {
            assert(s.skip(n).skip(1) == s.skip(n + 1));
        }
        if event.ends(COPYRIGHT_TEXT) {
            xml.advance();
            proof {
                lemma_length_is(s, COPYRIGHT_TEXT, n);
            }
            return Ok(());
        }
        match event {
            MarkupEvent::EndOfStream => {
                proof {
                    lemma_length_is(s, COPYRIGHT_TEXT, n);
                }
                return Err(RenderError::UnterminatedElement);
            },
            MarkupEvent::Malformed => {
                proof {
                    lemma_length_is(s, COPYRIGHT_TEXT, n);
                }
                return Err(RenderError::MarkupSyntax);
            },
            _ => {},
        }
        xml.advance();
        proof {
            n = n + 1;
        }
    }
}

/// Writes what the element that holds a license's text holds: the title,
/// the copyright notice unless `config` leaves it out, and the paragraphs,
/// in the order in which they come, up to the element's end tag. The
/// stream stands behind the element's start tag.
pub fn write(
    xml: &mut EventStream,
    out: &mut String,
    config: &Config,
    linebreak: LinebreakStyle,
    max_line_width: usize,
) -> (result: Result<(), RenderError>)
    ensures
        final(xml).upcoming() == body(
            old(xml).upcoming(),
            max_line_width,
            linebreak.chars(),
            config.emits_copyright(),
        ).rest,
        final(out)@ == old(out)@ + body(
            old(xml).upcoming(),
            max_line_width,
            linebreak.chars(),
            config.emits_copyright(),
        ).text,
        result == body(
            old(xml).upcoming(),
            max_line_width,
            linebreak.chars(),
            config.emits_copyright(),
        ).result,
{
    let ghost whole = body(
        xml.upcoming(),
        max_line_width,
        linebreak.chars(),
        config.emits_copyright(),
    );
    let ghost mut written: Seq<char> = Seq::empty();
    assert(out@ + written == out@);
    assert(written + whole.text == whole.text);
    loop
        invariant
            out@ == old(out)@ + written,
            whole == body(
                old(xml).upcoming(),
                max_line_width,
                linebreak.chars(),
                config.emits_copyright(),
            ),
            whole == and_then(
                Rendered { text: written, rest: Seq::empty(), result: Ok(()) },
                body(xml.upcoming(), max_line_width, linebreak.chars(), config.emits_copyright()),
            ),
        decreases xml.upcoming().len(),
    {
        let ghost now = xml.upcoming();
        let ghost first = block(now, max_line_width, linebreak.chars(), config.emits_copyright());
        let event = xml.peek();
        assert(written + Seq::<char>::empty() == written);
        match event {
            MarkupEvent::EndOfStream => {
                return Err(RenderError::UnterminatedElement);
            },
            MarkupEvent::Malformed => {
                return Err(RenderError::MarkupSyntax);
            },
            _ => {},
        }
        if event.ends(TEXT) {
            xml.advance();
            return Ok(());
        }
        let is_title = event.starts(TITLE_TEXT);
        let is_copyright = event.starts(COPYRIGHT_TEXT);
        let is_paragraph = event.starts(PARAGRAPH);
        xml.advance();
        let step = if is_title {
            write_title_text(xml, out, config, linebreak)
        } else if is_copyright {
            if config.emit_copyright() {
                write_copyright_text(xml, out, config, linebreak)
            } else {
                skip_copyright_text(xml)
            }
        } else if is_paragraph {
            write_p(xml, out, config, linebreak, max_line_width)
        } else {
            Ok(())
        };
        proof {
            lemma_block_rest(now, max_line_width, linebreak.chars(), config.emits_copyright());
            assert(xml.upcoming() == first.rest);
            assert(out@ =~= old(out)@ + (written + first.text));
            assert(step == first.result);
            if first.result is Ok {
                let more = body(
                    first.rest,
                    max_line_width,
                    linebreak.chars(),
                    config.emits_copyright(),
                );
                assert(written + (first.text + more.text) =~= (written + first.text) + more.text);
            }
            written = written + first.text;
        }
        if let Err(error) = step {
            return Err(error);
        }
    }
}

} // verus!
