//! Markup events, and the stream of them that a document is read as.

use crate::text::same_bytes;
use quick_xml::events::{BytesText, Event as XmlEvent};
use quick_xml::Reader;
use vstd::prelude::*;
use vstd::string::StringSliceAdditionalSpecFns;

verus! {

/// The name of the element that holds a license's text.
pub const TEXT: &'static str = "text";

/// The name of the element that holds the title.
pub const TITLE_TEXT: &'static str = "titleText";

/// The name of the element that holds the copyright notice.
pub const COPYRIGHT_TEXT: &'static str = "copyrightText";

/// The name of a paragraph element.
pub const PARAGRAPH: &'static str = "p";

/// The names of the elements, in bytes, are of four different lengths: no
/// two of them are the same name.
pub proof fn lemma_element_names()
    ensures
        TEXT.spec_bytes().len() == 4,
        TITLE_TEXT.spec_bytes().len() == 9,
        COPYRIGHT_TEXT.spec_bytes().len() == 13,
        PARAGRAPH.spec_bytes().len() == 1,
{
    reveal_strlit("text");
    reveal_strlit("titleText");
    reveal_strlit("copyrightText");
    reveal_strlit("p");
    vstd::string::is_ascii_spec_bytes(TEXT);
    vstd::string::is_ascii_spec_bytes(TITLE_TEXT);
    vstd::string::is_ascii_spec_bytes(COPYRIGHT_TEXT);
    vstd::string::is_ascii_spec_bytes(PARAGRAPH);
}

/// A markup event, as the contracts speak of it.
pub enum Event {
    /// The start tag of the element with this name.
    StartElement(Seq<u8>),
    /// The end tag of the element with this name.
    EndElement(Seq<u8>),
    /// A run of text, with its entities replaced.
    Text(Seq<char>),
    /// Anything else in a document: a comment, a declaration, a tag of an
    /// empty element.
    Other,
    /// The end of the document.
    EndOfStream,
    /// Bytes that are not well-formed markup. Nothing is read after them.
    Malformed,
}

impl Event {
    /// Whether a stream ends with this event.
    pub open spec fn is_terminal(self) -> bool {
        self is EndOfStream || self is Malformed
    }

    /// Whether this is the end tag of the element called `name`.
    pub open spec fn ends(self, name: &str) -> bool {
        self == Event::EndElement(name.spec_bytes())
    }

    /// Whether this is the start tag of the element called `name`.
    pub open spec fn starts(self, name: &str) -> bool {
        self == Event::StartElement(name.spec_bytes())
    }
}

/// A markup event.
#[derive(Debug, Clone, PartialEq, Eq)]
pub enum MarkupEvent {
    /// The start tag of the element with this name.
    StartElement(Vec<u8>),
    /// The end tag of the element with this name.
    EndElement(Vec<u8>),
    /// A run of text, with its entities replaced.
    Text(String),
    /// Anything else in a document: a comment, a declaration, a tag of an
    /// empty element.
    Other,
    /// The end of the document.
    EndOfStream,
    /// Bytes that are not well-formed markup. Nothing is read after them.
    Malformed,
}

impl View for MarkupEvent {
    type V = Event;

    open spec fn view(&self) -> Event {
        match *self {
            MarkupEvent::StartElement(name) => Event::StartElement(name@),
            MarkupEvent::EndElement(name) => Event::EndElement(name@),
            MarkupEvent::Text(content) => Event::Text(content@),
            MarkupEvent::Other => Event::Other,
            MarkupEvent::EndOfStream => Event::EndOfStream,
            MarkupEvent::Malformed => Event::Malformed,
        }
    }
}

impl MarkupEvent {
    /// Whether a stream ends with this event.
    pub fn is_terminal(&self) -> (b: bool)
        ensures
            b == self@.is_terminal(),
    {
        match self {
            MarkupEvent::EndOfStream => true,
            MarkupEvent::Malformed => true,
            _ => false,
        }
    }

    /// Whether this is the start tag of the element called `name`.
    pub fn starts(&self, name: &str) -> (b: bool)
        ensures
            b == self@.starts(name),
    {
        match self {
            MarkupEvent::StartElement(n) => same_bytes(n.as_slice(), name.as_bytes()),
            _ => false,
        }
    }

    /// Whether this is the end tag of the element called `name`.
    pub fn ends(&self, name: &str) -> (b: bool)
        ensures
            b == self@.ends(name),
    {
        match self {
            MarkupEvent::EndElement(n) => same_bytes(n.as_slice(), name.as_bytes()),
            _ => false,
        }
    }
}

/// The views of a list of events.
pub open spec fn events_of(list: Seq<MarkupEvent>) -> Seq<Event> {
    Seq::new(list.len(), |i: int| list[i]@)
}

/// Whether `s` has the shape of a stream: it ends with a terminal event,
/// and holds no other.
pub open spec fn is_stream(s: Seq<Event>) -> bool {
    &&& s.len() > 0
    &&& forall|i: int| 0 <= i < s.len() ==> (#[trigger] s[i].is_terminal() <==> i == s.len() - 1)
}

/// The stream that a list of events stands for: the events up to the first
/// terminal one; where there is none, the whole list and then the end of
/// the stream.
pub open spec fn until_end(s: Seq<Event>) -> Seq<Event>
    decreases s.len(),
{
    if s.len() == 0 {
        seq![Event::EndOfStream]
    } else if s[0].is_terminal() {
        seq![s[0]]
    } else {
        seq![s[0]] + until_end(s.skip(1))
    }
}

/// The stream that a list of events stands for has the shape of a stream.
pub proof fn lemma_until_end_is_stream(s: Seq<Event>)
    ensures
        is_stream(until_end(s)),
    decreases s.len(),
{
    if s.len() > 0 && !s[0].is_terminal() {
        lemma_until_end_is_stream(s.skip(1));
        let rest = until_end(s.skip(1));
        let all = until_end(s);
        assert forall|i: int| 0 <= i < all.len() implies (#[trigger] all[i].is_terminal() <==> i
            == all.len() - 1) by {
            if i > 0 {
                assert(all[i] == rest[i - 1]);
            }
        }
    }
}

/// A document as a stream of events with a cursor in it: events are read
/// one after the other, and never again. The stream ends with a terminal
/// event, which stays the next event once it is reached.
pub struct EventStream {
    events: Vec<MarkupEvent>,
    pos: usize,
}

impl EventStream {
    #[verifier::type_invariant]
    spec fn well_formed(self) -> bool {
        &&& self.pos < self.events.len()
        &&& is_stream(events_of(self.events@))
    }

    /// The events that are still to be read, the next one first.
    pub closed spec fn upcoming(self) -> Seq<Event> {
        events_of(self.events@).skip(self.pos as int)
    }

    /// A stream of the given events. It ends with the first terminal event
    /// among them and, where there is none, after the last of them.
    pub fn new(events: Vec<MarkupEvent>) -> (stream: EventStream)
        ensures
            stream.upcoming() == until_end(events_of(events@)),
            is_stream(stream.upcoming()),
    {
        let mut events = events;
        let ghost given = events_of(events@);
        let mut i: usize = 0;
        assert(given.take(0) + until_end(given.skip(0)) =~= until_end(given)) by {
            assert(given.skip(0) == given);
        }
        while i < events.len() && !events[i].is_terminal()
            invariant
                i <= events.len(),
                given == events_of(events@),
                forall|j: int| 0 <= j < i ==> !(#[trigger] given[j]).is_terminal(),
                given.take(i as int) + until_end(given.skip(i as int)) == until_end(given),
            decreases events.len() - i,
        {
            proof {
                let rest = given.skip(i as int);
                assert(rest[0] == given[i as int]);
                assert(rest.skip(1) == given.skip(i + 1));
                assert(given.take(i + 1) == given.take(i as int).push(given[i as int]));
                assert(given.take(i + 1) + until_end(given.skip(i + 1)) =~= given.take(i as int)
                    + until_end(rest));
            }
            i += 1;
        }
        if i < events.len() {
            events.truncate(i + 1);
            proof {
                assert(given.skip(i as int)[0] == given[i as int]);
                assert(events_of(events@) =~= given.take(i as int) + seq![given[i as int]]);
            }
        } else {
            events.push(MarkupEvent::EndOfStream);
            proof {
                assert(given.skip(i as int).len() == 0);
                assert(events_of(events@) =~= given.take(i as int) + seq![Event::EndOfStream]);
            }
        }
        proof {
            lemma_until_end_is_stream(given);
            assert(events_of(events@).skip(0) == events_of(events@));
        }
        EventStream { events, pos: 0 }
    }

    /// The next event.
    pub fn peek(&self) -> (event: &MarkupEvent)
        ensures
            is_stream(self.upcoming()),
            event@ == self.upcoming()[0],
    {
        proof {
            use_type_invariant(self);
            lemma_skip_is_stream(events_of(self.events@), self.pos as int);
        }
        &self.events[self.pos]
    }

    /// Goes on to the event after the next; at a terminal event the stream
    /// stays where it is.
    pub fn advance(&mut self)
        ensures
            final(self).upcoming() == if old(self).upcoming()[0].is_terminal() {
                old(self).upcoming()
            } else {
                old(self).upcoming().skip(1)
            },
    {
        proof {
            use_type_invariant(&*self);
        }
        if !self.events[self.pos].is_terminal() {
            assert(!events_of(self.events@)[self.pos as int].is_terminal());
            self.pos = self.pos + 1;
            assert(events_of(self.events@).skip(old(self).pos as int).skip(1) == events_of(
                self.events@,
            ).skip(self.pos as int));
        }
    }
}

/// The stream that a list of events stands for ends with the list's first
/// terminal event.
pub proof fn lemma_until_end_take(s: Seq<Event>, n: int)
    requires
        0 <= n < s.len(),
        s[n].is_terminal(),
        forall|i: int| 0 <= i < n ==> !(#[trigger] s[i]).is_terminal(),
    ensures
        until_end(s) == s.take(n + 1),
    decreases n,
{
    if n == 0 {
        assert(s.take(1) =~= seq![s[0]]);
    } else {
        let rest = s.skip(1);
        assert(!s[0].is_terminal());
        assert(rest[n - 1] == s[n]);
        assert forall|i: int| 0 <= i < n - 1 implies !(#[trigger] rest[i]).is_terminal() by {
            assert(rest[i] == s[i + 1]);
        }
        lemma_until_end_take(rest, n - 1);
        assert(s.take(n + 1) =~= seq![s[0]] + rest.take(n));
    }
}

/// What is left of a stream after some of its events, but not the last,
/// has the shape of a stream.
pub proof fn lemma_skip_is_stream(s: Seq<Event>, n: int)
    requires
        is_stream(s),
        0 <= n < s.len(),
    ensures
        is_stream(s.skip(n)),
{
    let rest = s.skip(n);
    assert forall|i: int| 0 <= i < rest.len() implies (#[trigger] rest[i].is_terminal() <==> i
        == rest.len() - 1) by {
        assert(rest[i] == s[i + n]);
    }
}

/// What one read of the markup reader gives, as the contracts speak of it.
pub enum Read {
    /// A start tag: the element's name.
    Start(Seq<u8>),
    /// An end tag: the element's name.
    End(Seq<u8>),
    /// A run of text, as the document holds it: entities are not replaced.
    Text(Seq<u8>),
    /// A comment, a declaration, a tag of an empty element and the like.
    Other,
    /// The end of the document.
    Eof,
    /// The reader's error.
    Failed,
}

impl Read {
    /// Whether the reader gives nothing more after this.
    pub open spec fn is_last(self) -> bool {
        self is Eof || self is Failed
    }

    /// The event that this read is, once the entities of text are replaced.
    pub open spec fn event(self) -> Event {
        match self {
            Read::Start(name) => Event::StartElement(name),
            Read::End(name) => Event::EndElement(name),
            Read::Text(raw) => match unescaped(raw) {
                Some(content) => Event::Text(content),
                None => Event::Malformed,
            },
            Read::Other => Event::Other,
            Read::Eof => Event::EndOfStream,
            Read::Failed => Event::Malformed,
        }
    }
}

/// What one read of the markup reader gives.
pub enum RawEvent {
    /// A start tag: the element's name.
    Start(Vec<u8>),
    /// An end tag: the element's name.
    End(Vec<u8>),
    /// A run of text, as the document holds it: entities are not replaced.
    Text(Vec<u8>),
    /// A comment, a declaration, a tag of an empty element and the like.
    Other,
    /// The end of the document.
    Eof,
}

/// A read as the contracts speak of it.
pub open spec fn read_of(read: Result<RawEvent, quick_xml::Error>) -> Read {
    match read {
        Ok(RawEvent::Start(name)) => Read::Start(name@),
        Ok(RawEvent::End(name)) => Read::End(name@),
        Ok(RawEvent::Text(raw)) => Read::Text(raw@),
        Ok(RawEvent::Other) => Read::Other,
        Ok(RawEvent::Eof) => Read::Eof,
        Err(_) => Read::Failed,
    }
}

/// Whether `s` holds one last read, at its end.
pub open spec fn ends_once(s: Seq<Read>) -> bool {
    &&& s.len() > 0
    &&& forall|i: int| 0 <= i < s.len() ==> (#[trigger] s[i].is_last() <==> i == s.len() - 1)
}

/// The events of a list of reads.
pub open spec fn events_in(s: Seq<Read>) -> Seq<Event> {
    Seq::new(s.len(), |i: int| s[i].event())
}

/// White space between tags, as the XML reader takes it: a space, a tab, a
/// line feed or a carriage return.
pub open spec fn is_blank(b: u8) -> bool {
    b == 0x20 || b == 0x09 || b == 0x0A || b == 0x0D
}

/// Whether `b` is the capital letter `upper` or its small letter.
pub open spec fn is_letter(b: u8, upper: u8) -> bool {
    b == upper || b == upper + 0x20
}

/// Whether `<!DOCTYPE` stands at `i`, in capital or small letters.
pub open spec fn opens_doctype(bytes: Seq<u8>, i: int) -> bool {
    &&& 0 <= i
    &&& i + 9 <= bytes.len()
    &&& bytes[i] == 0x3C
    &&& bytes[i + 1] == 0x21
    &&& is_letter(bytes[i + 2], 0x44)
    &&& is_letter(bytes[i + 3], 0x4F)
    &&& is_letter(bytes[i + 4], 0x43)
    &&& is_letter(bytes[i + 5], 0x54)
    &&& is_letter(bytes[i + 6], 0x59)
    &&& is_letter(bytes[i + 7], 0x50)
    &&& is_letter(bytes[i + 8], 0x45)
}

/// Whether nothing but white space stands between `j` and a `>`.
pub open spec fn closes_blank(bytes: Seq<u8>, j: int) -> bool
    decreases bytes.len() - j,
{
    0 <= j < bytes.len() && (bytes[j] == 0x3E || (is_blank(bytes[j]) && closes_blank(bytes, j + 1)))
}

/// Whether the bytes hold, anywhere, what a document type declaration that
/// names nothing looks like: `<!DOCTYPE`, white space or none, and `>`.
pub open spec fn nameless_doctype(bytes: Seq<u8>) -> bool {
    exists|i: int| opens_doctype(bytes, i) && closes_blank(bytes, i + 9)
}

/// Whether `<!DOCTYPE` stands at `i`, in capital or small letters.
fn doctype_at(bytes: &[u8], i: usize) -> (found: bool)
    ensures
        found == opens_doctype(bytes@, i as int),
{
    if bytes.len() < 9 || i > bytes.len() - 9 {
        return false;
    }
    bytes[i] == 0x3C && bytes[i + 1] == 0x21 && (bytes[i + 2] == 0x44 || bytes[i + 2] == 0x64) && (
    bytes[i + 3] == 0x4F || bytes[i + 3] == 0x6F) && (bytes[i + 4] == 0x43 || bytes[i + 4] == 0x63)
        && (bytes[i + 5] == 0x54 || bytes[i + 5] == 0x74) && (bytes[i + 6] == 0x59 || bytes[i + 6]
        == 0x79) && (bytes[i + 7] == 0x50 || bytes[i + 7] == 0x70) && (bytes[i + 8] == 0x45
        || bytes[i + 8] == 0x65)
}

/// Whether the bytes hold a document type declaration that names nothing.
pub fn has_nameless_doctype(bytes: &[u8]) -> (found: bool)
    ensures
        found == nameless_doctype(bytes@),
{
    let mut i: usize = 0;
    while i < bytes.len()
        invariant
            forall|k: int| 0 <= k < i ==> !(opens_doctype(bytes@, k) && closes_blank(bytes@, k + 9)),
        decreases bytes.len() - i,
    {
        if doctype_at(bytes, i) {
            let mut j: usize = i + 9;
            while j < bytes.len() && (bytes[j] == 0x20 || bytes[j] == 0x09 || bytes[j] == 0x0A
                || bytes[j] == 0x0D)
                invariant
                    i + 9 <= j <= bytes.len(),
                    closes_blank(bytes@, i + 9) == closes_blank(bytes@, j as int),
                decreases bytes.len() - j,
            {
                j += 1;
            }
            if j < bytes.len() && bytes[j] == 0x3E {
                return true;
            }
        }
        i += 1;
    }
    assert forall|k: int| !(opens_doctype(bytes@, k) && closes_blank(bytes@, k + 9)) by {
        if k >= i {
            assert(!opens_doctype(bytes@, k));
        }
    }
    false
}

/// An XML reader of `quick_xml` over the bytes of a document, set to trim
/// the white space round runs of text.
#[verifier::external_body]
pub struct XmlReader<'a> {
    inner: Reader<&'a [u8]>,
}

/// `quick_xml::Error`, the error of the reader. Nothing is read of it.
#[verifier::external_type_specification]
#[verifier::external_body]
pub struct ExXmlError(quick_xml::Error);

/// The reads that a reader has yet to give, the next one first, up to its
/// last read.
pub uninterp spec fn pending(reader: XmlReader) -> Seq<Read>;

/// The reads that a fresh reader over a document's bytes gives, up to its
/// last read.
pub uninterp spec fn reads_of(bytes: Seq<u8>) -> Seq<Read>;

/// A run of text with its entities replaced, where they can be.
pub uninterp spec fn unescaped(raw: Seq<u8>) -> Option<Seq<char>>;

/// `quick_xml::Reader::from_bytes`, followed by `trim_text(true)`. The
/// reader's reads are those of the bytes. They come to an end, and no read
/// before the last is the end of the document or an error: a read that is
/// neither consumes at least one byte, and after the end of the document
/// or an error the reader gives the end of the document for ever. In a
/// build with debug assertions the reader stops the program at a document
/// type declaration that names nothing; `requires` keeps such bytes out.
#[verifier::external_body]
fn open_reader<'a>(bytes: &'a [u8]) -> (reader: XmlReader<'a>)
    requires
        !nameless_doctype(bytes@),
    ensures
        pending(reader) == reads_of(bytes@),
        ends_once(pending(reader)),
{
    let mut inner = Reader::from_bytes(bytes);
    inner.trim_text(true);
    XmlReader { inner }
}

/// `quick_xml::Reader::read_event`, into a buffer of its own: the next
/// read, with the name of a tag and the bytes of a run of text copied out.
#[verifier::external_body]
fn read_event(reader: &mut XmlReader) -> (read: Result<RawEvent, quick_xml::Error>)
    requires
        pending(*old(reader)).len() > 0,
    ensures
        read_of(read) == pending(*old(reader))[0],
        pending(*final(reader)) == pending(*old(reader)).skip(1),
{
    let mut buffer = Vec::new();
    match reader.inner.read_event(&mut buffer)? {
        XmlEvent::Start(tag) => Ok(RawEvent::Start(tag.name().to_vec())),
        XmlEvent::End(tag) => Ok(RawEvent::End(tag.name().to_vec())),
        XmlEvent::Text(text) => Ok(RawEvent::Text(text.escaped().to_vec())),
        XmlEvent::Eof => Ok(RawEvent::Eof),
        _ => Ok(RawEvent::Other),
    }
}

/// `quick_xml::events::BytesText::unescape_and_decode`, on a run of text
/// as it was read: the text as UTF-8 with its entities replaced, or the
/// error where the bytes are not UTF-8 or hold an entity that the reader
/// does not know. Without the crate's `encoding` feature, which this
/// library leaves off, nothing of the reader goes into the result.
#[verifier::external_body]
fn unescape(reader: &XmlReader, raw: &[u8]) -> (text: Result<String, quick_xml::Error>)
    ensures
        match text {
            Ok(content) => unescaped(raw@) == Some(content@),
            Err(_) => unescaped(raw@) is None,
        },
{
    BytesText::from_escaped(raw).unescape_and_decode(&reader.inner)
}

/// The events that a document's bytes hold: the reader's reads with the
/// entities of text replaced, up to the first that ends the stream.
/// Bytes that hold what looks like a document type declaration that names
/// nothing are not given to the reader: they are malformed as a whole.
pub open spec fn parsed(bytes: Seq<u8>) -> Seq<Event> {
    if nameless_doctype(bytes) {
        seq![Event::Malformed]
    } else {
        until_end(events_in(reads_of(bytes)))
    }
}

impl EventStream {
    /// Reads a document's bytes as a stream of events.
    pub fn parse(bytes: &[u8]) -> (stream: EventStream)
        ensures
            stream.upcoming() == parsed(bytes@),
            is_stream(stream.upcoming()),
    {
        let mut events: Vec<MarkupEvent> = Vec::new();
        if has_nameless_doctype(bytes) {
            events.push(MarkupEvent::Malformed);
            assert(events_of(events@) =~= seq![Event::Malformed]);
            assert(events_of(events@).skip(0) == events_of(events@));
            return EventStream { events, pos: 0 };
        }
        let mut reader = open_reader(bytes);
        let ghost reads = reads_of(bytes@);
        let ghost all = events_in(reads);
        assert(reads.skip(0) == reads);
        loop
            invariant
                ends_once(reads),
                all == events_in(reads),
                events@.len() < reads.len(),
                pending(reader) == reads.skip(events@.len() as int),
                events_of(events@) == all.take(events@.len() as int),
                forall|i: int| 0 <= i < events@.len() ==> !(#[trigger] all[i]).is_terminal(),
                !nameless_doctype(bytes@),
                reads == reads_of(bytes@),
            decreases reads.len() - events@.len(),
        {
            let ghost n = events@.len() as int;
            assert(reads.skip(n)[0] == reads[n]);
            assert(all[n] == reads[n].event());
            let event = match read_event(&mut reader) {
                Ok(RawEvent::Start(name)) => MarkupEvent::StartElement(name),
                Ok(RawEvent::End(name)) => MarkupEvent::EndElement(name),
                Ok(RawEvent::Text(raw)) => match unescape(&reader, raw.as_slice()) {
                    Ok(content) => MarkupEvent::Text(content),
                    Err(_) => MarkupEvent::Malformed,
                },
                Ok(RawEvent::Other) => MarkupEvent::Other,
                Ok(RawEvent::Eof) => MarkupEvent::EndOfStream,
                Err(_) => MarkupEvent::Malformed,
            };
            assert(event@ == all[n]);
            let last = event.is_terminal();
            events.push(event);
            proof {
                assert(events_of(events@) =~= all.take(n + 1));
                assert(reads.skip(n).skip(1) == reads.skip(n + 1));
                if !last {
                    assert(!reads[n].is_last());
                }
            }
            if last {
                proof {
                    lemma_until_end_take(all, n);
                    lemma_until_end_is_stream(all);
                    assert(events_of(events@).skip(0) == events_of(events@));
                }
                return EventStream { events, pos: 0 };
            }
        }
    }
}

} // verus!
