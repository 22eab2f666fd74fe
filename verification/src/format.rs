//! Output encodings and line-break styles.

use crate::config::Config;
use crate::error::{ParseFormatError, RenderError};
use crate::markup::{Event, EventStream, MarkupEvent, TEXT};
use crate::plain;
use crate::plain::{body, document, lemma_body_rest, Rendered};
use crate::text::{
    bytes_of, decimal, fields, lemma_fields_len, number_of, parse_usize, push_char, push_decimal,
    same_bytes, split_bytes,
};
use vstd::prelude::*;
use vstd::string::StringSliceAdditionalSpecFns;

verus! {

/// The line width that an output format has where none is given.
pub const DEFAULT_LINE_WIDTH: usize = 80;

/// An output encoding, with what it needs to lay a document out.
#[derive(Debug, Clone, Copy, PartialEq, Eq, Structural)]
pub enum Format {
    /// Plain text, wrapped.
    Plain {
        /// The most characters that a line holds.
        line_width: usize,
        /// How lines end.
        linebreak: LinebreakStyle,
    },
    /// Markdown. It has no rendering yet.
    Markdown {
        /// The most characters that a line holds.
        line_width: usize,
    },
    /// HTML. It has no rendering yet.
    Html,
}

/// The line width that the field after a format's name gives: the number
/// that it writes; the default where there is no such field.
pub open spec fn line_width_of(parts: Seq<Seq<u8>>) -> Option<usize> {
    if parts.len() > 1 {
        number_of(parts[1])
    } else {
        Some(DEFAULT_LINE_WIDTH)
    }
}

/// The line-break style that the second field after the name of the plain
/// format gives: the style that it names; Unix where there is no such
/// field.
pub open spec fn linebreak_of(parts: Seq<Seq<u8>>) -> Option<LinebreakStyle> {
    if parts.len() > 2 {
        linebreak_named(parts[2])
    } else {
        Some(LinebreakStyle::Unix)
    }
}

/// The format that a text names: `plain`, `markdown` or `md`, or `html`,
/// and after it, between commas, a line width and, for plain, a
/// line-break style. Fields after these say nothing.
pub open spec fn format_named(s: Seq<u8>) -> Option<Format> {
    let parts = fields(s, 0x2Cu8);
    let name = parts[0];
    if name == "plain".spec_bytes() {
        match (line_width_of(parts), linebreak_of(parts)) {
            (Some(line_width), Some(linebreak)) => Some(Format::Plain { line_width, linebreak }),
            _ => None,
        }
    } else if name == "markdown".spec_bytes() || name == "md".spec_bytes() {
        match line_width_of(parts) {
            Some(line_width) => Some(Format::Markdown { line_width }),
            None => None,
        }
    } else if name == "html".spec_bytes() {
        Some(Format::Html)
    } else {
        None
    }
}

/// The line-break style that a text names: `unix` or `windows`.
pub open spec fn linebreak_named(s: Seq<u8>) -> Option<LinebreakStyle> {
    if s == "unix".spec_bytes() {
        Some(LinebreakStyle::Unix)
    } else if s == "windows".spec_bytes() {
        Some(LinebreakStyle::Windows)
    } else {
        None
    }
}

impl Format {
    /// This format as text: its name and, between commas, what it is
    /// laid out with.
    pub open spec fn shown(self) -> Seq<char> {
        match self {
            Format::Plain { line_width, linebreak } => "plain,"@ + decimal(line_width as nat)
                + seq![','] + linebreak.shown(),
            Format::Markdown { line_width } => "markdown,"@ + decimal(line_width as nat),
            Format::Html => "html"@,
        }
    }

    /// This format as text.
    pub fn to_string(&self) -> (s: String)
        ensures
            s@ == self.shown(),
    {
        match *self {
            Format::Plain { line_width, linebreak } => {
                let mut s = String::from_str("plain,");
                push_decimal(&mut s, line_width);
                push_char(&mut s, ',');
                let name = linebreak.to_string();
                s.append(name.as_str());
                assert(s@ =~= self.shown());
                s
            },
            Format::Markdown { line_width } => {
                let mut s = String::from_str("markdown,");
                push_decimal(&mut s, line_width);
                s
            },
            Format::Html => String::from_str("html"),
        }
    }

    /// Reads a format from its name and what follows it.
    pub fn from_str(s: &str) -> (format: Result<Format, ParseFormatError>)
        ensures
            format == match format_named(s.spec_bytes()) {
                Some(f) => Ok::<Format, ParseFormatError>(f),
                None => Err(ParseFormatError),
            },
    {
        let parts = split_bytes(s.as_bytes(), 0x2C);
        proof {
            lemma_fields_len(s.spec_bytes(), 0x2Cu8);
        }
        let ghost all = bytes_of(parts@);
        assert(all[0] == parts@[0]@);
        let name = parts[0].as_slice();
        let plain = same_bytes(name, "plain".as_bytes());
        let markdown = same_bytes(name, "markdown".as_bytes()) || same_bytes(name, "md".as_bytes());
        let html = same_bytes(name, "html".as_bytes());
        if !plain && !markdown {
            return if html {
                Ok(Format::Html)
            } else {
                Err(ParseFormatError)
            };
        }
        let line_width = if parts.len() > 1 {
            assert(all[1] == parts@[1]@);
            match parse_usize(parts[1].as_slice()) {
                Some(n) => n,
                None => {
                    return Err(ParseFormatError);
                },
            }
        } else {
            DEFAULT_LINE_WIDTH
        };
        if !plain {
            return Ok(Format::Markdown { line_width });
        }
        let linebreak = if parts.len() > 2 {
            assert(all[2] == parts@[2]@);
            match LinebreakStyle::from_bytes(parts[2].as_slice()) {
                Ok(style) => style,
                Err(error) => {
                    return Err(error);
                },
            }
        } else {
            LinebreakStyle::Unix
        };
        Ok(Format::Plain { line_width, linebreak })
    }

    /// What rendering in this format makes of a document: plain text is
    /// laid out as `document` says; the other formats have no rendering,
    /// write nothing and end with an error.
    pub open spec fn rendered(self, s: Seq<Event>, emit: bool) -> Rendered {
        match self {
            Format::Plain { line_width, linebreak } => document(
                s,
                line_width,
                linebreak.chars(),
                emit,
            ),
            _ => Rendered {
                text: Seq::empty(),
                rest: s,
                result: Err(RenderError::UnimplementedEncoding),
            },
        }
    }

    /// Renders the document `xml` to `out`, in this format.
    pub fn write(&self, xml: EventStream, out: &mut String, config: &Config) -> (result: Result<
        (),
        RenderError,
    >)
        ensures
            final(out)@ == old(out)@ + self.rendered(xml.upcoming(), config.emits_copyright()).text,
            result == self.rendered(xml.upcoming(), config.emits_copyright()).result,
    {
        assert(out@ + Seq::<char>::empty() == out@);
        let (line_width, linebreak) = match *self {
            Format::Plain { line_width, linebreak } => (line_width, linebreak),
            Format::Markdown { .. } => {
                return Err(RenderError::UnimplementedEncoding);
            },
            Format::Html => {
                return Err(RenderError::UnimplementedEncoding);
            },
        };
        let ghost emit = config.emits_copyright();
        let ghost whole = document(xml.upcoming(), line_width, linebreak.chars(), emit);
        let ghost mut written: Seq<char> = Seq::empty();
        let mut stream = xml;
        assert(written + whole.text == whole.text);
        loop
            invariant
                *self == (Format::Plain { line_width, linebreak }),
                emit == config.emits_copyright(),
                whole == document(xml.upcoming(), line_width, linebreak.chars(), emit),
                out@ == old(out)@ + written,
                whole.text == written + document(
                    stream.upcoming(),
                    line_width,
                    linebreak.chars(),
                    emit,
                ).text,
                whole.result == document(
                    stream.upcoming(),
                    line_width,
                    linebreak.chars(),
                    emit,
                ).result,
            decreases stream.upcoming().len(),
        {
            let ghost now = stream.upcoming();
            let event = stream.peek();
            assert(written + Seq::<char>::empty() == written);
            match event {
                MarkupEvent::EndOfStream => {
                    return Ok(());
                },
                MarkupEvent::Malformed => {
                    return Err(RenderError::MarkupSyntax);
                },
                _ => {},
            }
            let found = event.starts(TEXT);
            stream.advance();
            if found {
                let step = plain::write(&mut stream, out, config, linebreak, line_width);
                proof {
                    let inside = body(now.skip(1), line_width, linebreak.chars(), emit);
                    lemma_body_rest(now.skip(1), line_width, linebreak.chars(), emit);
                    assert(out@ =~= old(out)@ + (written + inside.text));
                    if inside.result is Ok {
                        let more = document(inside.rest, line_width, linebreak.chars(), emit);
                        assert(written + (inside.text + more.text) =~= (written + inside.text)
                            + more.text);
                    }
                    written = written + inside.text;
                }
                if let Err(error) = step {
                    return Err(error);
                }
            }
        }
    }
}

/// How a line ends.
#[derive(Debug, Clone, Copy, PartialEq, Eq, Structural)]
pub enum LinebreakStyle {
    /// A line feed.
    Unix,
    /// A carriage return and a line feed.
    Windows,
}

impl Default for Format {
    /// Plain text, 80 characters wide, with Unix line endings.
    fn default() -> (format: Format)
        ensures
            format == (Format::Plain {
                line_width: DEFAULT_LINE_WIDTH,
                linebreak: LinebreakStyle::Unix,
            }),
    {
        Format::Plain { line_width: DEFAULT_LINE_WIDTH, linebreak: LinebreakStyle::default() }
    }
}

impl std::str::FromStr for Format {
    type Err = ParseFormatError;

    fn from_str(s: &str) -> (format: Result<Format, ParseFormatError>)
        ensures
            format == match format_named(s.spec_bytes()) {
                Some(f) => Ok::<Format, ParseFormatError>(f),
                None => Err(ParseFormatError),
            },
    {
        Format::from_str(s)
    }
}

impl Default for LinebreakStyle {
    /// The Unix style.
    fn default() -> (style: LinebreakStyle)
        ensures
            style == LinebreakStyle::Unix,
    {
        LinebreakStyle::Unix
    }
}

impl std::str::FromStr for LinebreakStyle {
    type Err = ParseFormatError;

    fn from_str(s: &str) -> (style: Result<LinebreakStyle, ParseFormatError>)
        ensures
            style == match linebreak_named(s.spec_bytes()) {
                Some(named) => Ok::<LinebreakStyle, ParseFormatError>(named),
                None => Err(ParseFormatError),
            },
    {
        LinebreakStyle::from_str(s)
    }
}

impl LinebreakStyle {
    /// The bytes that end a line.
    pub open spec fn bytes(self) -> Seq<u8> {
        match self {
            LinebreakStyle::Unix => seq![0x0Au8],
            LinebreakStyle::Windows => seq![0x0Du8, 0x0Au8],
        }
    }

    /// The line ending in bytes.
    pub fn as_bytes(&self) -> (b: &'static [u8])
        ensures
            b@ == self.bytes(),
    {
        let s = self.as_str();
        proof {
            vstd::string::is_ascii_spec_bytes(s);
            assert(s.spec_bytes() =~= self.bytes());
        }
        s.as_bytes()
    }

    /// The name of this style.
    pub open spec fn shown(self) -> Seq<char> {
        match self {
            LinebreakStyle::Unix => "unix"@,
            LinebreakStyle::Windows => "windows"@,
        }
    }

    /// The name of this style.
    pub fn to_string(&self) -> (s: String)
        ensures
            s@ == self.shown(),
    {
        match self {
            LinebreakStyle::Unix => String::from_str("unix"),
            LinebreakStyle::Windows => String::from_str("windows"),
        }
    }

    /// Reads a style from its name, in bytes.
    pub fn from_bytes(s: &[u8]) -> (style: Result<LinebreakStyle, ParseFormatError>)
        ensures
            style == match linebreak_named(s@) {
                Some(named) => Ok::<LinebreakStyle, ParseFormatError>(named),
                None => Err(ParseFormatError),
            },
    {
        if same_bytes(s, "unix".as_bytes()) {
            Ok(LinebreakStyle::Unix)
        } else if same_bytes(s, "windows".as_bytes()) {
            Ok(LinebreakStyle::Windows)
        } else {
            Err(ParseFormatError)
        }
    }

    /// Reads a style from its name.
    pub fn from_str(s: &str) -> (style: Result<LinebreakStyle, ParseFormatError>)
        ensures
            style == match linebreak_named(s.spec_bytes()) {
                Some(named) => Ok::<LinebreakStyle, ParseFormatError>(named),
                None => Err(ParseFormatError),
            },
    {
        LinebreakStyle::from_bytes(s.as_bytes())
    }

    /// The characters that end a line.
    pub open spec fn chars(self) -> Seq<char> {
        match self {
            LinebreakStyle::Unix => seq!['\n'],
            LinebreakStyle::Windows => seq!['\r', '\n'],
        }
    }

    /// The line ending as text.
    pub fn as_str(&self) -> (s: &'static str)
        ensures
            s@ == self.chars(),
    {
        proof {
            reveal_strlit("\n");
            reveal_strlit("\r\n");
        }
        match self {
            LinebreakStyle::Unix => {
                let s = "\n";
                assert(s@ =~= seq!['\n']);
                s
            },
            LinebreakStyle::Windows => {
                let s = "\r\n";
                assert(s@ =~= seq!['\r', '\n']);
                s
            },
        }
    }
}

} // verus!
