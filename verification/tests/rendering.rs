use license_gen::config::Config;
use license_gen::error::RenderError;
use license_gen::format::{Format, LinebreakStyle};
use license_gen::markup::{EventStream, MarkupEvent};
use license_gen::paths::Paths;
use license_gen::plain::{
    skip_copyright_text, write_copyright_text, write_p, write_title_text,
};
use license_gen::render::render;

fn config(format: Format, no_copyright: bool) -> Config {
    Config {
        year: 2022,
        copyright: String::from("Jane Doe"),
        no_copyright,
        ascii: false,
        format,
        out: Paths::default(),
        license: String::from("MIT"),
    }
}

fn plain(line_width: usize, linebreak: LinebreakStyle) -> Format {
    Format::Plain { line_width, linebreak }
}

fn start(name: &str) -> MarkupEvent {
    MarkupEvent::StartElement(name.as_bytes().to_vec())
}

fn end(name: &str) -> MarkupEvent {
    MarkupEvent::EndElement(name.as_bytes().to_vec())
}

fn text(content: &str) -> MarkupEvent {
    MarkupEvent::Text(String::from(content))
}

fn rendered(document: &str, config: &Config) -> (Result<(), RenderError>, String) {
    let mut out = String::new();
    let result = render(document.as_bytes(), &mut out, config);
    (result, out)
}

const LICENSE: &str = r#"<?xml version="1.0" encoding="UTF-8"?>
<SPDXLicenseCollection xmlns="http://www.spdx.org/license">
   <license isOsiApproved="true" licenseId="Sample" name="Sample License">
      <crossRefs>
         <crossRef>https://example.org/sample</crossRef>
      </crossRefs>
      <text>
         <titleText>
            <p>Sample License</p>
         </titleText>
         <copyrightText>
            <p>Copyright (c) &lt;year&gt; &lt;copyright holders&gt;</p>
         </copyrightText>
         <p>Permission is hereby granted, free of charge, to any person obtaining a copy
            of this software.</p>
         <p>The software is provided <alt match=".*" name="quote">"as is"</alt>, without
            warranty.</p>
      </text>
   </license>
</SPDXLicenseCollection>
"#;

#[test]
fn paragraph_of_the_quick_brown_fox() {
    let mut xml = EventStream::new(vec![
        text("The quick brown fox jumps over the lazy dog"),
        end("p"),
    ]);
    let mut out = String::new();
    let result = write_p(
        &mut xml,
        &mut out,
        &config(Format::default(), false),
        LinebreakStyle::Unix,
        10,
    );
    assert_eq!(result, Ok(()));
    assert_eq!(out, "The quick\nbrown fox\njumps over\nthe lazy\ndog\n\n");
    assert_eq!(xml.peek(), &MarkupEvent::EndOfStream);
}

#[test]
fn paragraph_with_one_long_word() {
    let mut xml = EventStream::new(vec![text("abcdefghijklmno"), end("p")]);
    let mut out = String::new();
    let result = write_p(
        &mut xml,
        &mut out,
        &config(Format::default(), false),
        LinebreakStyle::Unix,
        10,
    );
    assert_eq!(result, Ok(()));
    assert_eq!(out, "abcdefghijklmno\n\n");
}

#[test]
fn paragraph_with_windows_line_endings() {
    let mut xml = EventStream::new(vec![
        text("The quick brown fox jumps over the lazy dog"),
        end("p"),
    ]);
    let mut out = String::new();
    let result = write_p(
        &mut xml,
        &mut out,
        &config(Format::default(), false),
        LinebreakStyle::Windows,
        10,
    );
    assert_eq!(result, Ok(()));
    assert_eq!(
        out,
        "The quick\r\nbrown fox\r\njumps over\r\nthe lazy\r\ndog\r\n\r\n"
    );
    assert_eq!(out.matches("\r\n\r\n").count(), 1);
    assert!(out.ends_with("\r\n\r\n"));
}

#[test]
fn paragraph_ends_with_its_one_blank_line() {
    let mut xml = EventStream::new(vec![
        text("a b c d e f g h i j k l m n o p q r s t u v w x y z"),
        end("p"),
    ]);
    let mut out = String::new();
    write_p(
        &mut xml,
        &mut out,
        &config(Format::default(), false),
        LinebreakStyle::Unix,
        4,
    )
    .unwrap();
    assert_eq!(out.matches("\n\n").count(), 1);
    assert_eq!(out.find("\n\n"), Some(out.len() - 2));
}

#[test]
fn paragraph_takes_the_words_of_all_its_text() {
    let mut xml = EventStream::new(vec![
        text("one two"),
        start("alt"),
        text("three"),
        end("alt"),
        MarkupEvent::Other,
        text("four five"),
        end("p"),
        text("not read"),
    ]);
    let mut out = String::from("before:");
    let result = write_p(
        &mut xml,
        &mut out,
        &config(Format::default(), false),
        LinebreakStyle::Unix,
        13,
    );
    assert_eq!(result, Ok(()));
    assert_eq!(out, "before:one two three\nfour five\n\n");
    assert_eq!(xml.peek(), &text("not read"));
}

#[test]
fn paragraph_without_words_is_a_blank_line() {
    let mut xml = EventStream::new(vec![end("p")]);
    let mut out = String::new();
    let result = write_p(
        &mut xml,
        &mut out,
        &config(Format::default(), false),
        LinebreakStyle::Unix,
        80,
    );
    assert_eq!(result, Ok(()));
    assert_eq!(out, "\n\n");
}

#[test]
fn paragraph_without_end_is_unterminated() {
    let mut xml = EventStream::new(vec![text("some words")]);
    let mut out = String::new();
    let result = write_p(
        &mut xml,
        &mut out,
        &config(Format::default(), false),
        LinebreakStyle::Unix,
        80,
    );
    assert_eq!(result, Err(RenderError::UnterminatedElement));
    assert_eq!(out, "some words");
    assert_eq!(xml.peek(), &MarkupEvent::EndOfStream);
}

#[test]
fn paragraph_in_malformed_markup_fails() {
    let mut xml = EventStream::new(vec![
        text("some"),
        MarkupEvent::Malformed,
        text("words"),
        end("p"),
    ]);
    let mut out = String::new();
    let result = write_p(
        &mut xml,
        &mut out,
        &config(Format::default(), false),
        LinebreakStyle::Unix,
        80,
    );
    assert_eq!(result, Err(RenderError::MarkupSyntax));
    assert_eq!(out, "some");
    assert_eq!(xml.peek(), &MarkupEvent::Malformed);
}

#[test]
fn title_is_copied_as_it_stands() {
    let mut xml = EventStream::new(vec![
        start("p"),
        text("A  very long   title that is not wrapped at all"),
        end("p"),
        end("titleText"),
        start("p"),
    ]);
    let mut out = String::new();
    let result = write_title_text(
        &mut xml,
        &mut out,
        &config(plain(10, LinebreakStyle::Unix), false),
        LinebreakStyle::Unix,
    );
    assert_eq!(result, Ok(()));
    assert_eq!(out, "A  very long   title that is not wrapped at all\n\n");
    assert_eq!(xml.peek(), &start("p"));
}

#[test]
fn title_without_end_is_unterminated() {
    let mut xml = EventStream::new(vec![text("Title"), end("p")]);
    let mut out = String::new();
    let result = write_title_text(
        &mut xml,
        &mut out,
        &config(Format::default(), false),
        LinebreakStyle::Windows,
    );
    assert_eq!(result, Err(RenderError::UnterminatedElement));
    assert_eq!(out, "Title\r\n\r\n");
}

#[test]
fn copyright_is_copied_without_year_or_holder() {
    let mut xml = EventStream::new(vec![
        start("p"),
        text("Copyright (c) <year> <copyright holders>"),
        end("p"),
        end("copyrightText"),
    ]);
    let mut out = String::new();
    let result = write_copyright_text(
        &mut xml,
        &mut out,
        &config(Format::default(), false),
        LinebreakStyle::Unix,
    );
    assert_eq!(result, Ok(()));
    assert_eq!(out, "Copyright (c) <year> <copyright holders>\n\n");
    assert_eq!(xml.peek(), &MarkupEvent::EndOfStream);
}

#[test]
fn copyright_is_passed_over() {
    let mut xml = EventStream::new(vec![
        start("p"),
        text("Copyright (c) <year> <copyright holders>"),
        end("p"),
        end("copyrightText"),
        start("p"),
    ]);
    assert_eq!(skip_copyright_text(&mut xml), Ok(()));
    assert_eq!(xml.peek(), &start("p"));
    let mut cut = EventStream::new(vec![start("p"), text("Copyright")]);
    assert_eq!(
        skip_copyright_text(&mut cut),
        Err(RenderError::UnterminatedElement)
    );
    let mut broken = EventStream::new(vec![start("p"), MarkupEvent::Malformed]);
    assert_eq!(skip_copyright_text(&mut broken), Err(RenderError::MarkupSyntax));
}

#[test]
fn body_is_written_part_after_part() {
    let mut xml = EventStream::new(vec![
        text("passed over"),
        start("titleText"),
        text("Title"),
        end("titleText"),
        start("copyrightText"),
        text("Copyright"),
        end("copyrightText"),
        start("optional"),
        start("p"),
        text("one two three"),
        end("p"),
        end("optional"),
        end("text"),
        start("p"),
    ]);
    let mut out = String::new();
    let result = license_gen::plain::write(
        &mut xml,
        &mut out,
        &config(Format::default(), false),
        LinebreakStyle::Unix,
        7,
    );
    assert_eq!(result, Ok(()));
    assert_eq!(out, "TitleCopyrightone two\nthree\n\n");
    assert_eq!(xml.peek(), &start("p"));
}

#[test]
fn body_without_end_is_unterminated() {
    let mut xml = EventStream::new(vec![start("p"), text("one"), end("p")]);
    let mut out = String::new();
    let result = license_gen::plain::write(
        &mut xml,
        &mut out,
        &config(Format::default(), false),
        LinebreakStyle::Unix,
        7,
    );
    assert_eq!(result, Err(RenderError::UnterminatedElement));
    assert_eq!(out, "one\n\n");
}

#[test]
fn document_is_rendered_from_its_bytes() {
    let (result, out) = rendered(LICENSE, &config(plain(40, LinebreakStyle::Unix), false));
    assert_eq!(result, Ok(()));
    assert_eq!(
        out,
        "Sample License\n\n\
         Copyright (c) <year> <copyright holders>\n\n\
         Permission is hereby granted, free of\n\
         charge, to any person obtaining a copy\n\
         of this software.\n\n\
         The software is provided \"as is\" ,\n\
         without warranty.\n\n"
    );
}

#[test]
fn document_without_its_copyright_notice() {
    let with = rendered(LICENSE, &config(plain(40, LinebreakStyle::Unix), false)).1;
    let (result, without) = rendered(LICENSE, &config(plain(40, LinebreakStyle::Unix), true));
    assert_eq!(result, Ok(()));
    let notice = "Copyright (c) <year> <copyright holders>\n\n";
    let at = with.find(notice).unwrap();
    let mut expected = with.clone();
    expected.replace_range(at..at + notice.len(), "");
    assert_eq!(without, expected);
    assert!(!without.contains("Copyright"));
}

#[test]
fn rendering_twice_gives_the_same() {
    let settings = config(plain(31, LinebreakStyle::Windows), false);
    let first = rendered(LICENSE, &settings);
    let second = rendered(LICENSE, &settings);
    assert_eq!(first, second);
    assert_eq!(first.0, Ok(()));
}

#[test]
fn html_is_not_implemented() {
    let (result, out) = rendered(LICENSE, &config(Format::Html, false));
    assert_eq!(result, Err(RenderError::UnimplementedEncoding));
    assert_eq!(out, "");
}

#[test]
fn markdown_is_not_implemented() {
    let mut out = String::from("kept");
    let result = Format::Markdown { line_width: 80 }.write(
        EventStream::new(vec![start("text"), start("p"), text("a"), end("p"), end("text")]),
        &mut out,
        &config(Format::Markdown { line_width: 80 }, false),
    );
    assert_eq!(result, Err(RenderError::UnimplementedEncoding));
    assert_eq!(out, "kept");
}

#[test]
fn missing_paragraph_end_is_an_error() {
    let (result, out) = rendered(
        "<text><p>Permission is hereby granted",
        &config(plain(80, LinebreakStyle::Unix), false),
    );
    assert_eq!(result, Err(RenderError::UnterminatedElement));
    assert_eq!(out, "Permission is hereby granted");
}

#[test]
fn mismatched_end_is_malformed() {
    let (result, out) = rendered(
        "<text><p>Permission</text>",
        &config(plain(80, LinebreakStyle::Unix), false),
    );
    assert_eq!(result, Err(RenderError::MarkupSyntax));
    assert_eq!(out, "Permission");
}

#[test]
fn text_outside_the_text_element_is_not_rendered() {
    let (result, out) = rendered(
        "<license><notes><p>not this</p></notes><text><p>but this</p></text><p>nor this</p></license>",
        &config(plain(80, LinebreakStyle::Unix), false),
    );
    assert_eq!(result, Ok(()));
    assert_eq!(out, "but this\n\n");
}

#[test]
fn every_text_element_is_rendered() {
    let mut out = String::new();
    let result = plain(80, LinebreakStyle::Unix).write(
        EventStream::new(vec![
            start("text"),
            start("p"),
            text("one"),
            end("p"),
            end("text"),
            text("between"),
            start("text"),
            start("p"),
            text("two"),
            end("p"),
            end("text"),
        ]),
        &mut out,
        &config(Format::default(), false),
    );
    assert_eq!(result, Ok(()));
    assert_eq!(out, "one\n\ntwo\n\n");
}

#[test]
fn document_without_text_element_is_empty() {
    let (result, out) = rendered("<license/>", &config(Format::default(), false));
    assert_eq!(result, Ok(()));
    assert_eq!(out, "");
}

#[test]
fn errors_say_what_they_are() {
    assert_eq!(RenderError::MarkupSyntax.to_string(), "malformed markup");
    assert_eq!(
        RenderError::UnimplementedEncoding.to_string(),
        "output encoding is not implemented"
    );
    assert_eq!(
        RenderError::UnterminatedElement.to_string(),
        "markup ends inside an unfinished element"
    );
}

#[test]
fn copyright_is_emitted_unless_left_out() {
    assert!(config(Format::default(), false).emit_copyright());
    assert!(!config(Format::default(), true).emit_copyright());
}
