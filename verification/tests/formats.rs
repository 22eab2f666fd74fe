use license_gen::error::ParseFormatError;
use license_gen::format::{Format, LinebreakStyle, DEFAULT_LINE_WIDTH};
use license_gen::text::parse_usize;

#[test]
fn line_endings() {
    assert_eq!(LinebreakStyle::Unix.as_str(), "\n");
    assert_eq!(LinebreakStyle::Windows.as_str(), "\r\n");
    assert_eq!(LinebreakStyle::Unix.as_bytes(), b"\n");
    assert_eq!(LinebreakStyle::Windows.as_bytes(), b"\r\n");
}

#[test]
fn defaults() {
    assert_eq!(LinebreakStyle::default(), LinebreakStyle::Unix);
    assert_eq!(DEFAULT_LINE_WIDTH, 80);
    assert_eq!(
        Format::default(),
        Format::Plain { line_width: 80, linebreak: LinebreakStyle::Unix }
    );
}

#[test]
fn line_break_styles_have_names() {
    assert_eq!(LinebreakStyle::Unix.to_string(), "unix");
    assert_eq!(LinebreakStyle::Windows.to_string(), "windows");
    assert_eq!(LinebreakStyle::from_str("unix"), Ok(LinebreakStyle::Unix));
    assert_eq!(LinebreakStyle::from_str("windows"), Ok(LinebreakStyle::Windows));
    assert_eq!(LinebreakStyle::from_str("Unix"), Err(ParseFormatError));
    assert_eq!(LinebreakStyle::from_str(""), Err(ParseFormatError));
    assert_eq!("windows".parse::<LinebreakStyle>(), Ok(LinebreakStyle::Windows));
    assert_eq!("mac".parse::<LinebreakStyle>(), Err(ParseFormatError));
}

#[test]
fn formats_are_shown() {
    assert_eq!(
        Format::Plain { line_width: 80, linebreak: LinebreakStyle::Unix }.to_string(),
        "plain,80,unix"
    );
    assert_eq!(
        Format::Plain { line_width: 0, linebreak: LinebreakStyle::Windows }.to_string(),
        "plain,0,windows"
    );
    assert_eq!(Format::Markdown { line_width: 1234567890 }.to_string(), "markdown,1234567890");
    assert_eq!(
        Format::Markdown { line_width: usize::MAX }.to_string(),
        format!("markdown,{}", usize::MAX)
    );
    assert_eq!(Format::Html.to_string(), "html");
}

#[test]
fn formats_are_read() {
    assert_eq!(Format::from_str("plain"), Ok(Format::default()));
    assert_eq!(
        Format::from_str("plain,72"),
        Ok(Format::Plain { line_width: 72, linebreak: LinebreakStyle::Unix })
    );
    assert_eq!(
        Format::from_str("plain,100,windows"),
        Ok(Format::Plain { line_width: 100, linebreak: LinebreakStyle::Windows })
    );
    assert_eq!(
        Format::from_str("plain,+7,unix,and,more"),
        Ok(Format::Plain { line_width: 7, linebreak: LinebreakStyle::Unix })
    );
    assert_eq!(Format::from_str("markdown"), Ok(Format::Markdown { line_width: 80 }));
    assert_eq!(Format::from_str("md,60"), Ok(Format::Markdown { line_width: 60 }));
    assert_eq!(Format::from_str("md,60,whatever"), Ok(Format::Markdown { line_width: 60 }));
    assert_eq!(Format::from_str("html"), Ok(Format::Html));
    assert_eq!(Format::from_str("html,anything"), Ok(Format::Html));
    assert_eq!("md,60".parse::<Format>(), Ok(Format::Markdown { line_width: 60 }));
}

#[test]
fn formats_that_are_not_read() {
    for text in [
        "",
        "text",
        "Plain",
        "plain,",
        "plain,wide",
        "plain,80,",
        "plain,80,mac",
        "plain,-1",
        "plain, 80",
        "plain,99999999999999999999999999",
        "markdown,",
        "md,x",
        ",80",
    ] {
        assert_eq!(Format::from_str(text), Err(ParseFormatError), "{:?}", text);
    }
}

#[test]
fn formats_are_read_as_they_are_shown() {
    for format in [
        Format::Plain { line_width: 80, linebreak: LinebreakStyle::Unix },
        Format::Plain { line_width: 1, linebreak: LinebreakStyle::Windows },
        Format::Markdown { line_width: 0 },
        Format::Markdown { line_width: usize::MAX },
        Format::Html,
    ] {
        assert_eq!(Format::from_str(&format.to_string()), Ok(format));
    }
}

#[test]
fn numbers_are_read_as_std_reads_them() {
    for text in [
        "0",
        "7",
        "007",
        "+5",
        "80",
        "18446744073709551615",
        "18446744073709551616",
        "99999999999999999999",
        "",
        "+",
        "-",
        "-0",
        "++1",
        "1+",
        " 1",
        "1 ",
        "1_000",
        "0x10",
        "１２",
    ] {
        assert_eq!(parse_usize(text.as_bytes()), text.parse::<usize>().ok(), "{:?}", text);
    }
}

#[test]
fn format_error_says_what_it_is() {
    assert_eq!(ParseFormatError.to_string(), "unrecognized license format");
}
