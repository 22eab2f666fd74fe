use license_gen::config::{default_copyright, DEFAULT_COPYRIGHT};
use license_gen::license::{
    decode_content, derived_name, license_names, list_tag, named_licenses, plan_outputs,
    release_tag, source_path, unique_name, LicenseError, OutputPlan,
};

#[test]
fn license_names_of_an_expression() {
    assert_eq!(license_names("MIT"), Ok(vec![String::from("MIT")]));
    assert_eq!(
        license_names("MIT OR Apache-2.0"),
        Ok(vec![String::from("MIT"), String::from("Apache-2.0")])
    );
    assert_eq!(
        license_names("(MIT AND BSD-3-Clause) OR Apache-2.0 WITH LLVM-exception"),
        Ok(vec![
            String::from("MIT"),
            String::from("BSD-3-Clause"),
            String::from("Apache-2.0")
        ])
    );
}

#[test]
fn license_names_are_read_leniently() {
    assert_eq!(
        license_names("mit/Apache-2.0"),
        Ok(vec![String::from("MIT"), String::from("Apache-2.0")])
    );
    assert_eq!(license_names("GPL-3.0-or-later"), Ok(vec![String::from("GPL-3.0")]));
}

#[test]
fn license_names_leave_out_references() {
    assert_eq!(
        license_names("LicenseRef-mine OR MIT"),
        Ok(vec![String::from("MIT")])
    );
    assert_eq!(license_names("LicenseRef-mine"), Ok(vec![]));
}

#[test]
fn license_names_of_what_is_no_expression() {
    assert_eq!(license_names(""), Err(LicenseError::Expression));
    assert_eq!(license_names("MIT OR"), Err(LicenseError::Expression));
    assert_eq!(license_names("no such license"), Err(LicenseError::Expression));
    assert_eq!(license_names("(MIT"), Err(LicenseError::Expression));
}

#[test]
fn named_licenses_are_those_with_a_name() {
    assert_eq!(
        named_licenses(&[
            None,
            Some(String::from("MIT")),
            None,
            Some(String::from("Apache-2.0")),
            Some(String::from("MIT")),
        ]),
        vec![String::from("MIT"), String::from("Apache-2.0"), String::from("MIT")]
    );
    assert_eq!(named_licenses(&[]), Vec::<String>::new());
    assert_eq!(named_licenses(&[None, None]), Vec::<String>::new());
}

#[test]
fn outputs_are_planned() {
    assert_eq!(plan_outputs(1, 1), Ok(OutputPlan::AsGiven));
    assert_eq!(plan_outputs(3, 3), Ok(OutputPlan::AsGiven));
    assert_eq!(plan_outputs(0, 0), Ok(OutputPlan::AsGiven));
    assert_eq!(plan_outputs(1, 2), Ok(OutputPlan::FromBase));
    assert_eq!(plan_outputs(1, 0), Ok(OutputPlan::FromBase));
    assert_eq!(plan_outputs(2, 3), Err(LicenseError::OutPaths));
    assert_eq!(plan_outputs(0, 1), Err(LicenseError::OutPaths));
    assert_eq!(plan_outputs(2, 1), Err(LicenseError::OutPaths));
}

#[test]
fn unique_names() {
    assert_eq!(unique_name("Apache-2.0"), "APACHE");
    assert_eq!(unique_name("MIT"), "MIT");
    assert_eq!(unique_name("BSD-3-Clause"), "BSD");
    assert_eq!(unique_name("mpl-2.0"), "MPL");
    assert_eq!(unique_name("-x"), "");
    assert_eq!(unique_name(""), "");
    assert_eq!(unique_name("straße-1"), "STRASSE");
}

#[test]
fn derived_names() {
    assert_eq!(derived_name(b"LICENSE", "MIT"), b"LICENSE-MIT".to_vec());
    assert_eq!(derived_name(b"", ""), b"-".to_vec());
    assert_eq!(derived_name(&[0xff], "é"), vec![0xff, b'-', 0xc3, 0xa9]);
}

#[test]
fn tags_and_paths() {
    assert_eq!(release_tag("3.18"), "v3.18");
    assert_eq!(release_tag(""), "v");
    assert_eq!(list_tag(), format!("v{}", spdx::license_version()));
    assert_eq!(source_path("MIT"), "src/MIT.xml");
    assert_eq!(source_path("Apache-2.0"), "src/Apache-2.0.xml");
}

#[test]
fn contents_are_decoded_line_by_line() {
    assert_eq!(decode_content("aGVsbG8g\nd29ybGQ=\n"), Ok(b"hello world".to_vec()));
    assert_eq!(decode_content("aGVsbG8g\r\nd29ybGQ=\r\n"), Ok(b"hello world".to_vec()));
    assert_eq!(decode_content("aGVsbG8g\n\nd29ybGQ="), Ok(b"hello world".to_vec()));
    assert_eq!(decode_content("aGVsbG8gd29ybGQ="), Ok(b"hello world".to_vec()));
    assert_eq!(decode_content(""), Ok(vec![]));
    assert_eq!(decode_content("\n"), Ok(vec![]));
}

#[test]
fn contents_that_are_not_base64() {
    assert_eq!(decode_content("aGVsbG8g\n*\n"), Err(LicenseError::Contents));
    assert_eq!(decode_content("aGVsb"), Err(LicenseError::Contents));
    assert_eq!(decode_content("aGVsbG8g="), Err(LicenseError::Contents));
    assert_eq!(decode_content("aGVsbG8g\r"), Err(LicenseError::Contents));
    assert_eq!(decode_content("aGVs bG8g"), Err(LicenseError::Contents));
}

#[test]
fn contents_are_decoded_as_base64_decodes_their_lines() {
    let content = "PHRleHQ+PHA+SGVsbG8sIHdvcmxkPC9wPjwvdGV4dD4K\nPCEtLSBlbmQgLS0+";
    let mut expected = Vec::new();
    for line in content.lines() {
        base64::decode_config_buf(line, base64::STANDARD, &mut expected).unwrap();
    }
    assert_eq!(decode_content(content), Ok(expected));
}

#[test]
fn license_errors_say_what_they_are() {
    assert_eq!(
        LicenseError::OutPaths.to_string(),
        "when generating multiple licenses, the number of OUT-paths must be either 1 or match the number of licenses"
    );
    assert_eq!(
        LicenseError::Contents.to_string(),
        "the contents of the license data are not base64"
    );
    assert_eq!(
        LicenseError::Expression.to_string(),
        "the license expression cannot be read"
    );
}

#[test]
fn copyright_holder_by_default() {
    assert_eq!(default_copyright(Some(String::from("Jane Doe"))), "Jane Doe");
    assert_eq!(default_copyright(None), "[copyright holder(s)]");
    assert_eq!(DEFAULT_COPYRIGHT, "[copyright holder(s)]");
}

fn generator(seed: u64) -> impl FnMut() -> u64 {
    let mut state = seed;
    move || {
        state ^= state << 13;
        state ^= state >> 7;
        state ^= state << 17;
        state
    }
}

#[test]
fn any_contents_are_decoded_as_their_lines_are() {
    let pieces: [&str; 12] = [
        "aGVsbG8g", "d29ybGQ=", "QQ==", "QUI=", "A", "=", "\n", "\r\n", "\r", "*", " ", "é",
    ];
    let mut next = generator(0x9e37_79b9_7f4a_7c15);
    for _ in 0..20_000 {
        let count = (next() % 7) as usize;
        let mut content = String::new();
        for _ in 0..count {
            content.push_str(pieces[(next() % pieces.len() as u64) as usize]);
        }
        let mut expected = Ok(Vec::new());
        for line in content.lines() {
            if let Ok(buffer) = &mut expected {
                if base64::decode_config_buf(line, base64::STANDARD, buffer).is_err() {
                    expected = Err(LicenseError::Contents);
                }
            }
        }
        assert_eq!(decode_content(&content), expected, "{:?}", content);
    }
}

#[test]
fn any_expression_is_read_or_refused() {
    let pieces: [&str; 24] = [
        "MIT", "Apache-2.0", "GPL-3.0", "GPL-2.0-only", "-or-later", "-only", "+", "(", ")", " ",
        "AND", "OR", "WITH", "and", "or", "/", "LLVM-exception", "LicenseRef-", "DocumentRef-",
        ":", "x", "é", "apache", "GFDL-1.1-invariants",
    ];
    let mut next = generator(0xd1b5_4a32_d192_ed03);
    for _ in 0..20_000 {
        let count = (next() % 8) as usize;
        let mut expression = String::new();
        for _ in 0..count {
            expression.push_str(pieces[(next() % pieces.len() as u64) as usize]);
        }
        let expected = spdx::Expression::parse_mode(&expression, spdx::ParseMode::LAX)
            .map(|parsed| {
                parsed
                    .requirements()
                    .filter_map(|requirement| requirement.req.license.id())
                    .map(|id| id.name.to_string())
                    .collect::<Vec<String>>()
            })
            .map_err(|_| LicenseError::Expression);
        assert_eq!(license_names(&expression), expected, "{:?}", expression);
    }
}
