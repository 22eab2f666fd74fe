//! What generating license files reckons with before anything is fetched
//! or written: which licenses an expression asks for, where each is found
//! and where it goes, and what the fetched data holds.

use crate::text::{bytes_of, fields, lemma_fields_len, push_char, split_bytes, texts_of};
use spdx::{Expression, ParseMode};
use vstd::prelude::*;
use vstd::slice::slice_subrange;
use vstd::string::StringSliceAdditionalSpecFns;

verus! {

/// Why license files cannot be generated.
#[derive(Debug, Clone, Copy, PartialEq, Eq, Structural)]
pub enum LicenseError {
    /// The license expression cannot be read.
    Expression,
    /// There are several licenses, and neither one output path nor one for
    /// each of them.
    OutPaths,
    /// The contents of a license are not base64.
    Contents,
}

impl LicenseError {
    /// The text shown for this error.
    pub fn to_string(&self) -> (s: String)
        ensures
            s@ == match *self {
                LicenseError::Expression => "the license expression cannot be read"@,
                LicenseError::OutPaths => "when generating multiple licenses, the number of OUT-paths must be either 1 or match the number of licenses"@,
                LicenseError::Contents => "the contents of the license data are not base64"@,
            },
    {
        match self {
            LicenseError::Expression => String::from_str("the license expression cannot be read"),
            LicenseError::OutPaths => String::from_str(
                "when generating multiple licenses, the number of OUT-paths must be either 1 or match the number of licenses",
            ),
            LicenseError::Contents => String::from_str(
                "the contents of the license data are not base64",
            ),
        }
    }
}

/// `spdx::ParseError`, the error of an expression that cannot be read.
/// Nothing is read of it.
#[verifier::external_type_specification]
#[verifier::external_body]
pub struct ExParseError(spdx::ParseError);

/// `base64::DecodeError`, the error of a line that is not base64. Nothing
/// is read of it.
#[verifier::external_type_specification]
#[verifier::external_body]
pub struct ExDecodeError(base64::DecodeError);

/// For each license that an expression asks for, in the order in which
/// they stand in it: the short name of its SPDX identifier, where it has
/// one. There is none where the expression cannot be read.
pub uninterp spec fn requirement_names(expression: Seq<char>) -> Option<Seq<Option<Seq<char>>>>;

/// The names of a list of identifiers.
pub open spec fn names_of(list: Seq<Option<String>>) -> Seq<Option<Seq<char>>> {
    Seq::new(
        list.len(),
        |i: int|
            match list[i] {
                Some(name) => Some(name@),
                None => None,
            },
    )
}

/// `spdx::Expression::parse_mode` with `ParseMode::LAX`, and of the
/// expression that it gives `Expression::requirements` with
/// `LicenseItem::id` for each: the short name of the SPDX identifier of
/// every license that the expression asks for, in the order in which they
/// stand in it, and `None` for a license that is referred to in another
/// way; or the crate's error where the expression cannot be read.
#[verifier::external_body]
fn read_requirements(expression: &str) -> (names: Result<Vec<Option<String>>, spdx::ParseError>)
    ensures
        match names {
            Ok(list) => requirement_names(expression@) == Some(names_of(list@)),
            Err(_) => requirement_names(expression@) is None,
        },
{
    let parsed = Expression::parse_mode(expression, ParseMode::LAX)?;
    Ok(parsed.requirements().map(|r| r.req.license.id().map(|id| id.name.to_string())).collect())
}

/// `spdx::license_version`: the version of the SPDX license list that the
/// crate was made from.
#[verifier::external_body]
fn list_version() -> (version: String) {
    spdx::license_version().to_string()
}

/// The names that stand in a list of identifiers, in order.
pub open spec fn named(ids: Seq<Option<Seq<char>>>) -> Seq<Seq<char>>
    decreases ids.len(),
{
    if ids.len() == 0 {
        Seq::empty()
    } else {
        match ids.last() {
            Some(name) => named(ids.drop_last()).push(name),
            None => named(ids.drop_last()),
        }
    }
}

/// The licenses with an SPDX identifier among those that an expression
/// asks for: their names, in order.
pub fn named_licenses(ids: &[Option<String>]) -> (names: Vec<String>)
    ensures
        texts_of(names@) == named(names_of(ids@)),
{
    let mut names: Vec<String> = Vec::new();
    let mut i: usize = 0;
    assert(names_of(ids@).take(0).len() == 0);
    while i < ids.len()
        invariant
            i <= ids.len(),
            texts_of(names@) == named(names_of(ids@).take(i as int)),
        decreases ids.len() - i,
    {
        let ghost done = texts_of(names@);
        let ghost now = names_of(ids@).take(i + 1);
        assert(now.drop_last() == names_of(ids@).take(i as int));
        assert(now.last() == names_of(ids@)[i as int]);
        match &ids[i] {
            Some(name) => {
                names.push(name.clone());
                assert(texts_of(names@) =~= done.push(name@));
            },
            None => {},
        }
        i += 1;
    }
    assert(names_of(ids@).take(ids.len() as int) == names_of(ids@));
    names
}

/// Reads a license expression, leniently, and gives the names of the
/// licenses with an SPDX identifier that it asks for.
pub fn license_names(expression: &str) -> (names: Result<Vec<String>, LicenseError>)
    ensures
        match names {
            Ok(list) => requirement_names(expression@) is Some && texts_of(list@) == named(
                requirement_names(expression@)->0,
            ),
            Err(error) => requirement_names(expression@) is None && error
                == LicenseError::Expression,
        },
{
    match read_requirements(expression) {
        Ok(ids) => Ok(named_licenses(ids.as_slice())),
        Err(_) => Err(LicenseError::Expression),
    }
}

/// How the output paths of a run are come by.
#[derive(Debug, Clone, Copy, PartialEq, Eq, Structural)]
pub enum OutputPlan {
    /// There is a path for each license: they are taken as they are given.
    AsGiven,
    /// There is one path for several licenses, or for none: a path for
    /// each license is made from it.
    FromBase,
}

/// Decides how the output paths are come by, from how many were given and
/// how many licenses there are.
pub fn plan_outputs(paths: usize, licenses: usize) -> (plan: Result<OutputPlan, LicenseError>)
    ensures
        plan == if paths == licenses {
            Ok::<OutputPlan, LicenseError>(OutputPlan::AsGiven)
        } else if paths == 1 {
            Ok(OutputPlan::FromBase)
        } else {
            Err(LicenseError::OutPaths)
        },
{
    if paths == licenses {
        Ok(OutputPlan::AsGiven)
    } else if paths == 1 {
        Ok(OutputPlan::FromBase)
    } else {
        Err(LicenseError::OutPaths)
    }
}

/// A text in upper case, as Unicode has it.
pub uninterp spec fn uppercase(s: Seq<char>) -> Seq<char>;

/// `str::to_uppercase`: the text in upper case.
#[verifier::external_body]
fn to_uppercase(s: &str) -> (upper: String)
    ensures
        upper@ == uppercase(s@),
{
    s.to_uppercase()
}

/// How many characters stand before the first hyphen of `s`: all of them
/// where there is none.
pub open spec fn before_hyphen(s: Seq<char>) -> int
    decreases s.len(),
{
    if s.len() == 0 || s[0] == '-' {
        0
    } else {
        1 + before_hyphen(s.skip(1))
    }
}

/// The first hyphen of `s` stands where no hyphen stands before it.
pub proof fn lemma_before_hyphen(s: Seq<char>, n: int)
    requires
        0 <= n <= s.len(),
        forall|i: int| 0 <= i < n ==> s[i] != '-',
        n < s.len() ==> s[n] == '-',
    ensures
        before_hyphen(s) == n,
    decreases n,
{
    if n > 0 {
        let rest = s.skip(1);
        assert forall|i: int| 0 <= i < n - 1 implies rest[i] != '-' by {
            assert(rest[i] == s[i + 1]);
        }
        if n < s.len() {
            assert(rest[n - 1] == s[n]);
        }
        lemma_before_hyphen(rest, n - 1);
    }
}

/// The part of a license's name that tells its file from those of other
/// licenses: what stands before the first hyphen of the name, in upper
/// case.
pub fn unique_name(name: &str) -> (unique: String)
    ensures
        unique@ == uppercase(name@.take(before_hyphen(name@))),
{
    let mut head = String::new();
    let mut open = true;
    let ghost mut end: int = 0;
    assert(name@.take(0) =~= Seq::<char>::empty());
    for c in it: name.chars()
        invariant
            it.seq() == name@,
            open ==> end == it.index() && head@ == name@.take(end) && forall|i: int|
                0 <= i < end ==> name@[i] != '-',
            !open ==> 0 <= end < name@.len() && head@ == name@.take(end) && name@[end] == '-'
                && forall|i: int| 0 <= i < end ==> name@[i] != '-',
    {
        if open {
            if c == '-' {
                open = false;
            } else {
                push_char(&mut head, c);
                proof {
                    assert(name@.take(end + 1) =~= name@.take(end).push(c));
                    end = end + 1;
                }
            }
        }
    }
    proof {
        lemma_before_hyphen(name@, end);
    }
    to_uppercase(head.as_str())
}

/// The file name for one of several licenses: the name given, a hyphen,
/// and what tells the license from the others.
pub fn derived_name(stem: &[u8], unique: &str) -> (name: Vec<u8>)
    ensures
        name@ == stem@ + "-".spec_bytes() + unique.spec_bytes(),
{
    let mut name: Vec<u8> = Vec::new();
    name.extend_from_slice(stem);
    name.extend_from_slice("-".as_bytes());
    name.extend_from_slice(unique.as_bytes());
    assert(name@ =~= stem@ + "-".spec_bytes() + unique.spec_bytes());
    name
}

/// The tag under which the license list in the version `version` is
/// published.
pub fn release_tag(version: &str) -> (tag: String)
    ensures
        tag@ == "v"@ + version@,
{
    let mut tag = String::from_str("v");
    tag.append(version);
    tag
}

/// The tag under which the license list that the identifiers are of is
/// published.
pub fn list_tag() -> (tag: String)
    ensures
        tag@.len() > 0,
        tag@[0] == 'v',
{
    let version = list_version();
    let tag = release_tag(version.as_str());
    proof {
        reveal_strlit("v");
    }
    tag
}

/// Where the license called `name` lies in the license list.
pub fn source_path(name: &str) -> (path: String)
    ensures
        path@ == "src/"@ + name@ + ".xml"@,
{
    let mut path = String::from_str("src/");
    path.append(name);
    path.append(".xml");
    path
}

/// What a line of base64 holds, where it is base64.
pub uninterp spec fn base64_decoded(line: Seq<u8>) -> Option<Seq<u8>>;

/// Whether the sizes that the decoder reckons with fit a `usize`, for a
/// line of `line` bytes and a buffer that holds `held` bytes.
pub open spec fn decoder_fits(line: nat, held: nat) -> bool {
    line + 7 <= usize::MAX && (line + 7) / 8 * 6 + held <= usize::MAX
}

/// `base64::decode_config_buf` with `base64::STANDARD`: the bytes that
/// the line holds are added to `buffer`; where the line is not base64 the
/// function gives its error, and `buffer` holds what it held and after it
/// whatever the function left there. The function stops the program where
/// the sizes that it reckons with do not fit a `usize`; `requires` keeps
/// such lines out.
#[verifier::external_body]
fn decode_line(line: &[u8], buffer: &mut Vec<u8>) -> (done: Result<(), base64::DecodeError>)
    requires
        decoder_fits(line@.len(), old(buffer)@.len()),
    ensures
        match done {
            Ok(_) => base64_decoded(line@) is Some && final(buffer)@ == old(buffer)@
                + base64_decoded(line@)->0,
            Err(_) => base64_decoded(line@) is None && old(buffer)@.len() <= final(buffer)@.len()
                && final(buffer)@.take(old(buffer)@.len() as int) == old(buffer)@,
        },
{
    base64::decode_config_buf(line, base64::STANDARD, buffer)
}

/// A line without the carriage return at its end, where it has one.
pub open spec fn without_return(line: Seq<u8>) -> Seq<u8> {
    if line.len() > 0 && line.last() == 0x0D {
        line.drop_last()
    } else {
        line
    }
}

/// The line with the number `i` among the fields between the line feeds of
/// a text: a field that a line feed ends is a line without the carriage
/// return before the line feed, and the field after the last line feed is
/// a line as it stands.
pub open spec fn line_of(all: Seq<Seq<u8>>, i: int) -> Seq<u8> {
    if i < all.len() - 1 {
        without_return(all[i])
    } else {
        all[i]
    }
}

/// How many lines a text has: a line for each of the fields between its
/// line feeds, but for an empty field after the last line feed.
pub open spec fn line_count(all: Seq<Seq<u8>>) -> int {
    if all.last().len() == 0 {
        all.len() - 1
    } else {
        all.len() as int
    }
}

/// What the first `n` lines of base64 hold, one after the other. They hold
/// nothing where one of them is not base64, or is of a size that the
/// decoder cannot reckon with.
pub open spec fn decoded_lines(all: Seq<Seq<u8>>, n: int) -> Option<Seq<u8>>
    decreases n,
{
    if n <= 0 {
        Some(Seq::empty())
    } else {
        match (decoded_lines(all, n - 1), base64_decoded(line_of(all, n - 1))) {
            (Some(before), Some(more)) => if decoder_fits(
                line_of(all, n - 1).len(),
                before.len(),
            ) {
                Some(before + more)
            } else {
                None
            },
            _ => None,
        }
    }
}

/// What contents in base64 hold: what their lines hold, one after the
/// other.
pub open spec fn decoded_content(content: Seq<u8>) -> Option<Seq<u8>> {
    let all = fields(content, 0x0Au8);
    decoded_lines(all, line_count(all))
}

/// Decodes the contents of a license as they are fetched: lines of base64.
pub fn decode_content(content: &str) -> (bytes: Result<Vec<u8>, LicenseError>)
    ensures
        match bytes {
            Ok(held) => decoded_content(content.spec_bytes()) == Some(held@),
            Err(error) => decoded_content(content.spec_bytes()) is None && error
                == LicenseError::Contents,
        },
{
    let lines = split_bytes(content.as_bytes(), 0x0A);
    let ghost all = fields(content.spec_bytes(), 0x0Au8);
    proof {
        lemma_fields_len(content.spec_bytes(), 0x0Au8);
    }
    assert(all[all.len() - 1] == lines@[lines@.len() - 1]@);
    let count = if lines[lines.len() - 1].len() == 0 {
        lines.len() - 1
    } else {
        lines.len()
    };
    let mut buffer: Vec<u8> = Vec::new();
    let mut i: usize = 0;
    while i < count
        invariant
            i <= count <= lines.len(),
            count == line_count(all),
            all == bytes_of(lines@),
            all == fields(content.spec_bytes(), 0x0Au8),
            decoded_lines(all, i as int) == Some(buffer@),
        decreases count - i,
    {
        assert(all[i as int] == lines@[i as int]@);
        let whole = lines[i].as_slice();
        let line = if i + 1 < lines.len() && whole.len() > 0 && whole[whole.len() - 1] == 0x0D {
            slice_subrange(whole, 0, whole.len() - 1)
        } else {
            whole
        };
        assert(line@ =~= line_of(all, i as int));
        let fits = match line.len().checked_add(7) {
            Some(padded) => match (padded / 8).checked_mul(6) {
                Some(most) => most.checked_add(buffer.len()).is_some(),
                None => false,
            },
            None => false,
        };
        if !fits {
            proof {
                lemma_decoded_lines_stay(all, i + 1, count as int);
            }
            return Err(LicenseError::Contents);
        }
        match decode_line(line, &mut buffer) {
            Ok(_) => {},
            Err(_) => {
                proof {
                    lemma_decoded_lines_stay(all, i + 1, count as int);
                }
                return Err(LicenseError::Contents);
            },
        }
        i += 1;
    }
    Ok(buffer)
}

/// Where the first lines hold nothing, more lines hold nothing.
pub proof fn lemma_decoded_lines_stay(all: Seq<Seq<u8>>, n: int, m: int)
    requires
        n <= m,
        decoded_lines(all, n) is None,
    ensures
        decoded_lines(all, m) is None,
    decreases m - n,
{
    if n < m {
        lemma_decoded_lines_stay(all, n, m - 1);
    }
}

} // verus!
