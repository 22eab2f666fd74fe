//! Lists of output paths.

use crate::error::ParsePathError;
use crate::text::{
    bytes_of, fields, joined, lemma_fields_len, push_char, split_bytes, split_units,
    string_from_utf8_lossy, units_of, utf8_lossy,
};
use vstd::prelude::*;
use vstd::string::StringSliceAdditionalSpecFns;

verus! {

/// The file name that output goes to where none is given.
pub const DEFAULT_LICENSE: &'static str = "LICENSE";

/// The byte that separates the paths of a list: a comma.
pub const SEPARATOR: u8 = 0x2C;

/// The paths to write to, in order. A path is held as its bytes.
#[derive(Debug, Clone, PartialEq, Eq)]
pub struct Paths {
    paths: Vec<Vec<u8>>,
}

/// The paths of a list as they are shown: bytes that are not UTF-8 give
/// way to `U+FFFD`.
pub open spec fn shown(paths: Seq<Seq<u8>>) -> Seq<Seq<char>> {
    Seq::new(paths.len(), |i: int| utf8_lossy(paths[i]))
}

/// Whether no field is empty.
pub open spec fn all_filled<T>(list: Seq<Seq<T>>) -> bool {
    forall|i: int| 0 <= i < list.len() ==> (#[trigger] list[i]).len() > 0
}

impl View for Paths {
    type V = Seq<Seq<u8>>;

    closed spec fn view(&self) -> Seq<Seq<u8>> {
        bytes_of(self.paths@)
    }
}

impl Paths {
    /// A list of the given paths.
    pub fn new(paths: Vec<Vec<u8>>) -> (list: Paths)
        ensures
            list@ == bytes_of(paths@),
    {
        Paths { paths }
    }

    /// The paths, in order.
    pub fn paths(&self) -> (list: &[Vec<u8>])
        ensures
            bytes_of(list@) == self@,
    {
        self.paths.as_slice()
    }

    /// The list as text: the paths as they are shown, with commas between
    /// them.
    pub fn to_string(&self) -> (s: String)
        ensures
            s@ == joined(shown(self@), ','),
    {
        let mut s = String::new();
        let mut i: usize = 0;
        assert(shown(self@).take(0).len() == 0);
        while i < self.paths.len()
            invariant
                i <= self.paths.len(),
                s@ == joined(shown(self@).take(i as int), ','),
            decreases self.paths.len() - i,
        {
            let ghost before = shown(self@).take(i as int);
            let ghost now = shown(self@).take(i + 1);
            assert(now.drop_last() == before);
            assert(now.last() == utf8_lossy(self.paths@[i as int]@));
            if i > 0 {
                push_char(&mut s, ',');
            }
            let path = string_from_utf8_lossy(self.paths[i].as_slice());
            s.append(path.as_str());
            assert(s@ =~= joined(now, ','));
            i += 1;
        }
        assert(shown(self@).take(self.paths.len() as int) == shown(self@));
        s
    }

    /// Reads a list of paths: the fields between the commas of `s`. There
    /// is no list where a path would be empty.
    pub fn try_from(s: &[u8]) -> (list: Result<Paths, ParsePathError>)
        ensures
            list is Ok <==> all_filled(fields(s@, SEPARATOR)),
            list matches Ok(paths) ==> paths@ == fields(s@, SEPARATOR),
    {
        if s.len() == 0 {
            proof {
                assert(fields(s@, SEPARATOR)[0].len() == 0);
            }
            return Err(ParsePathError);
        }
        try_paths_from_str_unix(s)
    }
}

impl Default for Paths {
    /// The list of the one default path.
    fn default() -> (list: Paths)
        ensures
            list@ == seq![DEFAULT_LICENSE.spec_bytes()],
    {
        let mut paths: Vec<Vec<u8>> = Vec::new();
        paths.push(DEFAULT_LICENSE.as_bytes_vec());
        assert(bytes_of(paths@) =~= seq![DEFAULT_LICENSE.spec_bytes()]);
        Paths { paths }
    }
}

/// Reads a list of paths as Unix writes them, in bytes: every field
/// between the commas of `s` is a path. There is no list where a path
/// would be empty.
pub fn try_paths_from_str_unix(s: &[u8]) -> (list: Result<Paths, ParsePathError>)
    ensures
        list is Ok <==> all_filled(fields(s@, SEPARATOR)),
        list matches Ok(paths) ==> paths@ == fields(s@, SEPARATOR),
{
    let paths = split_bytes(s, SEPARATOR);
    let mut i: usize = 0;
    while i < paths.len()
        invariant
            i <= paths.len(),
            bytes_of(paths@) == fields(s@, SEPARATOR),
            forall|k: int| 0 <= k < i ==> (#[trigger] fields(s@, SEPARATOR)[k]).len() > 0,
        decreases paths.len() - i,
    {
        if paths[i].len() == 0 {
            assert(fields(s@, SEPARATOR)[i as int].len() == 0);
            return Err(ParsePathError);
        }
        i += 1;
    }
    Ok(Paths { paths })
}

/// The 16-bit unit that separates the paths of a list: a comma.
pub const WIDE_SEPARATOR: u16 = 0x2C;

/// The paths that a list in 16-bit units holds: its fields, but for an
/// empty field after the last comma.
pub open spec fn wide_paths(s: Seq<u16>) -> Seq<Seq<u16>> {
    let all = fields(s, WIDE_SEPARATOR);
    if all.last().len() == 0 {
        all.drop_last()
    } else {
        all
    }
}

/// Reads a list of paths as Windows writes them, in 16-bit units: every
/// field between the commas of `s` is a path, and what follows the last
/// comma is one unless it is empty. There is no list where a path before
/// a comma would be empty.
pub fn try_paths_from_str_windows(s: &[u16]) -> (list: Result<Vec<Vec<u16>>, ParsePathError>)
    ensures
        list is Ok <==> all_filled(fields(s@, WIDE_SEPARATOR).drop_last()),
        list matches Ok(paths) ==> units_of(paths@) == wide_paths(s@),
{
    let mut paths = split_units(s, WIDE_SEPARATOR);
    let ghost all = fields(s@, WIDE_SEPARATOR);
    proof {
        lemma_fields_len(s@, WIDE_SEPARATOR);
    }
    let mut i: usize = 0;
    while i + 1 < paths.len()
        invariant
            0 < paths.len(),
            i < paths.len(),
            all == fields(s@, WIDE_SEPARATOR),
            units_of(paths@) == all,
            forall|k: int| 0 <= k < i ==> (#[trigger] all.drop_last()[k]).len() > 0,
        decreases paths.len() - i,
    {
        if paths[i].len() == 0 {
            assert(all.drop_last()[i as int].len() == 0);
            return Err(ParsePathError);
        }
        i += 1;
    }
    if paths[paths.len() - 1].len() == 0 {
        paths.pop();
        assert(units_of(paths@) =~= all.drop_last());
    }
    Ok(paths)
}

} // verus!
