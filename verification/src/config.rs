//! What a render is configured with.

use crate::format::Format;
use crate::paths::Paths;
use vstd::prelude::*;

verus! {

/// What stands for the copyright holder where none is known.
pub const DEFAULT_COPYRIGHT: &'static str = "[copyright holder(s)]";

/// The copyright holder where none is given: the user's name where there
/// is one, such as the one that the user's git configuration holds.
pub fn default_copyright(user_name: Option<String>) -> (holder: String)
    ensures
        holder@ == match user_name {
            Some(name) => name@,
            None => DEFAULT_COPYRIGHT@,
        },
{
    match user_name {
        Some(name) => name,
        None => String::from_str(DEFAULT_COPYRIGHT),
    }
}

/// The settings of one run. The renderer reads `no_copyright` and `format`;
/// the year, the holder and `ascii` are carried for the caller and change
/// nothing in what is rendered.
#[derive(Debug, Clone)]
pub struct Config {
    /// The copyright year.
    pub year: u32,
    /// The copyright holder.
    pub copyright: String,
    /// Whether the copyright notice is left out.
    pub no_copyright: bool,
    /// Whether characters outside ASCII are to be replaced.
    pub ascii: bool,
    /// The output encoding.
    pub format: Format,
    /// Where the output goes.
    pub out: Paths,
    /// The license identifier or expression.
    pub license: String,
}

impl Config {
    /// Whether the copyright notice is rendered.
    pub open spec fn emits_copyright(&self) -> bool {
        !self.no_copyright
    }

    /// Whether the copyright notice is rendered.
    pub fn emit_copyright(&self) -> (emit: bool)
        ensures
            emit == self.emits_copyright(),
    {
        !self.no_copyright
    }
}

} // verus!
