//! Rendering a document from its bytes.

use crate::config::Config;
use crate::error::RenderError;
use crate::markup::{parsed, EventStream};
use vstd::prelude::*;

verus! {

/// Whether a render of the document in `bytes` under `config`, to a sink
/// that holds `before`, leaves `after` in the sink and returns `result`:
/// the sink holds what it held and then the text that the format of
/// `config` makes of the document's events, written up to where the
/// render ends.
pub open spec fn renders(
    bytes: Seq<u8>,
    config: Config,
    before: Seq<char>,
    after: Seq<char>,
    result: Result<(), RenderError>,
) -> bool {
    let made = config.format.rendered(parsed(bytes), config.emits_copyright());
    after == before + made.text && result == made.result
}

/// Renders the document in `bytes` to `out`, as `config` says.
pub fn render(bytes: &[u8], out: &mut String, config: &Config) -> (result: Result<(), RenderError>)
    ensures
        renders(bytes@, *config, old(out)@, final(out)@, result),
{
    let xml = EventStream::parse(bytes);
    config.format.write(xml, out, config)
}

/// Rendering the same document under the same settings again gives the
/// same: two renders that start from the same sink leave the same text in
/// it and return the same.
pub proof fn lemma_render_again(
    bytes: Seq<u8>,
    config: Config,
    before: Seq<char>,
    first: Seq<char>,
    first_result: Result<(), RenderError>,
    second: Seq<char>,
    second_result: Result<(), RenderError>,
)
    requires
        renders(bytes, config, before, first, first_result),
        renders(bytes, config, before, second, second_result),
    ensures
        first == second,
        first_result == second_result,
{
}

} // verus!
