use vstd::prelude::*;

pub mod error;
pub mod extract;
pub mod function;
pub mod mapfile;
pub mod matching;
pub mod memmap;
pub mod namespace;
pub mod util;

pub use error::ExtractError;
pub use extract::extract_module;
pub use extract::FunctionInput;
pub use extract::ModuleInput;
pub use function::AsmFunction;
pub use mapfile::export_mapfile;
pub use matching::match_funcs;
pub use matching::MatchResult;
pub use memmap::MemoryMap;
pub use memmap::SectionInput;
pub use namespace::derive_namespace;
pub use util::parse_u32_hex;

use crate::mapfile::mapfile_text;
use crate::matching::match_post;

verus! {

/// Matches the SDK population against the REL population and serializes the
/// confident pairings: the whole analysis from extracted records to results,
/// as one pure function of the two populations.
pub fn run(sdk_funcs: &Vec<AsmFunction>, rel_funcs: &Vec<AsmFunction>) -> (r: (MatchResult, String))
    ensures
        match_post(sdk_funcs@, rel_funcs@, r.0.confident@, r.0.ambiguous.deep_view()),
        r.1@ == mapfile_text(sdk_funcs@, rel_funcs@, r.0.confident@),
{
    let result = match_funcs(sdk_funcs, rel_funcs);
    let map_text = export_mapfile(sdk_funcs, rel_funcs, &result.confident);
    (result, map_text)
}

} // verus!
