//! The prelude emitter: the fixed host-language header, then the user's
//! verbatim prelude text.
use vstd::prelude::*;
use vstd::string::StringExecFns;

use crate::parser_description::ParserDescription;

verus! {

/// The fixed header: the pattern facility, the lazily initialized
/// globals facility, and the parse-tree node type.
pub fn default_prefix() -> (r: &'static str)
    ensures
        r@
            == "\n#![allow(warnings, unused, non_snake_case, non_camel_case_types)]\nuse regex::Regex;\nuse lazy_static::lazy_static;\nuse graph_viz::GraphVizNode;\n"@,
{
    "\n#![allow(warnings, unused, non_snake_case, non_camel_case_types)]\nuse regex::Regex;\nuse lazy_static::lazy_static;\nuse graph_viz::GraphVizNode;\n"
}

/// The emitted prelude is exactly the fixed header followed by the
/// user's prelude text, verbatim.
pub fn generate_prelude(parser_description: &ParserDescription) -> (r: String)
    ensures
        r@
            == "\n#![allow(warnings, unused, non_snake_case, non_camel_case_types)]\nuse regex::Regex;\nuse lazy_static::lazy_static;\nuse graph_viz::GraphVizNode;\n"@
            + parser_description.prelude@,
{
    let mut answer = String::from_str(default_prefix());
    answer.append(parser_description.prelude.as_str());
    answer
}

} // verus!
