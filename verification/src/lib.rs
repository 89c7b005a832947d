//! A parser generator for LL(1) grammars with semantic actions: a grammar
//! description is read into an intermediate representation, checked for
//! the LL(1) property over its FIRST and FOLLOW sets, and turned into the
//! source text of a recursive descent parser. The crate also carries two
//! parsers in exactly the emitted shape (an integer calculator and a
//! boolean-expression reader) and the parse-tree type with its DOT
//! serialization.
use vstd::prelude::*;

pub mod calculator;
pub mod graphviz;
pub mod lexer;
pub mod logic_expression;
pub mod parser_description;
pub mod parser_generator;
pub mod prelude_generator;
pub mod text;
pub mod tokenizer_generator;

pub use graphviz::GraphVizNode;
pub use graphviz::generate_dot_format;
pub use parser_generator::GenError;

use vstd::string::StringExecFns;

verus! {

/// The whole pipeline: read the grammar description, validate it, and
/// emit the complete parser source: prelude, tokenizer and parser, in
/// that order, exactly as the three emitters state them. Every failure
/// of the pipeline is reported as an error; nothing is emitted for a
/// rejected grammar.
pub fn generate_parser_from_string(grammar: String) -> (r: Result<String, GenError>)
    ensures
        r matches Err(e) ==> (e is MetaParse || e is UndefinedSymbol || e is MissingStart
            || e is ReservedTerminal || e is NotLL1),
        !crate::parser_description::meta_ok(grammar@) ==> (r matches Err(e) && e is MetaParse),
        crate::parser_description::meta_ok(grammar@) ==> !(r matches Err(e) && e is MetaParse),
        r matches Ok(text) ==> crate::parser_description::meta_ok(grammar@),
        r matches Ok(text) ==> (exists|
            pd: crate::parser_description::ParserDescription,
            g: crate::parser_generator::Grammar,
        |
            #![trigger crate::parser_generator::interned(pd, g)]
            {
                &&& crate::parser_description::meta_parsed(grammar@, pd)
                &&& crate::parser_generator::interned(pd, g)
                &&& crate::parser_generator::has_start(pd)
                &&& !crate::parser_generator::has_reserved(pd)
                &&& crate::parser_generator::all_defined(pd)
                &&& crate::parser_generator::ll1_ok(
                    g,
                    crate::parser_generator::first_of(g),
                    crate::parser_generator::follow_of(
                        g,
                        crate::parser_generator::start_of(pd),
                    ),
                )
                &&& text@
                    == "\n#![allow(warnings, unused, non_snake_case, non_camel_case_types)]\nuse regex::Regex;\nuse lazy_static::lazy_static;\nuse graph_viz::GraphVizNode;\n"@
                    + pd.prelude@ + "\n"@ + crate::tokenizer_generator::tokenizer_text(pd) + "\n"@
                    + crate::parser_generator::parser_text(
                    g,
                    crate::parser_generator::first_of(g),
                    crate::parser_generator::follow_of(
                        g,
                        crate::parser_generator::start_of(pd),
                    ),
                    pd,
                    crate::parser_generator::start_of(pd),
                )
            }),
{
    let pd = match crate::parser_description::parse_parser_description(grammar.as_str()) {
        Ok((pd, _rest)) => pd,
        Err(e) => {
            return Err(GenError::MetaParse(e));
        },
    };
    let ghost pdg = pd;
    let imports = crate::prelude_generator::generate_prelude(&pd);
    let tokenizer = crate::tokenizer_generator::generate_tokenizer(&pd);
    let parser = match crate::parser_generator::generate_parser(&pd) {
        Ok(p) => p,
        Err(e) => {
            return Err(e);
        },
    };
    let mut out = imports;
    out.append("\n");
    out.append(tokenizer.as_str());
    out.append("\n");
    out.append(parser.as_str());
    proof {
        let g = choose|g: crate::parser_generator::Grammar|
            {
                &&& #[trigger] crate::parser_generator::interned(pdg, g)
                &&& crate::parser_generator::ll1_ok(
                    g,
                    crate::parser_generator::first_of(g),
                    crate::parser_generator::follow_of(
                        g,
                        crate::parser_generator::start_of(pdg),
                    ),
                )
                &&& parser@ == crate::parser_generator::parser_text(
                    g,
                    crate::parser_generator::first_of(g),
                    crate::parser_generator::follow_of(
                        g,
                        crate::parser_generator::start_of(pdg),
                    ),
                    pdg,
                    crate::parser_generator::start_of(pdg),
                )
            };
        assert(out@ =~= "\n#![allow(warnings, unused, non_snake_case, non_camel_case_types)]\nuse regex::Regex;\nuse lazy_static::lazy_static;\nuse graph_viz::GraphVizNode;\n"@
            + pdg.prelude@ + "\n"@ + crate::tokenizer_generator::tokenizer_text(pdg) + "\n"@
            + crate::parser_generator::parser_text(
            g,
            crate::parser_generator::first_of(g),
            crate::parser_generator::follow_of(g, crate::parser_generator::start_of(pdg)),
            pdg,
            crate::parser_generator::start_of(pdg),
        ));
    }
    Ok(out)
}

} // verus!
