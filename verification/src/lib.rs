//! Core of an LALR(1) parser generator: an extended grammar DSL is validated,
//! lowered to a flat BNF with numbered nonterminals and productions, augmented
//! with fresh start nonterminals, and analyzed (nullable and FIRST fixpoints).
use vstd::prelude::*;

pub mod bnf;
pub mod grammar;
pub mod imap;
pub mod parser;

pub use crate::grammar::Grammar;
pub use crate::parser::Parser;

verus! {

/// Builds a parser core from a grammar: validation, lowering, augmentation
/// and the nullable and FIRST analyses.
pub fn build(grammar: Grammar) -> (r: Result<Parser, String>)
    requires
        crate::bnf::grammar_fits(grammar),
    ensures
        r.is_ok() == (crate::grammar::grammar_valid(grammar)
            && !crate::grammar::has_dup(crate::grammar::spec_rule_names(grammar))),
        match r {
            Ok(p) => crate::parser::pipeline_ok(grammar, p),
            Err(e) => crate::parser::pipeline_err(grammar, e@),
        },
{
    Parser::new(grammar)
}

} // verus!
