//! The generator pipeline: validation, lowering, augmentation, and the
//! nullable and FIRST analyses over the result.
use vstd::prelude::*;
use crate::bnf::{
    Bnf, NontermId, ProdAction, Symbol, bnf_st, bnf_wf, grammar_fits, grammar_symtab,
    imap_keys_unique, lemma_lowered_nt_stable, lemma_lowered_nt_widen, lowered_nt_matches,
    lower_step, st_wf,
};
use crate::grammar::{Grammar, grammar_valid, has_dup, spec_rule_bodies, spec_rule_names,
    validate_err};
use crate::imap::imap_entries;
use crate::parser::bitset::BitSet;
use crate::parser::sets::{first_spec, gen_first, gen_nullable, nullable_spec};

pub mod bitset;
pub mod sets;
pub mod state;
pub mod token_set;

verus! {

/// A generated parser core: the augmented BNF with its nullable and FIRST
/// tables.
pub struct Parser {
    pub bnf: Bnf,
    pub nullable: Vec<bool>,
    pub first: Vec<BitSet>,
}

/// Every augmented start is bound to a nonterminal with exactly one
/// production: default action, no precedence, and a single nonterminal
/// symbol.
pub open spec fn starts_augmented(b: Bnf) -> bool {
    forall|i: int| 0 <= i < imap_entries(b.starts).len() ==> {
        let e = #[trigger] imap_entries(b.starts)[i];
        let nt = b.nonterms@[e.1 as int];
        let q = b.prods@[nt.prod_start as int];
        &&& e.1 < b.nonterms@.len()
        &&& nt.prod_end == nt.prod_start + 1
        &&& q.action == ProdAction::Plain
        &&& q.prec is None
        &&& q.symbols@.len() == 1
        &&& (q.symbols@[0] is Nonterm)
    }
}

/// What a successful pipeline run guarantees of the parser core, tied back
/// to the grammar it was built from: a well-formed augmented BNF whose token
/// table enumerates the grammar's tokens in declaration order, whose first
/// nonterminals carry the user rules' names in declaration order, whose
/// starts bind each start name — in declaration order — to a fresh
/// augmented nonterminal whose single default production rewrites to the
/// user rule of that name, and whose nullable and FIRST tables are exactly
/// the derivation-based sets.
pub open spec fn pipeline_ok(g: Grammar, p: Parser) -> bool {
    &&& bnf_wf(p.bnf)
    &&& imap_keys_unique(p.bnf.starts)
    &&& starts_augmented(p.bnf)
    // the token table enumerates the grammar's tokens
    &&& imap_entries(p.bnf.tokens).len() == g.tokens@.len()
    &&& forall|i: int| 0 <= i < g.tokens@.len()
        ==> (#[trigger] imap_entries(p.bnf.tokens)[i]) == (g.tokens@[i]@, i as u32)
    // user rules come first, under their own names
    &&& g.rules@.len() <= p.bnf.nonterms@.len()
    &&& forall|j: int| 0 <= j < g.rules@.len()
        ==> (#[trigger] p.bnf.nonterms@[j]).name@ == spec_rule_names(g)[j]
    // every user rule's nonterminal carries the rule's canonical lowered
    // content, resolved against the grammar's own symbol table
    &&& forall|j: int| 0 <= j < g.rules@.len()
        ==> lowered_nt_matches(grammar_symtab(g), bnf_st(p.bnf), j,
            #[trigger] spec_rule_bodies(g)[j], g.rules@.len() as int,
            p.bnf.nonterms@.len() as int)
    // each start name is bound, in declaration order, to an augmented
    // nonterminal rewriting to the user rule of that name
    &&& imap_entries(p.bnf.starts).len() == g.start@.len()
    &&& forall|i: int| 0 <= i < g.start@.len() ==> {
        let e = #[trigger] imap_entries(p.bnf.starts)[i];
        let q = p.bnf.prods@[p.bnf.nonterms@[e.1 as int].prod_start as int];
        &&& e.0 == g.start@[i]@
        &&& (q.symbols@[0] matches Symbol::Nonterm(m) && m.0 < g.rules@.len()
            && spec_rule_names(g)[m.0 as int] == g.start@[i]@)
    }
    // the analyses are exactly the derivation-based sets
    &&& p.nullable@.len() == p.bnf.nonterms@.len()
    &&& forall|n: int| 0 <= n < p.nullable@.len()
        ==> #[trigger] p.nullable@[n] == nullable_spec(p.bnf, n)
    &&& p.first@.len() == p.bnf.nonterms@.len()
    &&& forall|n: int, t: int| 0 <= n < p.first@.len() && 0 <= t < p.first@[n].capacity()
        ==> #[trigger] p.first@[n]@[t] == first_spec(p.bnf, n, t)
}

/// The message a failed pipeline run returns: a duplicated rule name is
/// reported first, with the message the grammar constructor uses; otherwise
/// the message is exactly the validator's.
pub open spec fn pipeline_err(g: Grammar, e: Seq<char>) -> bool {
    if has_dup(spec_rule_names(g)) {
        e == "duplicate rule found in rule list"@
    } else {
        validate_err(g) == Some(e)
    }
}

impl Parser {
    /// Runs the pipeline: validate, lower, augment, and compute the nullable
    /// and FIRST tables. Fails exactly on the validation errors (a duplicated
    /// rule name is reported as when the grammar was built).
    pub fn new(grammar: Grammar) -> (r: Result<Parser, String>)
        requires
            grammar_fits(grammar),
        ensures
            r.is_ok() == (grammar_valid(grammar) && !has_dup(spec_rule_names(grammar))),
            match r {
                Ok(p) => pipeline_ok(grammar, p),
                Err(e) => pipeline_err(grammar, e@),
            },
    {
        let mut names: Vec<String> = Vec::new();
        let mut i: usize = 0;
        while i < grammar.rules.len()
            invariant
                i <= grammar.rules@.len(),
                names@.len() == i,
                forall|j: int| 0 <= j < i ==> names@[j]@ == grammar.rules@[j].0@,
            decreases grammar.rules@.len() - i,
        {
            names.push(grammar.rules[i].0.clone());
            i = i + 1;
        }
        proof {
            assert(crate::grammar::names_of(names@) =~= spec_rule_names(grammar));
        }
        if crate::grammar::find_dup(&names) {
            return Err("duplicate rule found in rule list".to_owned());
        }
        match grammar.validate() {
            Ok(()) => {},
            Err(e) => {
                return Err(e);
            },
        }
        let ghost g = grammar;
        let ghost size = crate::grammar::rules_size(crate::grammar::spec_rule_bodies(g));
        let bnf0 = Bnf::from_grammar(grammar);
        proof {
            assert(bnf0.nonterms@.len() + imap_entries(bnf0.starts).len() < u32::MAX);
            assert(bnf0.prods@.len() + imap_entries(bnf0.starts).len() < usize::MAX);
        }
        let bnf = bnf0.augment();
        let nullable = gen_nullable(&bnf);
        proof {
            let t = imap_entries(bnf.tokens).len() as int;
            let cap = ((t + 63) / 64) * 64;
            assert(t < u32::MAX);
            assert(cap <= t + 63) by (nonlinear_arith)
                requires t >= 0, cap == ((t + 63) / 64) * 64;
            assert(t <= usize::MAX - 63) by {
                assert((g.rules@.len() as int + size + g.start@.len() as int + 1)
                    * (g.tokens@.len() as int + 64) <= usize::MAX);
                assert(g.tokens@.len() as int + 64
                    <= (g.rules@.len() as int + size + g.start@.len() as int + 1)
                        * (g.tokens@.len() as int + 64)) by (nonlinear_arith)
                    requires g.rules@.len() as int + size + g.start@.len() as int + 1 >= 1,
                        g.tokens@.len() as int + 64 >= 0;
            }
            let nn = bnf.nonterms@.len() as int;
            assert(nn <= g.rules@.len() + size + g.start@.len());
            assert(nn * cap <= usize::MAX) by (nonlinear_arith)
                requires 0 <= nn,
                    nn + 1 <= g.rules@.len() as int + size + g.start@.len() as int + 1,
                    0 <= cap <= g.tokens@.len() as int + 64,
                    (g.rules@.len() as int + size + g.start@.len() as int + 1)
                        * (g.tokens@.len() as int + 64) <= usize::MAX;
        }
        let first = gen_first(&bnf, &nullable);
        let p = Parser { bnf, nullable, first };
        proof {
            // augmentation leaves the user rules' productions untouched, so
            // their canonical lowered content carries over
            let st0 = bnf_st(bnf0);
            let st1 = bnf_st(p.bnf);
            let n_terms = imap_entries(p.bnf.tokens).len() as int;
            assert(st_wf(st0, n_terms));
            assert(lower_step(st0, st1, -1, n_terms));
            assert forall|j: int| 0 <= j < g.rules@.len() implies lowered_nt_matches(
                grammar_symtab(g), st1, j, #[trigger] spec_rule_bodies(g)[j],
                g.rules@.len() as int, p.bnf.nonterms@.len() as int) by {
                lemma_lowered_nt_stable(grammar_symtab(g), st0, st1, j, -1, n_terms,
                    spec_rule_bodies(g)[j], g.rules@.len() as int,
                    bnf0.nonterms@.len() as int);
                lemma_lowered_nt_widen(grammar_symtab(g), st1, j, spec_rule_bodies(g)[j],
                    g.rules@.len() as int, bnf0.nonterms@.len() as int,
                    g.rules@.len() as int, p.bnf.nonterms@.len() as int);
            }
            assert forall|i: int| 0 <= i < g.start@.len() implies {
                let e = #[trigger] imap_entries(p.bnf.starts)[i];
                let q = p.bnf.prods@[p.bnf.nonterms@[e.1 as int].prod_start as int];
                &&& e.0 == g.start@[i]@
                &&& (q.symbols@[0] matches Symbol::Nonterm(m) && m.0 < g.rules@.len()
                    && spec_rule_names(g)[m.0 as int] == g.start@[i]@)
            } by {
                let e0 = imap_entries(bnf0.starts)[i];
                assert(e0.0 == g.start@[i]@ && e0.1 < g.rules@.len()
                    && spec_rule_names(g)[e0.1 as int] == g.start@[i]@);
                assert(imap_entries(p.bnf.starts)[i].0 == e0.0);
                assert(p.bnf.prods@[p.bnf.nonterms@[
                    imap_entries(p.bnf.starts)[i].1 as int
                ].prod_start as int].symbols@ =~= seq![Symbol::Nonterm(NontermId(e0.1))]);
            }
        }
        Ok(p)
    }
}

} // verus!
