//! The lowered grammar: flat productions over numbered terminals and
//! nonterminals, the lowering from the DSL, and augmentation.
//!
//! The central invariants (kept by `st_wf` during lowering and by `bnf_wf`
//! afterwards) are: every production's `nonterm_id` equals the nonterminal
//! whose production range contains it, every production index is covered by
//! some range, every symbol references a live id, and — once lowering is done
//! — every nonterminal has a non-empty production range.
use vstd::prelude::*;
use crate::grammar::{
    Assoc, Grammar, Rule, RuleInner, RuleSepBy, grammar_valid, has_dup, names_of, rule_size,
    rule_valid, rules_size, rules_valid, spec_all_names, spec_rule_bodies, spec_rule_names,
    str_in, lemma_rules_size_element, lemma_rules_valid_element,
};
use crate::imap::{
    imap_contains, imap_entries, imap_get_index, imap_has_key, imap_insert_new, imap_len,
    imap_new,
};

verus! {

#[derive(Clone, Copy, PartialEq, Eq, Structural, Debug)]
pub struct TermId(pub u32);

#[derive(Clone, Copy, PartialEq, Eq, Structural, Debug, Hash)]
pub struct NontermId(pub u32);

#[derive(Clone, Copy, PartialEq, Eq, Structural, Debug)]
pub enum Symbol {
    Term(TermId),
    Nonterm(NontermId),
}

/// A nonterminal: its diagnostic name and the range of its productions in the
/// flat production list. An empty range (`prod_start == prod_end`) marks a
/// placeholder that lowering has reserved but not yet populated.
pub struct Nonterm {
    pub name: String,
    pub prod_start: usize,
    pub prod_end: usize,
}

/// The role a synthesized production plays when semantic values are
/// reconstructed. `Plain` marks a production the user wrote literally.
#[derive(Clone, Copy, PartialEq, Eq, Structural, Debug)]
pub enum ProdAction {
    Plain,
    /// `rule*  ->  ε`
    StartMany,
    /// `rule*  ->  rule* rule`
    ContinueMany,
    /// `rule+  ->  rule`
    StartMany1,
    /// `rule+  ->  rule+ rule`
    ContinueMany1,
    /// `rule?  ->  ε`
    EmptyOption,
    /// `rule?  ->  rule`
    NonemptyOption,
    /// `sepBy(sep, rule)  ->  ε`
    EmptySepBy,
    /// `sepBy(sep, rule)  ->  sepBy1(sep, rule)`
    NonemptySepBy,
    /// `sepBy1(sep, rule)  ->  rule`
    StartSepBy1,
    /// `sepBy1(sep, rule)  ->  sepBy1(sep, rule) sep rule`
    ContinueSepBy1,
}

pub struct Production {
    pub nonterm_id: NontermId,
    pub action: ProdAction,
    pub prec: Option<u16>,
    pub assoc: Assoc,
    pub symbols: Vec<Symbol>,
}

/// The lowered grammar.
pub struct Bnf {
    pub tokens: indexmap::IndexMap<String, u32>,
    pub starts: indexmap::IndexMap<String, u32>,
    pub nonterms: Vec<Nonterm>,
    pub prods: Vec<Production>,
}

// ---------------------------------------------------------------------------
// Well-formedness
// ---------------------------------------------------------------------------

/// A symbol references a live terminal or nonterminal.
pub open spec fn sym_wf(s: Symbol, n_terms: int, n_nonterms: int) -> bool {
    match s {
        Symbol::Term(t) => t.0 < n_terms,
        Symbol::Nonterm(n) => n.0 < n_nonterms,
    }
}

/// Every symbol of the production is live.
pub open spec fn prod_wf(p: Production, n_terms: int, n_nonterms: int) -> bool {
    forall|k: int| 0 <= k < p.symbols@.len() ==> sym_wf(#[trigger] p.symbols@[k], n_terms, n_nonterms)
}

/// A reserved placeholder whose productions are not yet assigned.
pub open spec fn nt_pending(nt: Nonterm) -> bool {
    nt.prod_start == nt.prod_end
}

/// A populated nonterminal: a non-empty production range.
pub open spec fn nt_complete(nt: Nonterm) -> bool {
    nt.prod_start < nt.prod_end
}

/// The lowering state: the nonterminal and production lists being built.
pub struct LowerSt {
    pub nonterms: Vec<Nonterm>,
    pub prods: Vec<Production>,
}

/// The construction invariant.
pub open spec fn st_wf(st: LowerSt, n_terms: int) -> bool {
    // ranges lie inside the production list
    &&& forall|i: int| 0 <= i < st.nonterms@.len()
        ==> (#[trigger] st.nonterms@[i]).prod_start <= st.nonterms@[i].prod_end
            && st.nonterms@[i].prod_end <= st.prods@.len()
    // a production inside a range names that range's nonterminal
    &&& forall|i: int, p: int| 0 <= i < st.nonterms@.len()
        && (#[trigger] st.nonterms@[i]).prod_start <= p < st.nonterms@[i].prod_end
        ==> (#[trigger] st.prods@[p]).nonterm_id.0 == i
    // every symbol is live
    &&& forall|p: int| 0 <= p < st.prods@.len()
        ==> prod_wf(#[trigger] st.prods@[p], n_terms, st.nonterms@.len() as int)
    // every production is covered by some range
    &&& forall|p: int| 0 <= p < st.prods@.len() ==> prod_covered(st.nonterms@, p)
}

/// Some nonterminal's range contains production `p`.
pub open spec fn prod_covered(nonterms: Seq<Nonterm>, p: int) -> bool {
    exists|i: int| 0 <= i < nonterms.len()
        && (#[trigger] nonterms[i]).prod_start <= p < nonterms[i].prod_end
}

/// The finished-BNF invariant: the construction invariant, with every
/// nonterminal populated, the token table a dense enumeration, and every
/// start bound to a live nonterminal.
pub open spec fn bnf_wf(b: Bnf) -> bool {
    &&& st_wf(LowerSt { nonterms: b.nonterms, prods: b.prods }, imap_entries(b.tokens).len() as int)
    &&& forall|i: int| 0 <= i < b.nonterms@.len() ==> nt_complete(#[trigger] b.nonterms@[i])
    &&& forall|i: int| 0 <= i < imap_entries(b.tokens).len()
        ==> (#[trigger] imap_entries(b.tokens)[i]).1 == i
    &&& forall|i: int| 0 <= i < imap_entries(b.starts).len()
        ==> (#[trigger] imap_entries(b.starts)[i]).1 < b.nonterms@.len()
}

// ---------------------------------------------------------------------------
// The symbol table used during lowering: an insertion-ordered association
// list from names to symbols, searched front to back.
// ---------------------------------------------------------------------------

/// The first symbol bound to `name`, if any.
pub open spec fn symtab_find(t: Seq<(String, Symbol)>, name: Seq<char>) -> Option<Symbol>
    decreases t,
{
    if t.len() == 0 {
        None
    } else if t[0].0@ == name {
        Some(t[0].1)
    } else {
        symtab_find(t.drop_first(), name)
    }
}

/// The names bound by the table, in order.
pub open spec fn symtab_keys(t: Seq<(String, Symbol)>) -> Seq<Seq<char>> {
    t.map_values(|p: (String, Symbol)| p.0@)
}

/// Every symbol in the table is live.
pub open spec fn symtab_wf(t: Seq<(String, Symbol)>, n_terms: int, n_nonterms: int) -> bool {
    forall|i: int| 0 <= i < t.len() ==> sym_wf((#[trigger] t[i]).1, n_terms, n_nonterms)
}

/// A find that hits yields a binding of the table, under the looked-up name.
pub proof fn lemma_symtab_find_wf(t: Seq<(String, Symbol)>, name: Seq<char>)
    ensures
        symtab_find(t, name) matches Some(s)
            ==> exists|i: int| 0 <= i < t.len() && (#[trigger] t[i]).1 == s
                && t[i].0@ == name,
    decreases t,
{
    if t.len() > 0 && t[0].0@ != name {
        lemma_symtab_find_wf(t.drop_first(), name);
        if symtab_find(t, name) is Some {
            let i = choose|i: int| 0 <= i < t.drop_first().len()
                && (#[trigger] t.drop_first()[i]).1 == symtab_find(t, name)->Some_0
                && t.drop_first()[i].0@ == name;
            assert(t[i + 1].1 == symtab_find(t, name)->Some_0 && t[i + 1].0@ == name);
        }
    }
}

/// `find` hits exactly when the name is among the keys.
pub proof fn lemma_symtab_find_some(t: Seq<(String, Symbol)>, name: Seq<char>)
    ensures
        (symtab_find(t, name) is Some) == str_in(symtab_keys(t), name),
    decreases t,
{
    if t.len() > 0 {
        lemma_symtab_find_some(t.drop_first(), name);
        assert(symtab_keys(t.drop_first()) =~= symtab_keys(t).drop_first());
        if t[0].0@ == name {
            assert(symtab_keys(t)[0] == name);
        } else {
            if str_in(symtab_keys(t), name) {
                let i = choose|i: int| 0 <= i < symtab_keys(t).len() && symtab_keys(t)[i] == name;
                assert(i != 0);
                assert(symtab_keys(t).drop_first()[i - 1] == name);
            }
            if str_in(symtab_keys(t).drop_first(), name) {
                let i = choose|i: int|
                    0 <= i < symtab_keys(t).drop_first().len()
                        && symtab_keys(t).drop_first()[i] == name;
                assert(symtab_keys(t)[i + 1] == name);
            }
        }
    }
}

/// When the first match is at position `i`, `find` returns that binding.
pub proof fn lemma_symtab_find_at(t: Seq<(String, Symbol)>, name: Seq<char>, i: int)
    requires
        0 <= i < t.len(),
        t[i].0@ == name,
        forall|k: int| 0 <= k < i ==> (#[trigger] t[k]).0@ != name,
    ensures
        symtab_find(t, name) == Some(t[i].1),
    decreases t,
{
    if i > 0 {
        lemma_symtab_find_at(t.drop_first(), name, i - 1);
    }
}

// ---------------------------------------------------------------------------
// Lowering-step contracts
// ---------------------------------------------------------------------------

/// What every lowering step guarantees: the invariant still holds, both lists
/// only grow, productions already present are unchanged, nonterminals already
/// present are unchanged except possibly the one at `id`, and every newly
/// created nonterminal other than `id` is complete. Steps that populate no
/// reserved nonterminal pass `-1` for `id`.
pub open spec fn lower_step(st1: LowerSt, st2: LowerSt, id: int, n_terms: int) -> bool {
    &&& st_wf(st2, n_terms)
    &&& st1.nonterms@.len() <= st2.nonterms@.len()
    &&& st1.prods@.len() <= st2.prods@.len()
    &&& forall|p: int| 0 <= p < st1.prods@.len() ==> st2.prods@[p] == st1.prods@[p]
    &&& forall|j: int| 0 <= j < st1.nonterms@.len() && j != id
        ==> st2.nonterms@[j] == st1.nonterms@[j]
    &&& forall|j: int| st1.nonterms@.len() <= j < st2.nonterms@.len() && j != id
        ==> nt_complete(#[trigger] st2.nonterms@[j])
}

/// The reserved placeholder that a lookup of `name` may reuse: the pending
/// nonterminal the symbol table binds the name to, if any.
pub open spec fn reserve_target(st: LowerSt, t: Seq<(String, Symbol)>, name: Seq<char>) -> Option<
    int,
> {
    match symtab_find(t, name) {
        Some(Symbol::Nonterm(id)) => if id.0 < st.nonterms@.len()
            && nt_pending(st.nonterms@[id.0 as int]) {
            Some(id.0 as int)
        } else {
            Option::None
        },
        _ => Option::None,
    }
}

/// A production with the given LHS, action and symbols, and no precedence.
pub open spec fn prod_is(p: Production, id: int, action: ProdAction, syms: Seq<Symbol>) -> bool {
    &&& p.nonterm_id.0 == id
    &&& p.action == action
    &&& p.prec is None
    &&& p.assoc == Assoc::Nonassoc
    &&& p.symbols@ == syms
}

/// The two canonical productions of a `many` nonterminal:
/// `A* -> ε` and `A* -> A* A`.
pub open spec fn is_many_shape(st: LowerSt, id: int) -> bool {
    let s = st.nonterms@[id].prod_start as int;
    &&& 0 <= id < st.nonterms@.len()
    &&& st.nonterms@[id].prod_end == st.nonterms@[id].prod_start + 2
    &&& st.nonterms@[id].prod_end <= st.prods@.len()
    &&& prod_is(st.prods@[s], id, ProdAction::StartMany, Seq::empty())
    &&& st.prods@[s + 1].nonterm_id.0 == id
    &&& st.prods@[s + 1].action == ProdAction::ContinueMany
    &&& st.prods@[s + 1].prec is None
    &&& st.prods@[s + 1].symbols@.len() == 2
    &&& st.prods@[s + 1].symbols@[0] == Symbol::Nonterm(NontermId(id as u32))
}

/// The two canonical productions of a `many1` nonterminal:
/// `A+ -> A` and `A+ -> A+ A`.
pub open spec fn is_many1_shape(st: LowerSt, id: int) -> bool {
    let s = st.nonterms@[id].prod_start as int;
    &&& 0 <= id < st.nonterms@.len()
    &&& st.nonterms@[id].prod_end == st.nonterms@[id].prod_start + 2
    &&& st.nonterms@[id].prod_end <= st.prods@.len()
    &&& st.prods@[s].nonterm_id.0 == id
    &&& st.prods@[s].action == ProdAction::StartMany1
    &&& st.prods@[s].prec is None
    &&& st.prods@[s].symbols@.len() == 1
    &&& st.prods@[s + 1].nonterm_id.0 == id
    &&& st.prods@[s + 1].action == ProdAction::ContinueMany1
    &&& st.prods@[s + 1].prec is None
    &&& st.prods@[s + 1].symbols@ =~= seq![
        Symbol::Nonterm(NontermId(id as u32)),
        st.prods@[s].symbols@[0],
    ]
}

/// The two canonical productions of an `option` nonterminal:
/// `A? -> ε` and `A? -> A`.
pub open spec fn is_option_shape(st: LowerSt, id: int) -> bool {
    let s = st.nonterms@[id].prod_start as int;
    &&& 0 <= id < st.nonterms@.len()
    &&& st.nonterms@[id].prod_end == st.nonterms@[id].prod_start + 2
    &&& st.nonterms@[id].prod_end <= st.prods@.len()
    &&& prod_is(st.prods@[s], id, ProdAction::EmptyOption, Seq::empty())
    &&& st.prods@[s + 1].nonterm_id.0 == id
    &&& st.prods@[s + 1].action == ProdAction::NonemptyOption
}

/// The two canonical productions of a `sepBy1` nonterminal:
/// `B -> A` and `B -> B sep A`.
pub open spec fn is_sep_by1_shape(st: LowerSt, id: int) -> bool {
    let s = st.nonterms@[id].prod_start as int;
    &&& 0 <= id < st.nonterms@.len()
    &&& st.nonterms@[id].prod_end == st.nonterms@[id].prod_start + 2
    &&& st.nonterms@[id].prod_end <= st.prods@.len()
    &&& st.prods@[s].nonterm_id.0 == id
    &&& st.prods@[s].action == ProdAction::StartSepBy1
    &&& st.prods@[s].prec is None
    &&& st.prods@[s].symbols@.len() == 1
    &&& st.prods@[s + 1].nonterm_id.0 == id
    &&& st.prods@[s + 1].action == ProdAction::ContinueSepBy1
    &&& st.prods@[s + 1].prec is None
    &&& st.prods@[s + 1].symbols@.len() == 3
    &&& st.prods@[s + 1].symbols@[0] == Symbol::Nonterm(NontermId(id as u32))
    &&& st.prods@[s + 1].symbols@[2] == st.prods@[s].symbols@[0]
}

/// The two canonical productions of a `sepBy` nonterminal: the empty
/// production and a single reference to a `sepBy1` nonterminal.
pub open spec fn is_sep_by_shape(st: LowerSt, id: int) -> bool {
    let s = st.nonterms@[id].prod_start as int;
    &&& 0 <= id < st.nonterms@.len()
    &&& st.nonterms@[id].prod_end == st.nonterms@[id].prod_start + 2
    &&& st.nonterms@[id].prod_end <= st.prods@.len()
    &&& prod_is(st.prods@[s], id, ProdAction::EmptySepBy, Seq::empty())
    &&& st.prods@[s + 1].nonterm_id.0 == id
    &&& st.prods@[s + 1].action == ProdAction::NonemptySepBy
    &&& st.prods@[s + 1].symbols@.len() == 1
    &&& (st.prods@[s + 1].symbols@[0] matches Symbol::Nonterm(m) && is_sep_by1_shape(st,
        m.0 as int))
}

/// The state view of a finished BNF, for the shape predicates.
pub open spec fn bnf_st(b: Bnf) -> LowerSt {
    LowerSt { nonterms: b.nonterms, prods: b.prods }
}

/// Shape facts survive later lowering steps that do not touch the
/// nonterminal: its range and the productions in it are unchanged. The
/// possibly populated nonterminal must still be a placeholder (or out of
/// range) beforehand, so it cannot be a shaped one.
pub proof fn lemma_shapes_stable(st1: LowerSt, st2: LowerSt, id: int, exempt: int, n_terms: int)
    requires
        lower_step(st1, st2, exempt, n_terms),
        st_wf(st1, n_terms),
        0 <= id < st1.nonterms@.len(),
        id != exempt,
        nt_complete(st1.nonterms@[id]),
        0 <= exempt < st1.nonterms@.len() ==> nt_pending(st1.nonterms@[exempt]),
    ensures
        is_many_shape(st1, id) ==> is_many_shape(st2, id),
        is_many1_shape(st1, id) ==> is_many1_shape(st2, id),
        is_option_shape(st1, id) ==> is_option_shape(st2, id),
        is_sep_by1_shape(st1, id) ==> is_sep_by1_shape(st2, id),
        is_sep_by_shape(st1, id) ==> is_sep_by_shape(st2, id),
{
    assert(st2.nonterms@[id] == st1.nonterms@[id]);
    if is_sep_by_shape(st1, id) {
        let s = st1.nonterms@[id].prod_start as int;
        match st1.prods@[s + 1].symbols@[0] {
            Symbol::Nonterm(m) => {
                assert(is_sep_by1_shape(st1, m.0 as int));
                assert(nt_complete(st1.nonterms@[m.0 as int]));
                assert(m.0 != exempt);
                assert(st2.nonterms@[m.0 as int] == st1.nonterms@[m.0 as int]);
                assert(is_sep_by1_shape(st2, m.0 as int));
            },
            _ => {},
        }
    }
}

/// The ranks that order the mutually recursive lowering functions when the
/// rule size ties.
pub open spec fn rank_nt(r: RuleInner) -> int {
    match r {
        RuleInner::Sym(_) => 2,
        RuleInner::Sequence(_) => 1,
        RuleInner::SepBy(_) => 3,
        _ => 0,
    }
}

pub open spec fn rank_pr(r: RuleInner) -> int {
    match r {
        RuleInner::Sym(_) => 1,
        RuleInner::Sequence(_) => 0,
        RuleInner::SepBy(_) => 5,
        _ => 2,
    }
}

pub open spec fn rank_sym(r: RuleInner) -> int {
    match r {
        RuleInner::Sym(_) => 0,
        RuleInner::Sequence(_) => 2,
        RuleInner::SepBy(_) => 4,
        _ => 1,
    }
}

/// A list of rules is at least as large as its length.
pub proof fn lemma_rules_size_ge_len(rs: Seq<RuleInner>)
    ensures
        rules_size(rs) >= rs.len(),
    decreases rs,
{
    if rs.len() > 0 {
        lemma_rule_size_pos(rs[0]);
        lemma_rules_size_ge_len(rs.drop_first());
    }
}

/// Every rule has positive size.
pub proof fn lemma_rule_size_pos(r: RuleInner)
    ensures
        rule_size(r) >= 1,
{
}

// ---------------------------------------------------------------------------
// Lowering helpers
// ---------------------------------------------------------------------------

/// A production with no precedence.
fn mk_prod(id: u32, action: ProdAction, symbols: Vec<Symbol>) -> (p: Production)
    ensures
        p.nonterm_id.0 == id,
        p.action == action,
        p.prec is None,
        p.assoc == Assoc::Nonassoc,
        p.symbols == symbols,
{
    Production { nonterm_id: NontermId(id), action, prec: None, assoc: Assoc::Nonassoc, symbols }
}

/// Copies a symbol vector element by element.
#[verifier::loop_isolation(false)]
fn copy_symbols(v: &Vec<Symbol>) -> (r: Vec<Symbol>)
    ensures
        r@ == v@,
{
    let mut out: Vec<Symbol> = Vec::new();
    let mut i: usize = 0;
    while i < v.len()
        invariant
            i <= v@.len(),
            out@ == v@.subrange(0, i as int),
        decreases v@.len() - i,
    {
        out.push(v[i]);
        proof {
            assert(out@ =~= v@.subrange(0, i + 1));
        }
        i = i + 1;
    }
    proof {
        assert(out@ =~= v@);
    }
    out
}

/// Stamps a precedence level and associativity onto the productions in
/// `start .. end`; everything else about them is kept.
#[verifier::loop_isolation(false)]
fn stamp_range(
    st: LowerSt,
    start: usize,
    end: usize,
    level: u16,
    assoc: Assoc,
    Ghost(n_terms): Ghost<int>,
) -> (st2: LowerSt)
    requires
        st_wf(st, n_terms),
        start <= end <= st.prods@.len(),
    ensures
        st_wf(st2, n_terms),
        st2.nonterms == st.nonterms,
        st2.prods@.len() == st.prods@.len(),
        forall|p: int| 0 <= p < st.prods@.len() && !(start <= p < end)
            ==> st2.prods@[p] == st.prods@[p],
        forall|p: int| start <= p < end ==> {
            &&& (#[trigger] st2.prods@[p]).nonterm_id == st.prods@[p].nonterm_id
            &&& st2.prods@[p].action == st.prods@[p].action
            &&& st2.prods@[p].symbols@ == st.prods@[p].symbols@
            &&& st2.prods@[p].prec == Some(level)
            &&& st2.prods@[p].assoc == assoc
        },
{
    let ghost orig = st.prods@;
    let ghost orig_nts = st.nonterms;
    let mut st = st;
    let mut p: usize = start;
    while p < end
        invariant
            start <= p <= end,
            st.nonterms == orig_nts,
            st.prods@.len() == orig.len(),
            forall|q: int| 0 <= q < orig.len() && !(start <= q < p) ==> st.prods@[q] == orig[q],
            forall|q: int| start <= q < p ==> {
                &&& (#[trigger] st.prods@[q]).nonterm_id == orig[q].nonterm_id
                &&& st.prods@[q].action == orig[q].action
                &&& st.prods@[q].symbols@ == orig[q].symbols@
                &&& st.prods@[q].prec == Some(level)
                &&& st.prods@[q].assoc == assoc
            },
        decreases end - p,
    {
        let nid: NontermId = st.prods[p].nonterm_id;
        let act: ProdAction = st.prods[p].action;
        let syms: Vec<Symbol> = copy_symbols(&st.prods[p].symbols);
        st.prods.set(p, Production {
            nonterm_id: nid,
            action: act,
            prec: Some(level),
            assoc,
            symbols: syms,
        });
        p = p + 1;
    }
    proof {
        assert forall|q: int| 0 <= q < st.prods@.len() implies prod_covered(st.nonterms@, q)
            && prod_wf(st.prods@[q], n_terms, st.nonterms@.len() as int) by {
            assert(st.prods@[q].symbols@ == orig[q].symbols@);
        }
    }
    st
}

/// What reserving a nonterminal for `name` guarantees: under `reuse`, a
/// pending placeholder the table binds the name to is picked up; otherwise a
/// fresh placeholder is pushed.
pub open spec fn reserve_post(
    st: LowerSt,
    st2: LowerSt,
    id: u32,
    t: Seq<(String, Symbol)>,
    name: Seq<char>,
    reuse: bool,
) -> bool {
    &&& st2.prods == st.prods
    &&& (id as int) < st2.nonterms@.len()
    &&& nt_pending(st2.nonterms@[id as int])
    &&& if reuse && reserve_target(st, t, name) is Some {
        &&& id as int == reserve_target(st, t, name)->Some_0
        &&& st2.nonterms == st.nonterms
    } else {
        &&& id as int == st.nonterms@.len()
        &&& st2.nonterms@.len() == st.nonterms@.len() + 1
        &&& forall|j: int| 0 <= j < st.nonterms@.len()
            ==> st2.nonterms@[j] == st.nonterms@[j]
    }
}

/// Reserves the nonterminal that `name`'s rule will populate: the pre-reserved
/// pending placeholder when `reuse` allows and the table has one, else a fresh
/// placeholder. Synthesized nonterminals never reuse, so a name collision
/// cannot capture a user nonterminal.
pub fn gen_rep_nonterm(
    st: LowerSt,
    symbols: &Vec<(String, Symbol)>,
    name: &String,
    reuse: bool,
    Ghost(n_terms): Ghost<int>,
) -> (r: (LowerSt, u32))
    requires
        st_wf(st, n_terms),
        st.nonterms@.len() < u32::MAX,
    ensures
        st_wf(r.0, n_terms),
        reserve_post(st, r.0, r.1, symbols@, name@, reuse),
{
    let mut st = st;
    if reuse {
        match symtab_get(symbols, name) {
            Some(Symbol::Nonterm(nid)) => {
                let ix = nid.0 as usize;
                if ix < st.nonterms.len() && st.nonterms[ix].prod_start
                    == st.nonterms[ix].prod_end {
                    return (st, nid.0);
                }
            },
            _ => {},
        }
    }
    let ghost st1 = st;
    let id: u32 = st.nonterms.len() as u32;
    st.nonterms.push(Nonterm { name: String::new(), prod_start: 0, prod_end: 0 });
    proof {
        assert forall|p: int| 0 <= p < st.prods@.len() implies prod_covered(st.nonterms@, p)
            && prod_wf(st.prods@[p], n_terms, st.nonterms@.len() as int) by {
            assert(prod_covered(st1.nonterms@, p));
            let i = choose|i: int| 0 <= i < st1.nonterms@.len()
                && (#[trigger] st1.nonterms@[i]).prod_start <= p < st1.nonterms@[i].prod_end;
            assert(st.nonterms@[i] == st1.nonterms@[i]);
            assert(prod_covered(st.nonterms@, p));
            assert(prod_wf(st1.prods@[p], n_terms, st1.nonterms@.len() as int));
            assert forall|l: int| 0 <= l < st.prods@[p].symbols@.len() implies sym_wf(
                #[trigger] st.prods@[p].symbols@[l], n_terms, st.nonterms@.len() as int) by {
                assert(sym_wf(st1.prods@[p].symbols@[l], n_terms, st1.nonterms@.len() as int));
            }
        }
    }
    (st, id)
}

/// Populates a pending nonterminal: appends its production block (patching
/// each production's LHS to `id`) and assigns the block as its range.
#[verifier::loop_isolation(false)]
pub fn finish_nonterm(
    st: LowerSt,
    id: u32,
    name: String,
    block: Vec<Production>,
    Ghost(n_terms): Ghost<int>,
) -> (st2: LowerSt)
    requires
        st_wf(st, n_terms),
        (id as int) < st.nonterms@.len(),
        nt_pending(st.nonterms@[id as int]),
        block@.len() >= 1,
        st.prods@.len() + block@.len() <= usize::MAX,
        forall|k: int| 0 <= k < block@.len()
            ==> prod_wf(#[trigger] block@[k], n_terms, st.nonterms@.len() as int),
    ensures
        st_wf(st2, n_terms),
        st2.nonterms@.len() == st.nonterms@.len(),
        forall|j: int| 0 <= j < st.nonterms@.len() && j != id
            ==> st2.nonterms@[j] == st.nonterms@[j],
        st2.nonterms@[id as int].prod_start == st.prods@.len(),
        st2.nonterms@[id as int].prod_end == st.prods@.len() + block@.len(),
        st2.nonterms@[id as int].name@ == name@,
        nt_complete(st2.nonterms@[id as int]),
        st2.prods@.len() == st.prods@.len() + block@.len(),
        forall|p: int| 0 <= p < st.prods@.len() ==> st2.prods@[p] == st.prods@[p],
        forall|k: int| 0 <= k < block@.len() ==> {
            let q = #[trigger] st2.prods@[st.prods@.len() + k];
            &&& q.nonterm_id.0 == id
            &&& q.action == block@[k].action
            &&& q.prec == block@[k].prec
            &&& q.assoc == block@[k].assoc
            &&& q.symbols@ == block@[k].symbols@
        },
{
    let ghost orig_prods = st.prods@;
    let ghost orig_nts = st.nonterms;
    let ghost orig_block = block@;
    let start: usize = st.prods.len();
    let blen: usize = block.len();
    let mut st = st;
    let mut block = block;
    let mut k: usize = 0;
    while block.len() > 0
        invariant
            st.nonterms == orig_nts,
            k + block@.len() == orig_block.len(),
            k == st.prods@.len() - orig_prods.len(),
            block@ == orig_block.subrange(k as int, orig_block.len() as int),
            forall|p: int| 0 <= p < orig_prods.len() ==> st.prods@[p] == orig_prods[p],
            forall|j: int| 0 <= j < k ==> {
                let q = #[trigger] st.prods@[orig_prods.len() + j];
                &&& q.nonterm_id.0 == id
                &&& q.action == orig_block[j].action
                &&& q.prec == orig_block[j].prec
                &&& q.assoc == orig_block[j].assoc
                &&& q.symbols@ == orig_block[j].symbols@
            },
        decreases block@.len(),
    {
        let mut p = block.remove(0);
        proof {
            assert(block@ =~= orig_block.subrange(k as int + 1, orig_block.len() as int));
        }
        p.nonterm_id = NontermId(id);
        st.prods.push(p);
        k = k + 1;
    }
    st.nonterms.set(id as usize, Nonterm { name, prod_start: start, prod_end: start + blen });
    proof {
        let st2 = st;
        assert forall|p: int| 0 <= p < st2.prods@.len() implies prod_covered(st2.nonterms@,
            p) by {
            if p < orig_prods.len() {
                assert(prod_covered(orig_nts@, p));
                let i = choose|i: int| 0 <= i < orig_nts@.len()
                    && (#[trigger] orig_nts@[i]).prod_start <= p < orig_nts@[i].prod_end;
                assert(i != id);
                assert(st2.nonterms@[i] == orig_nts@[i]);
            } else {
                assert(st2.nonterms@[id as int].prod_start <= p
                    < st2.nonterms@[id as int].prod_end);
            }
        }
        assert forall|p: int| 0 <= p < st2.prods@.len() implies prod_wf(
            #[trigger] st2.prods@[p], n_terms, st2.nonterms@.len() as int) by {
            if p < orig_prods.len() {
                assert(st2.prods@[p] == orig_prods[p]);
                assert(prod_wf(orig_prods[p], n_terms, orig_nts@.len() as int));
            } else {
                let j = p - orig_prods.len();
                assert(st2.prods@[orig_prods.len() + j].symbols@ == orig_block[j].symbols@);
                assert(prod_wf(orig_block[j], n_terms, orig_nts@.len() as int));
                assert forall|l: int| 0 <= l < st2.prods@[p].symbols@.len() implies sym_wf(
                    #[trigger] st2.prods@[p].symbols@[l], n_terms,
                    st2.nonterms@.len() as int) by {
                    assert(st2.prods@[p].symbols@[l] == orig_block[j].symbols@[l]);
                    assert(sym_wf(orig_block[j].symbols@[l], n_terms, orig_nts@.len() as int));
                }
            }
        }
        assert forall|i: int, p: int| 0 <= i < st2.nonterms@.len()
            && (#[trigger] st2.nonterms@[i]).prod_start <= p < st2.nonterms@[i].prod_end
            implies (#[trigger] st2.prods@[p]).nonterm_id.0 == i by {
            if i != id {
                assert(st2.nonterms@[i] == orig_nts@[i]);
                assert(p < orig_prods.len());
                assert(st2.prods@[p] == orig_prods[p]);
            } else {
                let j = p - orig_prods.len();
                assert(st2.prods@[orig_prods.len() + j].nonterm_id.0 == id);
            }
        }
        assert(st_wf(st2, n_terms));
    }
    st
}


/// The symbol a rule lowers to in symbol position: a named `Sym` resolves to
/// the table's binding for that name; anything else becomes a nonterminal
/// freshly created during the step (its id in `lo .. hi`).
pub open spec fn sym_matches_rule(
    t: Seq<(String, Symbol)>,
    s: Symbol,
    r: RuleInner,
    lo: int,
    hi: int,
) -> bool {
    match r {
        RuleInner::Sym(nm) => Some(s) == symtab_find(t, nm@),
        _ => (s matches Symbol::Nonterm(m) && lo <= m.0 < hi),
    }
}

/// The symbols a rule lowers to in production position: a sequence maps its
/// subrules in order, a precedence wrapper lowers its inner rule, and
/// anything else becomes exactly one symbol.
pub open spec fn prod_syms_match_rule(
    t: Seq<(String, Symbol)>,
    p: Production,
    r: RuleInner,
    lo: int,
    hi: int,
) -> bool
    decreases r,
{
    match r {
        RuleInner::Sequence(rs) => p.symbols@.len() == rs@.len() && forall|k: int|
            0 <= k < rs@.len() ==> sym_matches_rule(t, p.symbols@[k], #[trigger] rs@[k], lo, hi),
        RuleInner::Prec(b) => prod_syms_match_rule(t, p, b.rule, lo, hi),
        _ => p.symbols@.len() == 1 && sym_matches_rule(t, p.symbols@[0], r, lo, hi),
    }
}

/// Wider id bounds keep a symbol match.
pub proof fn lemma_sym_match_widen(
    t: Seq<(String, Symbol)>,
    s: Symbol,
    r: RuleInner,
    lo1: int,
    hi1: int,
    lo2: int,
    hi2: int,
)
    requires
        sym_matches_rule(t, s, r, lo1, hi1),
        lo2 <= lo1,
        hi1 <= hi2,
    ensures
        sym_matches_rule(t, s, r, lo2, hi2),
{
}

/// Wider id bounds keep a production match.
pub proof fn lemma_prod_syms_match_widen(
    t: Seq<(String, Symbol)>,
    p: Production,
    r: RuleInner,
    lo1: int,
    hi1: int,
    lo2: int,
    hi2: int,
)
    requires
        prod_syms_match_rule(t, p, r, lo1, hi1),
        lo2 <= lo1,
        hi1 <= hi2,
    ensures
        prod_syms_match_rule(t, p, r, lo2, hi2),
    decreases r,
{
    match r {
        RuleInner::Sequence(rs) => {
            assert forall|k: int| 0 <= k < rs@.len() implies sym_matches_rule(t, p.symbols@[k],
                #[trigger] rs@[k], lo2, hi2) by {
                lemma_sym_match_widen(t, p.symbols@[k], rs@[k], lo1, hi1, lo2, hi2);
            }
        },
        RuleInner::Prec(b) => {
            lemma_prod_syms_match_widen(t, p, b.rule, lo1, hi1, lo2, hi2);
        },
        _ => {},
    }
}

/// A production match depends only on the symbols.
pub proof fn lemma_prod_syms_match_only_symbols(
    t: Seq<(String, Symbol)>,
    p1: Production,
    p2: Production,
    r: RuleInner,
    lo: int,
    hi: int,
)
    requires
        prod_syms_match_rule(t, p1, r, lo, hi),
        p2.symbols@ == p1.symbols@,
    ensures
        prod_syms_match_rule(t, p2, r, lo, hi),
    decreases r,
{
    match r {
        RuleInner::Prec(b) => {
            lemma_prod_syms_match_only_symbols(t, p1, p2, b.rule, lo, hi);
        },
        _ => {},
    }
}

/// The item symbol of a `many` nonterminal (in its recursive production).
pub open spec fn many_item(st: LowerSt, id: int) -> Symbol {
    st.prods@[st.nonterms@[id].prod_start + 1].symbols@[1]
}

/// The item symbol of a `many1` or `sepBy1` nonterminal (in its start
/// production).
pub open spec fn rep_item(st: LowerSt, id: int) -> Symbol {
    st.prods@[st.nonterms@[id].prod_start as int].symbols@[0]
}

/// The separator symbol of a `sepBy1` nonterminal.
pub open spec fn sep_item(st: LowerSt, id: int) -> Symbol {
    st.prods@[st.nonterms@[id].prod_start + 1].symbols@[1]
}

/// The `sepBy1` reference of a `sepBy` nonterminal.
pub open spec fn sep_by_ref(st: LowerSt, id: int) -> Symbol {
    st.prods@[st.nonterms@[id].prod_start + 1].symbols@[0]
}

/// A promoted symbol: a nonterminal with a single default-action production
/// rewriting to the promoted target, stamped with a precedence level and
/// associativity.
pub open spec fn is_promoted_sym(
    st: LowerSt,
    id: int,
    level: u16,
    assoc: Assoc,
    target: Symbol,
) -> bool {
    let s = st.nonterms@[id].prod_start as int;
    &&& 0 <= id < st.nonterms@.len()
    &&& st.nonterms@[id].prod_end == st.nonterms@[id].prod_start + 1
    &&& st.nonterms@[id].prod_end <= st.prods@.len()
    &&& st.prods@[s].nonterm_id.0 == id
    &&& st.prods@[s].action == ProdAction::Plain
    &&& st.prods@[s].prec == Some(level)
    &&& st.prods@[s].assoc == assoc
    &&& st.prods@[s].symbols@ == seq![target]
}

/// One plain production spelling out the rule.
pub open spec fn single_plain_prod(
    t: Seq<(String, Symbol)>,
    st: LowerSt,
    id: int,
    r: RuleInner,
    lo: int,
    hi: int,
) -> bool {
    let nt = st.nonterms@[id];
    let q = st.prods@[nt.prod_start as int];
    &&& nt.prod_end == nt.prod_start + 1
    &&& q.action == ProdAction::Plain
    &&& q.prec is None
    &&& q.assoc == Assoc::Nonassoc
    &&& prod_syms_match_rule(t, q, r, lo, hi)
}

/// One plain production per alternative, in order, each carrying the
/// precedence stamp of its own `Prec` wrapper if it has one. An empty
/// alternative list lowers to a single ε production.
pub open spec fn or_block_matches(
    t: Seq<(String, Symbol)>,
    st: LowerSt,
    id: int,
    alts: Seq<RuleInner>,
    lo: int,
    hi: int,
) -> bool {
    let nt = st.nonterms@[id];
    &&& nt.prod_end - nt.prod_start == if alts.len() == 0 {
        1int
    } else {
        alts.len() as int
    }
    &&& forall|k: int| 0 <= k < alts.len() ==> {
        let q = st.prods@[nt.prod_start + k];
        &&& q.action == ProdAction::Plain
        &&& prod_syms_match_rule(t, q, #[trigger] alts[k], lo, hi)
        &&& match alts[k] {
            RuleInner::Prec(b) => q.prec == Some(b.prec) && q.assoc == b.assoc,
            _ => q.prec is None && q.assoc == Assoc::Nonassoc,
        }
    }
}

/// A precedence wrapper around a bare symbol reference.
pub open spec fn is_prec_of_sym(rule: RuleInner) -> bool {
    match rule {
        RuleInner::Prec(b) => b.rule is Sym,
        _ => false,
    }
}

/// What the nonterminal lowered for a rule holds: the per-variant canonical
/// production content, with subrule symbols bound through `sym_matches_rule`.
#[verifier::opaque]
pub open spec fn lowered_nt_matches(
    t: Seq<(String, Symbol)>,
    st: LowerSt,
    id: int,
    r: RuleInner,
    lo: int,
    hi: int,
) -> bool {
    match r {
        RuleInner::Sym(_) => single_plain_prod(t, st, id, r, lo, hi),
        RuleInner::Sequence(_) => single_plain_prod(t, st, id, r, lo, hi),
        RuleInner::Or(rs) => or_block_matches(t, st, id, rs@, lo, hi),
        RuleInner::Many(bx) => is_many_shape(st, id)
            && sym_matches_rule(t, many_item(st, id), bx.rule, lo, hi),
        RuleInner::Many1(bx) => is_many1_shape(st, id)
            && sym_matches_rule(t, rep_item(st, id), bx.rule, lo, hi),
        RuleInner::Opt(bx) => is_option_shape(st, id)
            && prod_syms_match_rule(t, st.prods@[st.nonterms@[id].prod_start + 1], bx.rule,
                lo, hi),
        RuleInner::SepBy(bx) => is_sep_by_shape(st, id)
            && (sep_by_ref(st, id) matches Symbol::Nonterm(m)
                && sym_matches_rule(t, rep_item(st, m.0 as int), bx.rule, lo, hi)
                && sym_matches_rule(t, sep_item(st, m.0 as int), bx.sep, lo, hi)),
        RuleInner::SepBy1(bx) => is_sep_by1_shape(st, id)
            && sym_matches_rule(t, rep_item(st, id), bx.rule, lo, hi)
            && sym_matches_rule(t, sep_item(st, id), bx.sep, lo, hi),
        RuleInner::Prec(_) => true,
    }
}

/// Wider id bounds keep the lowered content.
pub proof fn lemma_lowered_nt_widen(
    t: Seq<(String, Symbol)>,
    st: LowerSt,
    id: int,
    r: RuleInner,
    lo1: int,
    hi1: int,
    lo2: int,
    hi2: int,
)
    requires
        lowered_nt_matches(t, st, id, r, lo1, hi1),
        lo2 <= lo1,
        hi1 <= hi2,
    ensures
        lowered_nt_matches(t, st, id, r, lo2, hi2),
{
    reveal(lowered_nt_matches);
    match r {
        RuleInner::Sym(_) => {
            lemma_prod_syms_match_widen(t, st.prods@[st.nonterms@[id].prod_start as int], r,
                lo1, hi1, lo2, hi2);
        },
        RuleInner::Sequence(_) => {
            lemma_prod_syms_match_widen(t, st.prods@[st.nonterms@[id].prod_start as int], r,
                lo1, hi1, lo2, hi2);
        },
        RuleInner::Or(rs) => {
            assert forall|k: int| 0 <= k < rs@.len() implies {
                let q = st.prods@[st.nonterms@[id].prod_start + k];
                &&& q.action == ProdAction::Plain
                &&& prod_syms_match_rule(t, q, #[trigger] rs@[k], lo2, hi2)
                &&& match rs@[k] {
                    RuleInner::Prec(bp) => q.prec == Some(bp.prec) && q.assoc == bp.assoc,
                    _ => q.prec is None && q.assoc == Assoc::Nonassoc,
                }
            } by {
                lemma_prod_syms_match_widen(t,
                    st.prods@[st.nonterms@[id].prod_start + k], rs@[k], lo1, hi1, lo2, hi2);
            }
        },
        RuleInner::Many(bx) => {
            lemma_sym_match_widen(t, many_item(st, id), bx.rule, lo1, hi1, lo2, hi2);
        },
        RuleInner::Many1(bx) => {
            lemma_sym_match_widen(t, rep_item(st, id), bx.rule, lo1, hi1, lo2, hi2);
        },
        RuleInner::Opt(bx) => {
            lemma_prod_syms_match_widen(t, st.prods@[st.nonterms@[id].prod_start + 1],
                bx.rule, lo1, hi1, lo2, hi2);
        },
        RuleInner::SepBy(bx) => {
            match sep_by_ref(st, id) {
                Symbol::Nonterm(m) => {
                    lemma_sym_match_widen(t, rep_item(st, m.0 as int), bx.rule, lo1, hi1,
                        lo2, hi2);
                    lemma_sym_match_widen(t, sep_item(st, m.0 as int), bx.sep, lo1, hi1,
                        lo2, hi2);
                },
                _ => {},
            }
        },
        RuleInner::SepBy1(bx) => {
            lemma_sym_match_widen(t, rep_item(st, id), bx.rule, lo1, hi1, lo2, hi2);
            lemma_sym_match_widen(t, sep_item(st, id), bx.sep, lo1, hi1, lo2, hi2);
        },
        RuleInner::Prec(_) => {},
    }
}

/// Lowers a rule that stands in symbol position: a named `Sym` resolves to
/// the existing symbol; anything else becomes a fresh synthesized
/// nonterminal. `Prec` around a bare `Sym` promotes the symbol to a fresh
/// nonterminal so the precedence stamp cannot leak into other uses.
#[verifier::loop_isolation(false)]
#[verifier::rlimit(60)]
#[verifier::spinoff_prover]
pub fn gen_sym(
    st: LowerSt,
    symbols: &Vec<(String, Symbol)>,
    rule: RuleInner,
    Ghost(n_terms): Ghost<int>,
) -> (r: (LowerSt, Symbol))
    requires
        gen_pre(st, symbols@, rule, n_terms),
    ensures
        ({
            let (st2, sym) = r;
            &&& gen_post(st, st2, rule, n_terms)
            &&& sym_wf(sym, n_terms, st2.nonterms@.len() as int)
            &&& (rule matches RuleInner::Sym(s)
                ==> st2 == st && Some(sym) == symtab_find(symbols@, s@))
            &&& sym_matches_rule(symbols@, sym, rule, st.nonterms@.len() as int,
                st2.nonterms@.len() as int)
            &&& (rule matches RuleInner::SepBy1(bx)
                ==> (sym matches Symbol::Nonterm(m) && is_sep_by1_shape(st2, m.0 as int)
                    && sym_matches_rule(symbols@, rep_item(st2, m.0 as int), bx.rule,
                        st.nonterms@.len() as int, st2.nonterms@.len() as int)
                    && sym_matches_rule(symbols@, sep_item(st2, m.0 as int), bx.sep,
                        st.nonterms@.len() as int, st2.nonterms@.len() as int)))
            &&& (is_prec_of_sym(rule)
                ==> (sym matches Symbol::Nonterm(m) && st.nonterms@.len() <= m.0
                    && (symtab_find(symbols@, rule->Prec_0.rule->Sym_0@) matches Some(target)
                        && is_promoted_sym(st2, m.0 as int, rule->Prec_0.prec,
                            rule->Prec_0.assoc, target))))
            &&& (!(rule is Sym) && !(rule is Prec)
                ==> (sym matches Symbol::Nonterm(m) && lowered_nt_matches(symbols@, st2,
                    m.0 as int, rule, st.nonterms@.len() as int,
                    st2.nonterms@.len() as int)))
        }),
    decreases rule_size(rule), rank_sym(rule), 0int,
{
    match rule {
        RuleInner::Sym(s) => {
            proof {
                assert(str_in(symtab_keys(symbols@), s@));
                lemma_symtab_find_some(symbols@, s@);
                lemma_symtab_find_wf(symbols@, s@);
            }
            let sym = symtab_get(symbols, &s).unwrap();
            proof {
                let i = choose|i: int| 0 <= i < symbols@.len() && (#[trigger] symbols@[i]).1
                    == sym;
                assert(sym_wf(symbols@[i].1, n_terms, st.nonterms@.len() as int));
                assert(lower_step(st, st, -1, n_terms));
            }
            (st, sym)
        },
        RuleInner::Prec(b) => {
            let bx = *b;
            let level: u16 = bx.prec;
            let assoc: Assoc = bx.assoc;
            proof {
                assert(rule_valid(bx.rule, symtab_keys(symbols@)));
            }
            match bx.rule {
                RuleInner::Sym(s) => {
                    proof {
                        assert(str_in(symtab_keys(symbols@), s@));
                        lemma_symtab_find_some(symbols@, s@);
                        lemma_symtab_find_wf(symbols@, s@);
                    }
                    let sub = symtab_get(symbols, &s).unwrap();
                    proof {
                        let i = choose|i: int| 0 <= i < symbols@.len()
                            && (#[trigger] symbols@[i]).1 == sub;
                        assert(sym_wf(symbols@[i].1, n_terms, st.nonterms@.len() as int));
                        lemma_rule_size_pos(bx.rule);
                    }
                    let mut syms: Vec<Symbol> = Vec::new();
                    syms.push(sub);
                    let mut block: Vec<Production> = Vec::new();
                    block.push(Production {
                        nonterm_id: NontermId(0),
                        action: ProdAction::Plain,
                        prec: Some(level),
                        assoc,
                        symbols: syms,
                    });
                    proof {
                        assert forall|k: int| 0 <= k < block@.len() implies prod_wf(
                            #[trigger] block@[k], n_terms, st.nonterms@.len() as int) by {
                            assert forall|l: int| 0 <= l < block@[k].symbols@.len() implies
                                sym_wf(#[trigger] block@[k].symbols@[l], n_terms,
                                st.nonterms@.len() as int) by {
                                assert(block@[k].symbols@[l] == sub);
                            }
                        }
                    }
                    let ghost gblock = block@;
                    let (st2, id) = insert_nonterm(st, symbols, s, block, false, Ghost(n_terms));
                    proof {
                        lemma_lower_step_weaken(st, st2, id as int, n_terms);
                        let ghost base = st.prods@.len() as int;
                        let ghost k0: int = 0;
                        assert(st2.prods@[base + k0].symbols@ == gblock[k0].symbols@);
                        assert(st2.prods@[base + k0].prec == gblock[k0].prec);
                        assert(st2.prods@[base + k0].assoc == gblock[k0].assoc);
                        assert(st2.prods@[base + k0].action == gblock[k0].action);
                        assert(st2.nonterms@[id as int].prod_start == base);
                        assert(gblock[k0].symbols@ =~= seq![sub]);
                        assert(is_promoted_sym(st2, id as int, level, assoc, sub));
                    }
                    (st2, Symbol::Nonterm(NontermId(id)))
                },
                inner => {
                    let name = rule_name(&inner);
                    let (st2, id) = gen_nonterm(st, symbols, name, inner, false, Ghost(n_terms));
                    proof {
                        lemma_lower_step_weaken(st, st2, id as int, n_terms);
                        reveal(lowered_nt_matches);
                    }
                    let s0: usize = st2.nonterms[id as usize].prod_start;
                    let e0: usize = st2.nonterms[id as usize].prod_end;
                    let st3 = stamp_range(st2, s0, e0, level, assoc, Ghost(n_terms));
                    proof {
                        assert(lower_step(st, st3, -1, n_terms));
                    }
                    (st3, Symbol::Nonterm(NontermId(id)))
                },
            }
        },
        other => {
            let name = rule_name(&other);
            let (st2, id) = gen_nonterm(st, symbols, name, other, false, Ghost(n_terms));
            proof {
                lemma_lower_step_weaken(st, st2, id as int, n_terms);
                reveal(lowered_nt_matches);
            }
            (st2, Symbol::Nonterm(NontermId(id)))
        },
    }
}

/// Lowers a rule to a single production with the given action tag. A `Prec`
/// wrapper stamps the produced production; a sequence becomes the sequence of
/// its lowered symbols; anything else becomes one symbol.
#[verifier::loop_isolation(false)]
#[verifier::rlimit(60)]
#[verifier::spinoff_prover]
pub fn gen_prod(
    st: LowerSt,
    symbols: &Vec<(String, Symbol)>,
    action: ProdAction,
    rule: RuleInner,
    Ghost(n_terms): Ghost<int>,
) -> (r: (LowerSt, Production))
    requires
        gen_pre(st, symbols@, rule, n_terms),
    ensures
        ({
            let (st2, prod) = r;
            &&& gen_post(st, st2, rule, n_terms)
            &&& prod_wf(prod, n_terms, st2.nonterms@.len() as int)
            &&& prod.action == action
            &&& match rule {
                RuleInner::Prec(b) => prod.prec == Some(b.prec) && prod.assoc == b.assoc,
                _ => prod.prec is None && prod.assoc == Assoc::Nonassoc,
            }
            &&& prod_syms_match_rule(symbols@, prod, rule, st.nonterms@.len() as int,
                st2.nonterms@.len() as int)
            &&& (rule matches RuleInner::SepBy1(bx) ==> prod.symbols@.len() == 1
                && (prod.symbols@[0] matches Symbol::Nonterm(m)
                && is_sep_by1_shape(st2, m.0 as int)
                && sym_matches_rule(symbols@, rep_item(st2, m.0 as int), bx.rule,
                    st.nonterms@.len() as int, st2.nonterms@.len() as int)
                && sym_matches_rule(symbols@, sep_item(st2, m.0 as int), bx.sep,
                    st.nonterms@.len() as int, st2.nonterms@.len() as int)))
            &&& ((rule is Sym || rule is Sequence)
                ==> st2.prods@.len() + 3 <= st.prods@.len() + 4 * rule_size(rule)
                    && st2.nonterms@.len() + 1 <= st.nonterms@.len() + rule_size(rule))
            &&& (!(rule is Sym) && !(rule is Sequence) && !(rule is Prec)
                ==> (prod.symbols@[0] matches Symbol::Nonterm(m)
                    && lowered_nt_matches(symbols@, st2, m.0 as int, rule,
                        st.nonterms@.len() as int, st2.nonterms@.len() as int)))
        }),
    decreases rule_size(rule), rank_pr(rule), 0int,
{
    match rule {
        RuleInner::Sequence(rules) => {
            let ghost st0 = st;
            let ghost orig = rules@;
            proof {
                assert(rule_size(rule) == 1 + rules_size(orig));
            }
            let mut st = st;
            let mut rules = rules;
            let mut syms: Vec<Symbol> = Vec::new();
            proof {
                assert(orig.skip(0) =~= orig);
            }
            while rules.len() > 0
                invariant
                    lower_step(st0, st, -1, n_terms),
                    symtab_wf(symbols@, n_terms, st.nonterms@.len() as int),
                    rules_valid(rules@, symtab_keys(symbols@)),
                    rules_size(rules@) <= rules_size(orig),
                    syms@.len() + rules@.len() == orig.len(),
                    rules@ =~= orig.skip(syms@.len() as int),
                    st.nonterms@.len() + rules_size(rules@) <= st0.nonterms@.len()
                        + rules_size(orig),
                    st.prods@.len() + 4 * rules_size(rules@) <= st0.prods@.len()
                        + 4 * rules_size(orig),
                    forall|l: int| 0 <= l < syms@.len()
                        ==> sym_wf(#[trigger] syms@[l], n_terms, st.nonterms@.len() as int),
                    forall|l: int| 0 <= l < syms@.len()
                        ==> sym_matches_rule(symbols@, syms@[l], #[trigger] orig[l],
                            st0.nonterms@.len() as int, st.nonterms@.len() as int),
                decreases rules@.len(),
            {
                let ghost pre_rules = rules@;
                let ghost pre_st = st;
                let ghost done = syms@.len() as int;
                let sub_rule = rules.remove(0);
                proof {
                    assert(pre_rules[0] == sub_rule);
                    assert(orig.skip(done)[0] == orig[done]);
                    assert(sub_rule == orig[done]);
                    assert(rules@ =~= pre_rules.drop_first());
                    assert(orig.skip(done).drop_first() =~= orig.skip(done + 1));
                    assert(rules@ =~= orig.skip(done + 1));
                    assert(rules_size(pre_rules) == rule_size(sub_rule) + rules_size(rules@));
                    lemma_rule_size_pos(sub_rule);
                }
                let (st1, sub_sym) = gen_sym(st, symbols, sub_rule, Ghost(n_terms));
                st = st1;
                syms.push(sub_sym);
                proof {
                    lemma_lower_step_trans(st0, pre_st, st, -1, -1, n_terms);
                    lemma_symtab_wf_mono(symbols@, n_terms, pre_st.nonterms@.len() as int,
                        st.nonterms@.len() as int);
                    assert forall|l: int| 0 <= l < syms@.len() implies sym_wf(
                        #[trigger] syms@[l], n_terms, st.nonterms@.len() as int) by {
                        if l < syms@.len() - 1 {
                            assert(sym_wf(syms@[l], n_terms, pre_st.nonterms@.len() as int));
                        }
                    }
                    assert forall|l: int| 0 <= l < syms@.len() implies sym_matches_rule(
                        symbols@, syms@[l], #[trigger] orig[l], st0.nonterms@.len() as int,
                        st.nonterms@.len() as int) by {
                        if l < done {
                            lemma_sym_match_widen(symbols@, syms@[l], orig[l],
                                st0.nonterms@.len() as int, pre_st.nonterms@.len() as int,
                                st0.nonterms@.len() as int, st.nonterms@.len() as int);
                        } else {
                            lemma_sym_match_widen(symbols@, sub_sym, sub_rule,
                                pre_st.nonterms@.len() as int, st.nonterms@.len() as int,
                                st0.nonterms@.len() as int, st.nonterms@.len() as int);
                        }
                    }
                }
            }
            proof {
                assert(syms@.len() == orig.len());
            }
            let prod = Production {
                nonterm_id: NontermId(0),
                action,
                prec: None,
                assoc: Assoc::Nonassoc,
                symbols: syms,
            };
            proof {
                assert forall|k: int| 0 <= k < orig.len() implies sym_matches_rule(symbols@,
                    prod.symbols@[k], #[trigger] orig[k], st0.nonterms@.len() as int,
                    st.nonterms@.len() as int) by {
                }
                assert(prod_syms_match_rule(symbols@, prod, rule, st0.nonterms@.len() as int,
                    st.nonterms@.len() as int));
            }
            (st, prod)
        },
        RuleInner::Prec(b) => {
            let bx = *b;
            let (st2, prod0) = gen_prod(st, symbols, action, bx.rule, Ghost(n_terms));
            let mut prod = prod0;
            prod.prec = Some(bx.prec);
            prod.assoc = bx.assoc;
            proof {
                lemma_prod_syms_match_only_symbols(symbols@, prod0, prod, bx.rule,
                    st.nonterms@.len() as int, st2.nonterms@.len() as int);
                assert(prod_syms_match_rule(symbols@, prod, rule, st.nonterms@.len() as int,
                    st2.nonterms@.len() as int));
            }
            (st2, prod)
        },
        other => {
            let (st2, sym) = gen_sym(st, symbols, other, Ghost(n_terms));
            let mut syms: Vec<Symbol> = Vec::new();
            syms.push(sym);
            let prod = Production {
                nonterm_id: NontermId(0),
                action,
                prec: None,
                assoc: Assoc::Nonassoc,
                symbols: syms,
            };
            proof {
                assert(prod.symbols@ =~= seq![sym]);
                assert(prod_syms_match_rule(symbols@, prod, rule, st.nonterms@.len() as int,
                    st2.nonterms@.len() as int));
            }
            (st2, prod)
        },
    }
}


// ---------------------------------------------------------------------------
// The grammar-level symbol table
// ---------------------------------------------------------------------------

/// The symbol table a validated grammar induces: token names bound to their
/// terminal ids, then rule names bound to their nonterminal ids, in
/// declaration order.
pub open spec fn grammar_symtab(g: Grammar) -> Seq<(String, Symbol)> {
    Seq::new(g.tokens@.len(), |i: int| (g.tokens@[i], Symbol::Term(TermId(i as u32))))
        + Seq::new(
        g.rules@.len(),
        |j: int| (g.rules@[j].0, Symbol::Nonterm(NontermId(j as u32))),
    )
}

/// Lookups agree on tables equal up to key views.
pub proof fn lemma_symtab_find_views(
    t1: Seq<(String, Symbol)>,
    t2: Seq<(String, Symbol)>,
    name: Seq<char>,
)
    requires
        t1.len() == t2.len(),
        forall|i: int| 0 <= i < t1.len()
            ==> (#[trigger] t1[i]).0@ == t2[i].0@ && t1[i].1 == t2[i].1,
    ensures
        symtab_find(t1, name) == symtab_find(t2, name),
    decreases t1,
{
    if t1.len() > 0 {
        assert forall|i: int| 0 <= i < t1.drop_first().len() implies
            (#[trigger] t1.drop_first()[i]).0@ == t2.drop_first()[i].0@
                && t1.drop_first()[i].1 == t2.drop_first()[i].1 by {
            assert(t1[i + 1].0@ == t2[i + 1].0@ && t1[i + 1].1 == t2[i + 1].1);
        }
        lemma_symtab_find_views(t1.drop_first(), t2.drop_first(), name);
    }
}

/// A symbol match survives swapping the table for one equal up to key views.
pub proof fn lemma_sym_match_views(
    t1: Seq<(String, Symbol)>,
    t2: Seq<(String, Symbol)>,
    s: Symbol,
    r: RuleInner,
    lo: int,
    hi: int,
)
    requires
        sym_matches_rule(t1, s, r, lo, hi),
        t1.len() == t2.len(),
        forall|i: int| 0 <= i < t1.len()
            ==> (#[trigger] t1[i]).0@ == t2[i].0@ && t1[i].1 == t2[i].1,
    ensures
        sym_matches_rule(t2, s, r, lo, hi),
{
    match r {
        RuleInner::Sym(nm) => {
            lemma_symtab_find_views(t1, t2, nm@);
        },
        _ => {},
    }
}

/// A production match survives swapping the table for one equal up to key
/// views.
pub proof fn lemma_prod_syms_match_views(
    t1: Seq<(String, Symbol)>,
    t2: Seq<(String, Symbol)>,
    p: Production,
    r: RuleInner,
    lo: int,
    hi: int,
)
    requires
        prod_syms_match_rule(t1, p, r, lo, hi),
        t1.len() == t2.len(),
        forall|i: int| 0 <= i < t1.len()
            ==> (#[trigger] t1[i]).0@ == t2[i].0@ && t1[i].1 == t2[i].1,
    ensures
        prod_syms_match_rule(t2, p, r, lo, hi),
    decreases r,
{
    match r {
        RuleInner::Sequence(rs) => {
            assert forall|k: int| 0 <= k < rs@.len() implies sym_matches_rule(t2,
                p.symbols@[k], #[trigger] rs@[k], lo, hi) by {
                lemma_sym_match_views(t1, t2, p.symbols@[k], rs@[k], lo, hi);
            }
        },
        RuleInner::Prec(b) => {
            lemma_prod_syms_match_views(t1, t2, p, b.rule, lo, hi);
        },
        _ => {
            lemma_sym_match_views(t1, t2, p.symbols@[0], r, lo, hi);
        },
    }
}

/// The lowered content survives swapping the table for one equal up to key
/// views.
pub proof fn lemma_lowered_nt_views(
    t1: Seq<(String, Symbol)>,
    t2: Seq<(String, Symbol)>,
    st: LowerSt,
    id: int,
    r: RuleInner,
    lo: int,
    hi: int,
)
    requires
        lowered_nt_matches(t1, st, id, r, lo, hi),
        t1.len() == t2.len(),
        forall|i: int| 0 <= i < t1.len()
            ==> (#[trigger] t1[i]).0@ == t2[i].0@ && t1[i].1 == t2[i].1,
    ensures
        lowered_nt_matches(t2, st, id, r, lo, hi),
{
    reveal(lowered_nt_matches);
    match r {
        RuleInner::Sym(_) => {
            lemma_prod_syms_match_views(t1, t2,
                st.prods@[st.nonterms@[id].prod_start as int], r, lo, hi);
        },
        RuleInner::Sequence(_) => {
            lemma_prod_syms_match_views(t1, t2,
                st.prods@[st.nonterms@[id].prod_start as int], r, lo, hi);
        },
        RuleInner::Or(rs) => {
            assert forall|k: int| 0 <= k < rs@.len() implies {
                let q = st.prods@[st.nonterms@[id].prod_start + k];
                &&& q.action == ProdAction::Plain
                &&& prod_syms_match_rule(t2, q, #[trigger] rs@[k], lo, hi)
                &&& match rs@[k] {
                    RuleInner::Prec(bp) => q.prec == Some(bp.prec) && q.assoc == bp.assoc,
                    _ => q.prec is None && q.assoc == Assoc::Nonassoc,
                }
            } by {
                lemma_prod_syms_match_views(t1, t2,
                    st.prods@[st.nonterms@[id].prod_start + k], rs@[k], lo, hi);
            }
        },
        RuleInner::Many(bx) => {
            lemma_sym_match_views(t1, t2, many_item(st, id), bx.rule, lo, hi);
        },
        RuleInner::Many1(bx) => {
            lemma_sym_match_views(t1, t2, rep_item(st, id), bx.rule, lo, hi);
        },
        RuleInner::Opt(bx) => {
            lemma_prod_syms_match_views(t1, t2,
                st.prods@[st.nonterms@[id].prod_start + 1], bx.rule, lo, hi);
        },
        RuleInner::SepBy(bx) => {
            match sep_by_ref(st, id) {
                Symbol::Nonterm(m) => {
                    lemma_sym_match_views(t1, t2, rep_item(st, m.0 as int), bx.rule, lo, hi);
                    lemma_sym_match_views(t1, t2, sep_item(st, m.0 as int), bx.sep, lo, hi);
                },
                _ => {},
            }
        },
        RuleInner::SepBy1(bx) => {
            lemma_sym_match_views(t1, t2, rep_item(st, id), bx.rule, lo, hi);
            lemma_sym_match_views(t1, t2, sep_item(st, id), bx.sep, lo, hi);
        },
        RuleInner::Prec(_) => {},
    }
}

/// The lowered content survives later steps that do not touch the
/// nonterminal (nor, for a separated list, its companion).
pub proof fn lemma_lowered_nt_stable(
    t: Seq<(String, Symbol)>,
    st1: LowerSt,
    st2: LowerSt,
    id: int,
    exempt: int,
    n_terms: int,
    r: RuleInner,
    lo: int,
    hi: int,
)
    requires
        lowered_nt_matches(t, st1, id, r, lo, hi),
        lower_step(st1, st2, exempt, n_terms),
        st_wf(st1, n_terms),
        0 <= id < st1.nonterms@.len(),
        id != exempt,
        nt_complete(st1.nonterms@[id]),
        0 <= exempt < st1.nonterms@.len() ==> nt_pending(st1.nonterms@[exempt]),
    ensures
        lowered_nt_matches(t, st2, id, r, lo, hi),
{
    reveal(lowered_nt_matches);
    assert(st2.nonterms@[id] == st1.nonterms@[id]);
    let nt = st1.nonterms@[id];
    assert forall|p: int| nt.prod_start <= p < nt.prod_end implies #[trigger] st2.prods@[p]
        == st1.prods@[p] by {
    }
    match r {
        RuleInner::SepBy(_) => {
            match sep_by_ref(st1, id) {
                Symbol::Nonterm(m) => {
                    assert(is_sep_by1_shape(st1, m.0 as int));
                    assert(nt_complete(st1.nonterms@[m.0 as int]));
                    assert(m.0 != exempt);
                    assert(st2.nonterms@[m.0 as int] == st1.nonterms@[m.0 as int]);
                    let ntm = st1.nonterms@[m.0 as int];
                    assert(st2.prods@[ntm.prod_start as int]
                        == st1.prods@[ntm.prod_start as int]);
                    assert(st2.prods@[ntm.prod_start + 1] == st1.prods@[ntm.prod_start + 1]);
                },
                _ => {},
            }
        },
        _ => {},
    }
}

/// Lowers an alternative list: one plain production per alternative.
#[verifier::loop_isolation(false)]
#[verifier::rlimit(100)]
#[verifier::spinoff_prover]
fn lower_or(
    st: LowerSt,
    symbols: &Vec<(String, Symbol)>,
    name: String,
    rules: Vec<RuleInner>,
    reuse: bool,
    Ghost(n_terms): Ghost<int>,
) -> (r: (LowerSt, u32))
    requires
        gen_pre(st, symbols@, RuleInner::Or(rules), n_terms),
    ensures
        ({
            let (st2, id) = r;
            let rule = RuleInner::Or(rules);
            &&& lower_step(st, st2, id as int, n_terms)
            &&& st2.nonterms@.len() <= st.nonterms@.len() + rule_size(rule)
            &&& st2.prods@.len() + 2 <= st.prods@.len() + 4 * rule_size(rule)
            &&& (id as int) < st2.nonterms@.len()
            &&& nt_complete(st2.nonterms@[id as int])
            &&& st2.nonterms@[id as int].name@ == name@
            &&& st.prods@.len() <= st2.nonterms@[id as int].prod_start
            &&& ((id as int) < st.nonterms@.len() ==> nt_pending(st.nonterms@[id as int]))
            &&& (!reuse ==> st.nonterms@.len() <= id as int)
            &&& (reuse && reserve_target(st, symbols@, name@) is Some
                ==> id as int == reserve_target(st, symbols@, name@)->Some_0)
            &&& or_block_matches(symbols@, st2, id as int, rules@,
                st.nonterms@.len() as int, st2.nonterms@.len() as int)
        }),
    decreases rule_size(RuleInner::Or(rules)), 0int, 0int,
{
    let ghost rule = RuleInner::Or(rules);
            let ghost st0 = st;
            let ghost orig = rules@;
            proof {
                assert(rule_size(rule) == 1 + rules_size(orig));
            }
            let mut st = st;
            let mut rules = rules;
            let mut block: Vec<Production> = Vec::new();
            while rules.len() > 0
                invariant
                    lower_step(st0, st, -1, n_terms),
                    symtab_wf(symbols@, n_terms, st.nonterms@.len() as int),
                    rules_valid(rules@, symtab_keys(symbols@)),
                    rules_size(rules@) <= rules_size(orig),
                    block@.len() + rules@.len() == orig.len(),
                    rules@ =~= orig.skip(block@.len() as int),
                    st.nonterms@.len() + rules_size(rules@) <= st0.nonterms@.len()
                        + rules_size(orig),
                    st.prods@.len() + 4 * rules_size(rules@) + block@.len()
                        <= st0.prods@.len() + 4 * rules_size(orig),
                    forall|k: int| 0 <= k < block@.len()
                        ==> prod_wf(#[trigger] block@[k], n_terms, st.nonterms@.len() as int),
                    forall|k: int| 0 <= k < block@.len() ==> {
                        let q = #[trigger] block@[k];
                        &&& q.action == ProdAction::Plain
                        &&& prod_syms_match_rule(symbols@, q, orig[k],
                            st0.nonterms@.len() as int, st.nonterms@.len() as int)
                        &&& match orig[k] {
                            RuleInner::Prec(bp) => q.prec == Some(bp.prec)
                                && q.assoc == bp.assoc,
                            _ => q.prec is None && q.assoc == Assoc::Nonassoc,
                        }
                    },
                decreases rules@.len(),
            {
                let ghost pre_rules = rules@;
                let ghost pre_st = st;
                let ghost done = block@.len() as int;
                let sub_rule = rules.remove(0);
                proof {
                    assert(pre_rules[0] == sub_rule);
                    assert(orig.skip(done)[0] == orig[done]);
                    assert(sub_rule == orig[done]);
                    assert(rules@ =~= pre_rules.drop_first());
                    assert(orig.skip(done).drop_first() =~= orig.skip(done + 1));
                    assert(rules@ =~= orig.skip(done + 1));
                    assert(rules_size(pre_rules) == rule_size(sub_rule) + rules_size(rules@));
                    lemma_rule_size_pos(sub_rule);
                }
                let (st1, prod) = gen_prod(st, symbols, ProdAction::Plain, sub_rule,
                    Ghost(n_terms));
                st = st1;
                block.push(prod);
                proof {
                    lemma_lower_step_trans(st0, pre_st, st, -1, -1, n_terms);
                    lemma_symtab_wf_mono(symbols@, n_terms, pre_st.nonterms@.len() as int,
                        st.nonterms@.len() as int);
                    assert forall|k: int| 0 <= k < block@.len() implies prod_wf(
                        #[trigger] block@[k], n_terms, st.nonterms@.len() as int) by {
                        if k < block@.len() - 1 {
                            lemma_prod_wf_mono(block@[k], n_terms,
                                pre_st.nonterms@.len() as int, st.nonterms@.len() as int);
                        }
                    }
                    assert forall|k: int| 0 <= k < block@.len() implies
                        prod_syms_match_rule(symbols@, #[trigger] block@[k], orig[k],
                        st0.nonterms@.len() as int, st.nonterms@.len() as int) by {
                        if k < done {
                            lemma_prod_syms_match_widen(symbols@, block@[k], orig[k],
                                st0.nonterms@.len() as int, pre_st.nonterms@.len() as int,
                                st0.nonterms@.len() as int, st.nonterms@.len() as int);
                        } else {
                            lemma_prod_syms_match_widen(symbols@, prod, sub_rule,
                                pre_st.nonterms@.len() as int, st.nonterms@.len() as int,
                                st0.nonterms@.len() as int, st.nonterms@.len() as int);
                        }
                    }
                }
            }
            if block.len() == 0 {
                // an alternative list without alternatives lowers to ε
                block.push(mk_prod(0, ProdAction::Plain, Vec::new()));
            }
            proof {
                lemma_rules_size_ge_len(orig);
                lemma_reserve_target_stable(st0, st, symbols@, name@, n_terms);
            }
            let ghost gblock = block@;
            let (st2, id) = insert_nonterm(st, symbols, name, block, reuse, Ghost(n_terms));
            proof {
                lemma_lower_step_trans(st0, st, st2, -1, id as int, n_terms);
                assert(lower_step(st0, st2, id as int, n_terms));
                let ghost base = st.prods@.len() as int;
                assert(st2.nonterms@[id as int].prod_start == base);
                assert forall|k: int| 0 <= k < orig.len() implies {
                    let q = st2.prods@[st2.nonterms@[id as int].prod_start + k];
                    &&& q.action == ProdAction::Plain
                    &&& prod_syms_match_rule(symbols@, q, #[trigger] orig[k],
                        st0.nonterms@.len() as int, st2.nonterms@.len() as int)
                    &&& match orig[k] {
                        RuleInner::Prec(bp) => q.prec == Some(bp.prec) && q.assoc == bp.assoc,
                        _ => q.prec is None && q.assoc == Assoc::Nonassoc,
                    }
                } by {
                    assert(st2.prods@[base + k].action == gblock[k].action);
                    assert(st2.prods@[base + k].prec == gblock[k].prec);
                    assert(st2.prods@[base + k].assoc == gblock[k].assoc);
                    assert(st2.prods@[base + k].symbols@ == gblock[k].symbols@);
                    lemma_prod_syms_match_only_symbols(symbols@, gblock[k],
                        st2.prods@[base + k], orig[k], st0.nonterms@.len() as int,
                        st.nonterms@.len() as int);
                    lemma_prod_syms_match_widen(symbols@, st2.prods@[base + k], orig[k],
                        st0.nonterms@.len() as int, st.nonterms@.len() as int,
                        st0.nonterms@.len() as int, st2.nonterms@.len() as int);
                }
                assert(or_block_matches(symbols@, st2, id as int, orig,
                    st0.nonterms@.len() as int, st2.nonterms@.len() as int));
                assert(st2.nonterms@.len() <= st0.nonterms@.len() + rule_size(rule));
                assert(st2.prods@.len() + 2 <= st0.prods@.len() + 4 * rule_size(rule));
                assert((id as int) < st2.nonterms@.len());
                assert(nt_complete(st2.nonterms@[id as int]));
                assert(st0.prods@.len() <= st2.nonterms@[id as int].prod_start);
                assert((id as int) < st0.nonterms@.len() ==> nt_pending(st0.nonterms@[id as int]));
                assert(!reuse ==> st0.nonterms@.len() <= id as int);
                assert(reuse && reserve_target(st0, symbols@, name@) is Some
                    ==> id as int == reserve_target(st0, symbols@, name@)->Some_0);
            }
            (st2, id)
}

/// Lowers a named rule to a populated nonterminal and returns its id. Under
/// `reuse` the pre-reserved placeholder bound to `name` is populated (the
/// top-level path for user rules); otherwise a fresh nonterminal is made.
/// The nonterminal's productions carry the rule's canonical content
/// (`lowered_nt_matches`).
pub fn gen_nonterm(
    st: LowerSt,
    symbols: &Vec<(String, Symbol)>,
    name: String,
    rule: RuleInner,
    reuse: bool,
    Ghost(n_terms): Ghost<int>,
) -> (r: (LowerSt, u32))
    requires
        gen_pre(st, symbols@, rule, n_terms),
    ensures
        ({
            let (st2, id) = r;
            &&& lower_step(st, st2, id as int, n_terms)
            &&& st2.nonterms@.len() <= st.nonterms@.len() + rule_size(rule)
            &&& st2.prods@.len() + 2 <= st.prods@.len() + 4 * rule_size(rule)
            &&& (id as int) < st2.nonterms@.len()
            &&& nt_complete(st2.nonterms@[id as int])
            &&& st2.nonterms@[id as int].name@ == name@
            &&& st.prods@.len() <= st2.nonterms@[id as int].prod_start
            &&& ((id as int) < st.nonterms@.len() ==> nt_pending(st.nonterms@[id as int]))
            &&& (!reuse ==> st.nonterms@.len() <= id as int)
            &&& (reuse && reserve_target(st, symbols@, name@) is Some
                ==> id as int == reserve_target(st, symbols@, name@)->Some_0)
            &&& lowered_nt_matches(symbols@, st2, id as int, rule,
                st.nonterms@.len() as int, st2.nonterms@.len() as int)
        }),
    decreases rule_size(rule), rank_nt(rule), 2int,
{
    let (st2, id) = gen_nonterm_inner(st, symbols, name, rule, reuse, Ghost(n_terms));
    proof {
        reveal(lowered_nt_matches);
    }
    (st2, id)
}

/// The lowering of a named rule, with the per-variant content spelled out;
/// `gen_nonterm` repackages it under `lowered_nt_matches`.
#[verifier::loop_isolation(false)]
#[verifier::rlimit(100)]
#[verifier::spinoff_prover]
fn gen_nonterm_inner(
    st: LowerSt,
    symbols: &Vec<(String, Symbol)>,
    name: String,
    rule: RuleInner,
    reuse: bool,
    Ghost(n_terms): Ghost<int>,
) -> (r: (LowerSt, u32))
    requires
        gen_pre(st, symbols@, rule, n_terms),
    ensures
        ({
            let (st2, id) = r;
            &&& lower_step(st, st2, id as int, n_terms)
            &&& st2.nonterms@.len() <= st.nonterms@.len() + rule_size(rule)
            &&& st2.prods@.len() + 2 <= st.prods@.len() + 4 * rule_size(rule)
            &&& (id as int) < st2.nonterms@.len()
            &&& nt_complete(st2.nonterms@[id as int])
            &&& st2.nonterms@[id as int].name@ == name@
            &&& st.prods@.len() <= st2.nonterms@[id as int].prod_start
            &&& ((id as int) < st.nonterms@.len() ==> nt_pending(st.nonterms@[id as int]))
            &&& (!reuse ==> st.nonterms@.len() <= id as int)
            &&& (reuse && reserve_target(st, symbols@, name@) is Some
                ==> id as int == reserve_target(st, symbols@, name@)->Some_0)
            &&& match rule {
                RuleInner::Sym(_) => single_plain_prod(symbols@, st2, id as int, rule,
                    st.nonterms@.len() as int, st2.nonterms@.len() as int),
                RuleInner::Sequence(_) => single_plain_prod(symbols@, st2, id as int, rule,
                    st.nonterms@.len() as int, st2.nonterms@.len() as int),
                RuleInner::Or(rs) => or_block_matches(symbols@, st2, id as int, rs@,
                    st.nonterms@.len() as int, st2.nonterms@.len() as int),
                RuleInner::Many(bx) => is_many_shape(st2, id as int)
                    && sym_matches_rule(symbols@, many_item(st2, id as int), bx.rule,
                        st.nonterms@.len() as int, st2.nonterms@.len() as int),
                RuleInner::Many1(bx) => is_many1_shape(st2, id as int)
                    && sym_matches_rule(symbols@, rep_item(st2, id as int), bx.rule,
                        st.nonterms@.len() as int, st2.nonterms@.len() as int),
                RuleInner::Opt(bx) => is_option_shape(st2, id as int)
                    && prod_syms_match_rule(symbols@,
                        st2.prods@[st2.nonterms@[id as int].prod_start + 1], bx.rule,
                        st.nonterms@.len() as int, st2.nonterms@.len() as int),
                RuleInner::SepBy(bx) => is_sep_by_shape(st2, id as int)
                    && (sep_by_ref(st2, id as int) matches Symbol::Nonterm(m)
                        && sym_matches_rule(symbols@, rep_item(st2, m.0 as int), bx.rule,
                            st.nonterms@.len() as int, st2.nonterms@.len() as int)
                        && sym_matches_rule(symbols@, sep_item(st2, m.0 as int), bx.sep,
                            st.nonterms@.len() as int, st2.nonterms@.len() as int)),
                RuleInner::SepBy1(bx) => is_sep_by1_shape(st2, id as int)
                    && sym_matches_rule(symbols@, rep_item(st2, id as int), bx.rule,
                        st.nonterms@.len() as int, st2.nonterms@.len() as int)
                    && sym_matches_rule(symbols@, sep_item(st2, id as int), bx.sep,
                        st.nonterms@.len() as int, st2.nonterms@.len() as int),
                _ => true,
            }
        }),
    decreases rule_size(rule), rank_nt(rule), 1int,
{
    match rule {
        RuleInner::Or(rules) => {
            proof {
                assert(rule == RuleInner::Or(rules));
            }
            let r2 = lower_or(st, symbols, name, rules, reuse, Ghost(n_terms));
            r2
        },
        RuleInner::Many(b) => {
            let bx = *b;
            let (st1, id) = gen_rep_nonterm(st, symbols, &name, reuse, Ghost(n_terms));
            proof {
                lemma_symtab_wf_mono(symbols@, n_terms, st.nonterms@.len() as int,
                    st1.nonterms@.len() as int);
            }
            let (st2, sub) = gen_sym(st1, symbols, bx.rule, Ghost(n_terms));
            let mut syms: Vec<Symbol> = Vec::new();
            syms.push(Symbol::Nonterm(NontermId(id)));
            syms.push(sub);
            let mut block: Vec<Production> = Vec::new();
            block.push(mk_prod(0, ProdAction::StartMany, Vec::new()));
            block.push(mk_prod(0, ProdAction::ContinueMany, syms));
            proof {
                assert(rule_size(rule) == 1 + rule_size(bx.rule));
                assert(block@[0].symbols@ =~= Seq::<Symbol>::empty());
                assert(block@[1].symbols@ =~= seq![Symbol::Nonterm(NontermId(id)), sub]);
            }
            let ghost gblock = block@;
            let st3 = finish_nonterm(st2, id, name, block, Ghost(n_terms));
            proof {
                let ghost base = st2.prods@.len() as int;
                let ghost k0: int = 0;
                let ghost k1: int = 1;
                assert(st3.prods@[base + k0].symbols@ == gblock[k0].symbols@);
                assert(st3.prods@[base + k1].symbols@ == gblock[k1].symbols@);
                assert(st3.nonterms@[id as int].prod_start == base);
                assert(is_many_shape(st3, id as int));
                assert(many_item(st3, id as int) == sub);
                lemma_sym_match_widen(symbols@, sub, bx.rule, st1.nonterms@.len() as int,
                    st2.nonterms@.len() as int, st.nonterms@.len() as int,
                    st3.nonterms@.len() as int);
                assert(lower_step(st, st1, id as int, n_terms));
                lemma_lower_step_trans(st, st1, st2, id as int, -1, n_terms);
                assert(lower_step(st2, st3, id as int, n_terms));
                lemma_lower_step_trans(st, st2, st3, id as int, id as int, n_terms);
                assert(st3.nonterms@.len() <= st.nonterms@.len() + rule_size(rule));
                assert(st3.prods@.len() + 2 <= st.prods@.len() + 4 * rule_size(rule));
            }
            (st3, id)
        },
        RuleInner::Many1(b) => {
            let bx = *b;
            let (st1, id) = gen_rep_nonterm(st, symbols, &name, reuse, Ghost(n_terms));
            proof {
                lemma_symtab_wf_mono(symbols@, n_terms, st.nonterms@.len() as int,
                    st1.nonterms@.len() as int);
            }
            let (st2, sub) = gen_sym(st1, symbols, bx.rule, Ghost(n_terms));
            let mut syms0: Vec<Symbol> = Vec::new();
            syms0.push(sub);
            let mut syms1: Vec<Symbol> = Vec::new();
            syms1.push(Symbol::Nonterm(NontermId(id)));
            syms1.push(sub);
            let mut block: Vec<Production> = Vec::new();
            block.push(mk_prod(0, ProdAction::StartMany1, syms0));
            block.push(mk_prod(0, ProdAction::ContinueMany1, syms1));
            proof {
                assert(rule_size(rule) == 1 + rule_size(bx.rule));
                assert(block@[0].symbols@ =~= seq![sub]);
                assert(block@[1].symbols@ =~= seq![Symbol::Nonterm(NontermId(id)), sub]);
            }
            let ghost gblock = block@;
            let st3 = finish_nonterm(st2, id, name, block, Ghost(n_terms));
            proof {
                let ghost base = st2.prods@.len() as int;
                let ghost k0: int = 0;
                let ghost k1: int = 1;
                assert(st3.prods@[base + k0].symbols@ == gblock[k0].symbols@);
                assert(st3.prods@[base + k1].symbols@ == gblock[k1].symbols@);
                assert(st3.nonterms@[id as int].prod_start == base);
                assert(st3.prods@[base + k1].symbols@
                    =~= seq![Symbol::Nonterm(NontermId(id)), st3.prods@[base + k0].symbols@[0]]);
                assert(is_many1_shape(st3, id as int));
                assert(rep_item(st3, id as int) == sub);
                lemma_sym_match_widen(symbols@, sub, bx.rule, st1.nonterms@.len() as int,
                    st2.nonterms@.len() as int, st.nonterms@.len() as int,
                    st3.nonterms@.len() as int);
                assert(lower_step(st, st1, id as int, n_terms));
                lemma_lower_step_trans(st, st1, st2, id as int, -1, n_terms);
                assert(lower_step(st2, st3, id as int, n_terms));
                lemma_lower_step_trans(st, st2, st3, id as int, id as int, n_terms);
                assert(st3.nonterms@.len() <= st.nonterms@.len() + rule_size(rule));
                assert(st3.prods@.len() + 2 <= st.prods@.len() + 4 * rule_size(rule));
            }
            (st3, id)
        },
        RuleInner::Opt(b) => {
            let bx = *b;
            let (st1, id) = gen_rep_nonterm(st, symbols, &name, reuse, Ghost(n_terms));
            proof {
                lemma_symtab_wf_mono(symbols@, n_terms, st.nonterms@.len() as int,
                    st1.nonterms@.len() as int);
            }
            let (st2, prod_some) = gen_prod(st1, symbols, ProdAction::NonemptyOption, bx.rule,
                Ghost(n_terms));
            let mut block: Vec<Production> = Vec::new();
            block.push(mk_prod(0, ProdAction::EmptyOption, Vec::new()));
            block.push(prod_some);
            proof {
                assert(rule_size(rule) == 1 + rule_size(bx.rule));
                assert(block@[0].symbols@ =~= Seq::<Symbol>::empty());
            }
            let ghost gblock = block@;
            let st3 = finish_nonterm(st2, id, name, block, Ghost(n_terms));
            proof {
                let ghost base = st2.prods@.len() as int;
                let ghost k0: int = 0;
                let ghost k1: int = 1;
                assert(st3.prods@[base + k0].symbols@ == gblock[k0].symbols@);
                assert(st3.prods@[base + k1].action == gblock[k1].action);
                assert(st3.nonterms@[id as int].prod_start == base);
                assert(is_option_shape(st3, id as int));
                assert(st3.prods@[base + k1].symbols@ == gblock[k1].symbols@);
                assert(prod_syms_match_rule(symbols@, gblock[k1], bx.rule,
                    st1.nonterms@.len() as int, st2.nonterms@.len() as int));
                lemma_prod_syms_match_only_symbols(symbols@, gblock[k1],
                    st3.prods@[base + k1], bx.rule, st1.nonterms@.len() as int,
                    st2.nonterms@.len() as int);
                lemma_prod_syms_match_widen(symbols@, st3.prods@[base + k1], bx.rule,
                    st1.nonterms@.len() as int, st2.nonterms@.len() as int,
                    st.nonterms@.len() as int, st3.nonterms@.len() as int);
                assert(lower_step(st, st1, id as int, n_terms));
                lemma_lower_step_trans(st, st1, st2, id as int, -1, n_terms);
                assert(lower_step(st2, st3, id as int, n_terms));
                lemma_lower_step_trans(st, st2, st3, id as int, id as int, n_terms);
                assert(st3.nonterms@.len() <= st.nonterms@.len() + rule_size(rule));
                assert(st3.prods@.len() + 2 <= st.prods@.len() + 4 * rule_size(rule));
            }
            (st3, id)
        },
        RuleInner::SepBy(b) => {
            let bx = *b;
            let inner_rule = RuleInner::SepBy1(Box::new(RuleSepBy {
                sep: bx.sep,
                rule: bx.rule,
            }));
            let (st2, prod1) = gen_prod(st, symbols, ProdAction::NonemptySepBy, inner_rule,
                Ghost(n_terms));
            let mut block: Vec<Production> = Vec::new();
            block.push(mk_prod(0, ProdAction::EmptySepBy, Vec::new()));
            block.push(prod1);
            proof {
                assert(rule_size(rule) == 1 + rule_size(inner_rule));
                assert(block@[0].symbols@ =~= Seq::<Symbol>::empty());
                lemma_reserve_target_stable(st, st2, symbols@, name@, n_terms);
            }
            let ghost gblock = block@;
            let (st3, id) = insert_nonterm(st2, symbols, name, block, reuse, Ghost(n_terms));
            proof {
                lemma_lower_step_trans(st, st2, st3, -1, id as int, n_terms);
                let ghost m = prod1.symbols@[0]->Nonterm_0.0 as int;
                assert(nt_complete(st2.nonterms@[m]));
                assert(m != id as int);
                lemma_shapes_stable(st2, st3, m, id as int, n_terms);
                assert(is_sep_by1_shape(st3, m));
                // the referenced nonterminal's item and separator survive the
                // append unchanged
                assert(st3.nonterms@[m] == st2.nonterms@[m]);
                assert(rep_item(st3, m) == rep_item(st2, m)) by {
                    assert(st3.prods@[st2.nonterms@[m].prod_start as int]
                        == st2.prods@[st2.nonterms@[m].prod_start as int]);
                }
                assert(sep_item(st3, m) == sep_item(st2, m)) by {
                    assert(st3.prods@[st2.nonterms@[m].prod_start + 1]
                        == st2.prods@[st2.nonterms@[m].prod_start + 1]);
                }
                lemma_sym_match_widen(symbols@, rep_item(st2, m), bx.rule,
                    st.nonterms@.len() as int, st2.nonterms@.len() as int,
                    st.nonterms@.len() as int, st3.nonterms@.len() as int);
                lemma_sym_match_widen(symbols@, sep_item(st2, m), bx.sep,
                    st.nonterms@.len() as int, st2.nonterms@.len() as int,
                    st.nonterms@.len() as int, st3.nonterms@.len() as int);
                let ghost base = st2.prods@.len() as int;
                let ghost k0: int = 0;
                let ghost k1: int = 1;
                assert(st3.prods@[base + k0].symbols@ == gblock[k0].symbols@);
                assert(st3.prods@[base + k1].symbols@ == gblock[k1].symbols@);
                assert(st3.nonterms@[id as int].prod_start == base);
                assert(st3.prods@[base + k1].symbols@ == prod1.symbols@);
                assert(is_sep_by_shape(st3, id as int));
                assert(st3.nonterms@.len() <= st.nonterms@.len() + rule_size(rule));
                assert(st3.prods@.len() + 2 <= st.prods@.len() + 4 * rule_size(rule));
            }
            (st3, id)
        },
        RuleInner::SepBy1(b) => {
            let bx = *b;
            let (st1, id) = gen_rep_nonterm(st, symbols, &name, reuse, Ghost(n_terms));
            proof {
                lemma_symtab_wf_mono(symbols@, n_terms, st.nonterms@.len() as int,
                    st1.nonterms@.len() as int);
            }
            let (st2, sep_sym) = gen_sym(st1, symbols, bx.sep, Ghost(n_terms));
            proof {
                lemma_symtab_wf_mono(symbols@, n_terms, st2.nonterms@.len() as int,
                    st2.nonterms@.len() as int);
            }
            let (st3, sub) = gen_sym(st2, symbols, bx.rule, Ghost(n_terms));
            let mut syms0: Vec<Symbol> = Vec::new();
            syms0.push(sub);
            let mut syms1: Vec<Symbol> = Vec::new();
            syms1.push(Symbol::Nonterm(NontermId(id)));
            syms1.push(sep_sym);
            syms1.push(sub);
            let mut block: Vec<Production> = Vec::new();
            block.push(mk_prod(0, ProdAction::StartSepBy1, syms0));
            block.push(mk_prod(0, ProdAction::ContinueSepBy1, syms1));
            proof {
                assert(rule_size(rule) == 1 + rule_size(bx.sep) + rule_size(bx.rule));
                assert(block@[0].symbols@ =~= seq![sub]);
                assert(block@[1].symbols@
                    =~= seq![Symbol::Nonterm(NontermId(id)), sep_sym, sub]);
            }
            let ghost gblock = block@;
            let st4 = finish_nonterm(st3, id, name, block, Ghost(n_terms));
            proof {
                let ghost base = st3.prods@.len() as int;
                let ghost k0: int = 0;
                let ghost k1: int = 1;
                assert(st4.prods@[base + k0].symbols@ == gblock[k0].symbols@);
                assert(st4.prods@[base + k1].symbols@ == gblock[k1].symbols@);
                assert(st4.nonterms@[id as int].prod_start == base);
                assert(st4.prods@[base + k1].symbols@
                    =~= seq![Symbol::Nonterm(NontermId(id)), sep_sym,
                    st4.prods@[base + k0].symbols@[0]]);
                assert(is_sep_by1_shape(st4, id as int));
                assert(rep_item(st4, id as int) == sub);
                assert(sep_item(st4, id as int) == sep_sym);
                lemma_sym_match_widen(symbols@, sub, bx.rule, st2.nonterms@.len() as int,
                    st3.nonterms@.len() as int, st.nonterms@.len() as int,
                    st4.nonterms@.len() as int);
                lemma_sym_match_widen(symbols@, sep_sym, bx.sep, st1.nonterms@.len() as int,
                    st2.nonterms@.len() as int, st.nonterms@.len() as int,
                    st4.nonterms@.len() as int);
                assert(lower_step(st, st1, id as int, n_terms));
                lemma_lower_step_trans(st, st1, st2, id as int, -1, n_terms);
                lemma_lower_step_trans(st, st2, st3, id as int, -1, n_terms);
                assert(lower_step(st3, st4, id as int, n_terms));
                lemma_lower_step_trans(st, st3, st4, id as int, id as int, n_terms);
                assert(st4.nonterms@.len() <= st.nonterms@.len() + rule_size(rule));
                assert(st4.prods@.len() + 2 <= st.prods@.len() + 4 * rule_size(rule));
            }
            (st4, id)
        },
        RuleInner::Prec(b) => {
            let bx = *b;
            proof {
                assert(rule_size(rule) == 1 + rule_size(bx.rule));
            }
            let (st2, id) = gen_nonterm(st, symbols, name, bx.rule, reuse, Ghost(n_terms));
            let s0: usize = st2.nonterms[id as usize].prod_start;
            let e0: usize = st2.nonterms[id as usize].prod_end;
            let st3 = stamp_range(st2, s0, e0, bx.prec, bx.assoc, Ghost(n_terms));
            proof {
            }
            (st3, id)
        },
        other => {
            let (st2, prod) = gen_prod(st, symbols, ProdAction::Plain, other, Ghost(n_terms));
            let mut block: Vec<Production> = Vec::new();
            block.push(prod);
            proof {
                lemma_reserve_target_stable(st, st2, symbols@, name@, n_terms);
            }
            let ghost gblock = block@;
            let (st3, id) = insert_nonterm(st2, symbols, name, block, reuse, Ghost(n_terms));
            proof {
                lemma_lower_step_trans(st, st2, st3, -1, id as int, n_terms);
                assert(st3.nonterms@.len() <= st.nonterms@.len() + rule_size(rule));
                assert(st3.prods@.len() + 2 <= st.prods@.len() + 4 * rule_size(rule));
                let ghost base = st2.prods@.len() as int;
                let ghost k0: int = 0;
                assert(st3.prods@[base + k0].action == gblock[k0].action);
                assert(st3.prods@[base + k0].prec == gblock[k0].prec);
                assert(st3.prods@[base + k0].assoc == gblock[k0].assoc);
                assert(st3.prods@[base + k0].symbols@ == gblock[k0].symbols@);
                assert(st3.nonterms@[id as int].prod_start == base);
                lemma_prod_syms_match_only_symbols(symbols@, prod, st3.prods@[base + k0],
                    rule, st.nonterms@.len() as int, st2.nonterms@.len() as int);
                lemma_prod_syms_match_widen(symbols@, st3.prods@[base + k0], rule,
                    st.nonterms@.len() as int, st2.nonterms@.len() as int,
                    st.nonterms@.len() as int, st3.nonterms@.len() as int);
                assert(single_plain_prod(symbols@, st3, id as int, rule,
                    st.nonterms@.len() as int, st3.nonterms@.len() as int));
            }
            (st3, id)
        },
    }
}

/// Reserves and populates in one step: the path taken for `Sym`, sequence and
/// alternative rules, whose productions are built before the nonterminal is
/// named.
pub fn insert_nonterm(
    st: LowerSt,
    symbols: &Vec<(String, Symbol)>,
    name: String,
    block: Vec<Production>,
    reuse: bool,
    Ghost(n_terms): Ghost<int>,
) -> (r: (LowerSt, u32))
    requires
        st_wf(st, n_terms),
        st.nonterms@.len() < u32::MAX,
        block@.len() >= 1,
        st.prods@.len() + block@.len() <= usize::MAX,
        forall|k: int| 0 <= k < block@.len()
            ==> prod_wf(#[trigger] block@[k], n_terms, st.nonterms@.len() as int),
    ensures
        ({
            let (st2, id) = r;
            &&& st_wf(st2, n_terms)
            &&& lower_step(st, st2, id as int, n_terms)
            &&& (id as int) < st2.nonterms@.len()
            &&& (id as int) < st.nonterms@.len() ==> nt_pending(st.nonterms@[id as int])
            &&& st2.nonterms@.len() <= st.nonterms@.len() + 1
            &&& nt_complete(st2.nonterms@[id as int])
            &&& st2.nonterms@[id as int].prod_start == st.prods@.len()
            &&& st2.nonterms@[id as int].prod_end == st.prods@.len() + block@.len()
            &&& st2.nonterms@[id as int].name@ == name@
            &&& st2.prods@.len() == st.prods@.len() + block@.len()
            &&& forall|k: int| 0 <= k < block@.len() ==> {
                let q = #[trigger] st2.prods@[st.prods@.len() + k];
                &&& q.nonterm_id.0 == id
                &&& q.action == block@[k].action
                &&& q.prec == block@[k].prec
                &&& q.assoc == block@[k].assoc
                &&& q.symbols@ == block@[k].symbols@
            }
            &&& (reuse && reserve_target(st, symbols@, name@) is Some
                ==> id as int == reserve_target(st, symbols@, name@)->Some_0)
            &&& (!(reuse && reserve_target(st, symbols@, name@) is Some)
                ==> id as int == st.nonterms@.len())
        }),
{
    let (st1, id) = gen_rep_nonterm(st, symbols, &name, reuse, Ghost(n_terms));
    proof {
        assert forall|k: int| 0 <= k < block@.len() implies prod_wf(#[trigger] block@[k],
            n_terms, st1.nonterms@.len() as int) by {
            assert forall|j: int| 0 <= j < block@[k].symbols@.len() implies sym_wf(
                #[trigger] block@[k].symbols@[j], n_terms, st1.nonterms@.len() as int) by {
                assert(sym_wf(block@[k].symbols@[j], n_terms, st.nonterms@.len() as int));
            }
        }
    }
    let st2 = finish_nonterm(st1, id, name, block, Ghost(n_terms));
    (st2, id)
}

/// `sym_wf` is monotone in the nonterminal count.
pub proof fn lemma_prod_wf_mono(p: Production, n_terms: int, n1: int, n2: int)
    requires
        prod_wf(p, n_terms, n1),
        n1 <= n2,
    ensures
        prod_wf(p, n_terms, n2),
{
    assert forall|k: int| 0 <= k < p.symbols@.len() implies sym_wf(#[trigger] p.symbols@[k],
        n_terms, n2) by {
        assert(sym_wf(p.symbols@[k], n_terms, n1));
    }
}

/// `prod_wf` is monotone in both counts.
pub proof fn lemma_prod_wf_mono2(p: Production, t1: int, n1: int, t2: int, n2: int)
    requires
        prod_wf(p, t1, n1),
        t1 <= t2,
        n1 <= n2,
    ensures
        prod_wf(p, t2, n2),
{
    assert forall|k: int| 0 <= k < p.symbols@.len() implies sym_wf(#[trigger] p.symbols@[k],
        t2, n2) by {
        assert(sym_wf(p.symbols@[k], t1, n1));
    }
}

/// `symtab_wf` is monotone in the nonterminal count.
pub proof fn lemma_symtab_wf_mono(t: Seq<(String, Symbol)>, n_terms: int, n1: int, n2: int)
    requires
        symtab_wf(t, n_terms, n1),
        n1 <= n2,
    ensures
        symtab_wf(t, n_terms, n2),
{
    assert forall|i: int| 0 <= i < t.len() implies sym_wf((#[trigger] t[i]).1, n_terms, n2) by {
        assert(sym_wf(t[i].1, n_terms, n1));
    }
}

/// Lowering steps compose; the populated nonterminal, if any, carries over.
pub proof fn lemma_lower_step_trans(a: LowerSt, b: LowerSt, c: LowerSt, id1: int, id2: int,
    n_terms: int)
    requires
        lower_step(a, b, id1, n_terms),
        lower_step(b, c, id2, n_terms),
        id1 == -1 || id2 == -1 || id1 == id2,
    ensures
        lower_step(a, c, if id1 == -1 { id2 } else { id1 }, n_terms),
{
    let ex: int = if id1 == -1 { id2 } else { id1 };
    assert forall|p: int| 0 <= p < a.prods@.len() implies c.prods@[p] == a.prods@[p] by {
        assert(b.prods@[p] == a.prods@[p]);
        assert(c.prods@[p] == b.prods@[p]);
    }
    assert forall|j: int| 0 <= j < a.nonterms@.len() && j != ex implies c.nonterms@[j]
        == a.nonterms@[j] by {
        assert(b.nonterms@[j] == a.nonterms@[j]);
        assert(c.nonterms@[j] == b.nonterms@[j]);
    }
    assert forall|j: int| a.nonterms@.len() <= j < c.nonterms@.len() && j != ex implies
        nt_complete(#[trigger] c.nonterms@[j]) by {
        if j < b.nonterms@.len() {
            assert(nt_complete(b.nonterms@[j]));
            assert(c.nonterms@[j] == b.nonterms@[j]);
        }
    }
}

/// A step that populates nothing reserved keeps every reserve target as it
/// was: pending placeholders are untouched and new nonterminals are complete.
pub proof fn lemma_reserve_target_stable(
    st: LowerSt,
    st2: LowerSt,
    t: Seq<(String, Symbol)>,
    name: Seq<char>,
    n_terms: int,
)
    requires
        st_wf(st, n_terms),
        lower_step(st, st2, -1, n_terms),
    ensures
        reserve_target(st2, t, name) == reserve_target(st, t, name),
{
    match symtab_find(t, name) {
        Some(Symbol::Nonterm(id)) => {
            if id.0 < st.nonterms@.len() {
                assert(st2.nonterms@[id.0 as int] == st.nonterms@[id.0 as int]);
            } else if id.0 < st2.nonterms@.len() {
                assert(nt_complete(st2.nonterms@[id.0 as int]));
            }
        },
        _ => {},
    }
}

/// A step that populates only a nonterminal it created is a plain step.
pub proof fn lemma_lower_step_weaken(st1: LowerSt, st2: LowerSt, id: int, n_terms: int)
    requires
        lower_step(st1, st2, id, n_terms),
        st1.nonterms@.len() <= id < st2.nonterms@.len(),
        nt_complete(st2.nonterms@[id]),
    ensures
        lower_step(st1, st2, -1, n_terms),
{
    assert forall|j: int| st1.nonterms@.len() <= j < st2.nonterms@.len() && j != -1 implies
        nt_complete(#[trigger] st2.nonterms@[j]) by {
        if j != id {
            assert(nt_complete(st2.nonterms@[j]));
        }
    }
}

/// The shared precondition of the lowering functions.
pub open spec fn gen_pre(st: LowerSt, t: Seq<(String, Symbol)>, rule: RuleInner, n_terms: int)
    -> bool {
    &&& st_wf(st, n_terms)
    &&& symtab_wf(t, n_terms, st.nonterms@.len() as int)
    &&& rule_valid(rule, symtab_keys(t))
    &&& st.nonterms@.len() + rule_size(rule) < u32::MAX
    &&& st.prods@.len() + 4 * rule_size(rule) <= usize::MAX
}

/// The shared postcondition: a clean lowering step within size budget.
pub open spec fn gen_post(st: LowerSt, st2: LowerSt, rule: RuleInner, n_terms: int) -> bool {
    &&& lower_step(st, st2, -1, n_terms)
    &&& st2.nonterms@.len() <= st.nonterms@.len() + rule_size(rule)
    &&& st2.prods@.len() + 2 <= st.prods@.len() + 4 * rule_size(rule)
}

/// The deterministic diagnostic name of a synthesized nonterminal, derived
/// from the shape of its rule.
fn rule_name(r: &RuleInner) -> (n: String)
    decreases rule_size(*r), 0int,
{
    match r {
        RuleInner::Sym(s) => s.clone(),
        RuleInner::Sequence(rs) => "(".to_owned().concat(name_list(rs, " ").as_str()).concat(
            ")",
        ),
        RuleInner::Or(rs) => "(".to_owned().concat(name_list(rs, " | ").as_str()).concat(")"),
        RuleInner::Many(b) => rule_name(&b.rule).concat("*"),
        RuleInner::Many1(b) => rule_name(&b.rule).concat("+"),
        RuleInner::Opt(b) => rule_name(&b.rule).concat("?"),
        RuleInner::SepBy(b) => "sepBy(".to_owned().concat(rule_name(&b.sep).as_str()).concat(
            ",",
        ).concat(rule_name(&b.rule).as_str()).concat(")"),
        RuleInner::SepBy1(b) => "sepBy1(".to_owned().concat(rule_name(&b.sep).as_str()).concat(
            ",",
        ).concat(rule_name(&b.rule).as_str()).concat(")"),
        RuleInner::Prec(b) => rule_name(&b.rule),
    }
}

/// The names of a list of rules, joined by `sep`.
#[verifier::loop_isolation(false)]
fn name_list(rs: &Vec<RuleInner>, sep: &str) -> (n: String)
    decreases rules_size(rs@), 1int,
{
    let mut out = String::new();
    let mut i: usize = 0;
    while i < rs.len()
        invariant
            i <= rs@.len(),
        decreases rs@.len() - i,
    {
        proof {
            lemma_rules_size_element(rs@, i as int);
        }
        if i > 0 {
            out = out.concat(sep);
        }
        out = out.concat(rule_name(&rs[i]).as_str());
        i = i + 1;
    }
    out
}

/// Linear search of the symbol table.
#[verifier::loop_isolation(false)]
pub fn symtab_get(t: &Vec<(String, Symbol)>, name: &String) -> (r: Option<Symbol>)
    ensures
        r == symtab_find(t@, name@),
{
    let mut i: usize = 0;
    while i < t.len()
        invariant
            i <= t@.len(),
            forall|k: int| 0 <= k < i ==> (#[trigger] t@[k]).0@ != name@,
        decreases t@.len() - i,
    {
        if t[i].0.eq(name) {
            proof {
                lemma_symtab_find_at(t@, name@, i as int);
            }
            return Some(t[i].1);
        }
        i = i + 1;
    }
    proof {
        lemma_symtab_find_some(t@, name@);
        if str_in(symtab_keys(t@), name@) {
            let i = choose|i: int| 0 <= i < symtab_keys(t@).len() && symtab_keys(t@)[i] == name@;
            assert(t@[i].0@ == name@);
        }
    }
    None
}


// ---------------------------------------------------------------------------
// Lowering a whole grammar, and augmentation
// ---------------------------------------------------------------------------

/// The keys of a name table are pairwise distinct.
pub open spec fn imap_keys_unique(m: indexmap::IndexMap<String, u32>) -> bool {
    forall|i: int, j: int| 0 <= i < j < imap_entries(m).len()
        ==> (#[trigger] imap_entries(m)[i]).0 != (#[trigger] imap_entries(m)[j]).0
}

/// The machine limits under which a validated grammar lowers: every id fits
/// in the dense 32-bit index space and the production list fits in memory.
pub open spec fn grammar_fits(g: Grammar) -> bool {
    &&& g.tokens@.len() + g.rules@.len() + rules_size(spec_rule_bodies(g)) + g.start@.len()
        < u32::MAX
    &&& 4 * rules_size(spec_rule_bodies(g)) + g.rules@.len() + g.start@.len() < usize::MAX
    &&& (g.rules@.len() + rules_size(spec_rule_bodies(g)) + g.start@.len() + 1)
        * (g.tokens@.len() + 64) <= usize::MAX
}

impl Bnf {
    /// Lowers a validated grammar: tokens are enumerated in declaration
    /// order, each user rule populates its pre-reserved nonterminal (user
    /// rules come first, in declaration order), and synthesized nonterminals
    /// follow in the order lowering reaches them.
    #[verifier::loop_isolation(false)]
    #[verifier::rlimit(100)]
    #[verifier::spinoff_prover]
    pub fn from_grammar(g: Grammar) -> (b: Bnf)
        requires
            grammar_valid(g),
            !has_dup(spec_rule_names(g)),
            grammar_fits(g),
        ensures
            bnf_wf(b),
            imap_entries(b.tokens).len() == g.tokens@.len(),
            forall|i: int| 0 <= i < g.tokens@.len()
                ==> (#[trigger] imap_entries(b.tokens)[i]) == (g.tokens@[i]@, i as u32),
            imap_entries(b.starts).len() == g.start@.len(),
            forall|i: int| 0 <= i < g.start@.len() ==> {
                let e = #[trigger] imap_entries(b.starts)[i];
                &&& e.0 == g.start@[i]@
                &&& e.1 < g.rules@.len()
                &&& spec_rule_names(g)[e.1 as int] == g.start@[i]@
            },
            imap_keys_unique(b.starts),
            g.rules@.len() <= b.nonterms@.len(),
            forall|j: int| 0 <= j < g.rules@.len()
                ==> (#[trigger] b.nonterms@[j]).name@ == spec_rule_names(g)[j],
            // every user rule's nonterminal carries the rule's canonical
            // lowered content, resolved against the grammar's own symbol
            // table
            forall|j: int| 0 <= j < g.rules@.len()
                ==> lowered_nt_matches(grammar_symtab(g), bnf_st(b), j,
                    #[trigger] spec_rule_bodies(g)[j], g.rules@.len() as int,
                    b.nonterms@.len() as int),
            b.nonterms@.len() <= g.rules@.len() + rules_size(spec_rule_bodies(g)),
            b.prods@.len() <= 4 * rules_size(spec_rule_bodies(g)),
    {
        let ghost bodies = spec_rule_bodies(g);
        let ghost rnames = spec_rule_names(g);
        let Grammar { tokens: gtokens, start: gstart, rules: grules } = g;
        let ghost grules0 = grules@;
        proof {
            assert(grules0 == g.rules@);
            assert forall|j: int| 0 <= j < grules0.len() implies rnames[j] == grules0[j].0@
                && bodies[j] == (#[trigger] grules0[j]).1.0 by {
                assert(rnames[j] == g.rules@[j].0@);
                assert(bodies[j] == g.rules@[j].1.0);
            }
        }
        let n_tokens: usize = gtokens.len();
        let n_rules: usize = grules.len();

        // Token table: name -> dense index, in declaration order.
        let mut tokens = imap_new();
        let mut i: usize = 0;
        while i < n_tokens
            invariant
                i <= n_tokens,
                imap_entries(tokens).len() == i,
                forall|j: int| 0 <= j < i
                    ==> (#[trigger] imap_entries(tokens)[j]) == (gtokens@[j]@, j as u32),
            decreases n_tokens - i,
        {
            proof {
                if imap_has_key(tokens, gtokens@[i as int]@) {
                    let j = choose|j: int| 0 <= j < imap_entries(tokens).len()
                        && imap_entries(tokens)[j].0 == gtokens@[i as int]@;
                    assert(names_of(gtokens@)[j] == names_of(gtokens@)[i as int]);
                    assert(false);
                }
            }
            imap_insert_new(&mut tokens, gtokens[i].clone(), i as u32);
            i = i + 1;
        }

        // The symbol table: token names first, then rule names.
        let mut symbols: Vec<(String, Symbol)> = Vec::new();
        let mut i: usize = 0;
        while i < n_tokens
            invariant
                i <= n_tokens,
                symbols@.len() == i,
                forall|j: int| 0 <= j < i ==> (#[trigger] symbols@[j]).0@ == gtokens@[j]@
                    && symbols@[j].1 == Symbol::Term(TermId(j as u32)),
            decreases n_tokens - i,
        {
            symbols.push((gtokens[i].clone(), Symbol::Term(TermId(i as u32))));
            i = i + 1;
        }
        let mut i: usize = 0;
        while i < n_rules
            invariant
                i <= n_rules,
                symbols@.len() == n_tokens + i,
                forall|j: int| 0 <= j < n_tokens ==> (#[trigger] symbols@[j]).0@ == gtokens@[j]@
                    && symbols@[j].1 == Symbol::Term(TermId(j as u32)),
                forall|j: int| 0 <= j < i
                    ==> (#[trigger] symbols@[n_tokens + j]).0@ == grules0[j].0@
                        && symbols@[n_tokens + j].1 == Symbol::Nonterm(NontermId(j as u32)),
            decreases n_rules - i,
        {
            symbols.push((grules[i].0.clone(), Symbol::Nonterm(NontermId(i as u32))));
            i = i + 1;
        }
        proof {
            assert forall|j: int| 0 <= j < n_tokens + n_rules implies
                #[trigger] symtab_keys(symbols@)[j] == spec_all_names(g)[j] by {
                assert(symtab_keys(symbols@)[j] == symbols@[j].0@);
                if j < n_tokens {
                    assert(spec_all_names(g)[j] == names_of(g.tokens@)[j]);
                } else {
                    let jj = j - n_tokens;
                    assert(spec_all_names(g)[j] == rnames[jj]);
                    assert(symbols@[n_tokens + jj].0@ == grules0[jj].0@);
                    assert(symbols@[j].0@ == grules0[jj].0@);
                }
            }
            assert(symtab_keys(symbols@) =~= spec_all_names(g));
        }

        // Pre-reserve one pending nonterminal per user rule.
        let mut nonterms: Vec<Nonterm> = Vec::new();
        let mut i: usize = 0;
        while i < n_rules
            invariant
                i <= n_rules,
                nonterms@.len() == i,
                forall|j: int| 0 <= j < i ==> nt_pending(#[trigger] nonterms@[j])
                    && nonterms@[j].prod_start == 0 && nonterms@[j].prod_end == 0,
            decreases n_rules - i,
        {
            nonterms.push(Nonterm { name: String::new(), prod_start: 0, prod_end: 0 });
            i = i + 1;
        }
        let mut st = LowerSt { nonterms, prods: Vec::new() };
        let ghost n_terms: int = n_tokens as int;
        proof {
            assert(st_wf(st, n_terms));
            assert forall|j: int| 0 <= j < symbols@.len() implies sym_wf(
                (#[trigger] symbols@[j]).1, n_terms, st.nonterms@.len() as int) by {
                if j < n_tokens {
                    assert(symbols@[j].1 == Symbol::Term(TermId(j as u32)));
                } else {
                    let jj = j - n_tokens;
                    assert(symbols@[n_tokens + jj].1 == Symbol::Nonterm(NontermId(jj as u32)));
                    assert(symbols@[j].1 == Symbol::Nonterm(NontermId(jj as u32)));
                }
            }
            assert(bodies.skip(0) =~= bodies);
            assert(grules0.skip(0) =~= grules0);
        }

        // Lower each user rule into its reserved nonterminal.
        let mut rules = grules;
        let mut k: usize = 0;
        while rules.len() > 0
            invariant
                k + rules@.len() == n_rules,
                rules@ =~= grules0.skip(k as int),
                st_wf(st, n_terms),
                symtab_wf(symbols@, n_terms, st.nonterms@.len() as int),
                n_rules <= st.nonterms@.len(),
                st.nonterms@.len() + rules_size(bodies.skip(k as int))
                    <= n_rules + rules_size(bodies),
                st.prods@.len() + 4 * rules_size(bodies.skip(k as int))
                    <= 4 * rules_size(bodies),
                forall|j: int| 0 <= j < k ==> nt_complete(#[trigger] st.nonterms@[j]),
                forall|j: int| k <= j < n_rules ==> nt_pending(#[trigger] st.nonterms@[j]),
                forall|j: int| n_rules <= j < st.nonterms@.len()
                    ==> nt_complete(#[trigger] st.nonterms@[j]),
                forall|j: int| 0 <= j < k ==> (#[trigger] st.nonterms@[j]).name@ == rnames[j],
                forall|j: int| 0 <= j < k
                    ==> lowered_nt_matches(symbols@, st, j, #[trigger] bodies[j],
                        n_rules as int, st.nonterms@.len() as int),
            decreases rules@.len(),
        {
            let ghost pre_rules = rules@;
            let ghost pre_st = st;
            let (name, rule) = rules.remove(0);
            proof {
                assert(pre_rules[0] == (name, rule));
                assert(grules0.skip(k as int)[0] == grules0[k as int]);
                assert(name@ == rnames[k as int]);
                assert(rule.0 == bodies[k as int]);
                assert(rules@ =~= pre_rules.drop_first());
                assert(grules0.skip(k as int).drop_first() =~= grules0.skip(k as int + 1));
                assert(rules@ =~= grules0.skip(k as int + 1));
                assert(bodies.skip(k as int)[0] == bodies[k as int]);
                assert(bodies.skip(k as int).drop_first() =~= bodies.skip(k as int + 1));
                assert(rules_size(bodies.skip(k as int))
                    == rule_size(rule.0) + rules_size(bodies.skip(k as int + 1)));
                lemma_rule_size_pos(rule.0);
                // the rule body is valid against the table keys
                lemma_rules_valid_element(bodies, spec_all_names(g), k as int);
                assert(rule_valid(rule.0, symtab_keys(symbols@)));
                // the table's first match for this name is its reserved id
                assert forall|k2: int| 0 <= k2 < n_tokens + k implies
                    (#[trigger] symbols@[k2]).0@ != name@ by {
                    if k2 < n_tokens {
                        assert(!str_in(rnames, g.tokens@[k2]@));
                        assert(symbols@[k2].0@ == g.tokens@[k2]@);
                        if symbols@[k2].0@ == name@ {
                            assert(rnames[k as int] == g.tokens@[k2]@);
                            assert(false);
                        }
                    } else {
                        let jj = k2 - n_tokens;
                        assert(symbols@[n_tokens + jj].0@ == grules0[jj].0@);
                        assert(symbols@[k2].0@ == rnames[jj]);
                        if symbols@[k2].0@ == name@ {
                            assert(rnames[jj] == rnames[k as int]);
                            assert(false);
                        }
                    }
                }
                assert(symbols@[n_tokens + k].0@ == name@);
                lemma_symtab_find_at(symbols@, name@, n_tokens as int + k);
                assert(symtab_find(symbols@, name@)
                    == Some(Symbol::Nonterm(NontermId(k as u32))));
                assert(reserve_target(st, symbols@, name@) == Some(k as int));
            }
            let (st1, id) = gen_nonterm(st, &symbols, name, rule.0, true, Ghost(n_terms));
            proof {
                assert(id == k as u32);
            }
            st = st1;
            proof {
                lemma_symtab_wf_mono(symbols@, n_terms, pre_st.nonterms@.len() as int,
                    st.nonterms@.len() as int);
                assert forall|j: int| 0 <= j < k + 1 implies lowered_nt_matches(symbols@,
                    st, j, #[trigger] bodies[j], n_rules as int,
                    st.nonterms@.len() as int) by {
                    if j < k {
                        lemma_lowered_nt_stable(symbols@, pre_st, st, j, k as int, n_terms,
                            bodies[j], n_rules as int, pre_st.nonterms@.len() as int);
                        lemma_lowered_nt_widen(symbols@, st, j, bodies[j], n_rules as int,
                            pre_st.nonterms@.len() as int, n_rules as int,
                            st.nonterms@.len() as int);
                    } else {
                        lemma_lowered_nt_widen(symbols@, st, k as int, bodies[k as int],
                            pre_st.nonterms@.len() as int, st.nonterms@.len() as int,
                            n_rules as int, st.nonterms@.len() as int);
                    }
                }
            }
            k = k + 1;
        }

        // Bind each start name to its rule's nonterminal.
        let mut starts = imap_new();
        let mut i: usize = 0;
        while i < gstart.len()
            invariant
                i <= gstart@.len(),
                imap_entries(starts).len() == i,
                forall|j: int| 0 <= j < i ==> {
                    let e = #[trigger] imap_entries(starts)[j];
                    &&& e.0 == gstart@[j]@
                    &&& e.1 < n_rules
                    &&& rnames[e.1 as int] == gstart@[j]@
                },
            decreases gstart@.len() - i,
        {
            proof {
                assert(str_in(rnames, gstart@[i as int]@));
                let j = choose|j: int| 0 <= j < rnames.len() && rnames[j] == gstart@[i as int]@;
                assert(symbols@[n_tokens + j].0@ == rnames[j]);
                assert(symtab_keys(symbols@)[n_tokens + j] == gstart@[i as int]@);
                assert(str_in(symtab_keys(symbols@), gstart@[i as int]@));
                lemma_symtab_find_some(symbols@, gstart@[i as int]@);
                lemma_symtab_find_wf(symbols@, gstart@[i as int]@);
            }
            let sym = symtab_get(&symbols, &gstart[i]).unwrap();
            proof {
                let w = choose|w: int| 0 <= w < symbols@.len() && (#[trigger] symbols@[w]).1
                    == sym && symbols@[w].0@ == gstart@[i as int]@;
                if w < n_tokens {
                    assert(symbols@[w].0@ == g.tokens@[w]@);
                    assert(!str_in(rnames, g.tokens@[w]@));
                    assert(false);
                }
                let ww = w - n_tokens;
                assert(symbols@[n_tokens + ww].1 == Symbol::Nonterm(NontermId(ww as u32)));
                assert(symbols@[n_tokens + ww].0@ == grules0[ww].0@);
                assert(symbols@[w].1 == Symbol::Nonterm(NontermId(ww as u32)));
                assert(rnames[ww] == gstart@[i as int]@);
            }
            match sym {
                Symbol::Nonterm(nid) => {
                    proof {
                        if imap_has_key(starts, gstart@[i as int]@) {
                            let j = choose|j: int| 0 <= j < imap_entries(starts).len()
                                && imap_entries(starts)[j].0 == gstart@[i as int]@;
                            assert(names_of(gstart@)[j] == names_of(gstart@)[i as int]);
                            assert(false);
                        }
                    }
                    imap_insert_new(&mut starts, gstart[i].clone(), nid.0);
                },
                Symbol::Term(_) => {
                    proof {
                        assert(false);
                    }
                },
            }
            i = i + 1;
        }
        proof {
            assert forall|a: int, b2: int| 0 <= a < b2 < imap_entries(starts).len() implies
                (#[trigger] imap_entries(starts)[a]).0
                    != (#[trigger] imap_entries(starts)[b2]).0 by {
                assert(names_of(gstart@)[a] == imap_entries(starts)[a].0);
                assert(names_of(gstart@)[b2] == imap_entries(starts)[b2].0);
            }
        }
        let b = Bnf { tokens, starts, nonterms: st.nonterms, prods: st.prods };
        proof {
            assert(bnf_st(b) == st);
            // the symbol table the loop used agrees, key view by key view,
            // with the grammar's own
            assert(grammar_symtab(g).len() == symbols@.len());
            assert forall|i: int| 0 <= i < symbols@.len() implies
                (#[trigger] symbols@[i]).0@ == grammar_symtab(g)[i].0@
                    && symbols@[i].1 == grammar_symtab(g)[i].1 by {
                if i < n_tokens {
                    assert(grammar_symtab(g)[i] == (g.tokens@[i], Symbol::Term(TermId(
                        i as u32,
                    ))));
                    assert(symbols@[i].0@ == gtokens@[i]@);
                } else {
                    let jj = i - n_tokens;
                    assert(grammar_symtab(g)[i] == (g.rules@[jj].0, Symbol::Nonterm(NontermId(
                        jj as u32,
                    ))));
                    assert(symbols@[n_tokens + jj].0@ == grules0[jj].0@);
                    assert(symbols@[n_tokens + jj].1 == Symbol::Nonterm(NontermId(
                        jj as u32,
                    )));
                }
            }
            assert forall|j: int| 0 <= j < g.rules@.len() implies lowered_nt_matches(
                grammar_symtab(g), bnf_st(b), j, #[trigger] spec_rule_bodies(g)[j],
                g.rules@.len() as int, b.nonterms@.len() as int) by {
                assert(lowered_nt_matches(symbols@, st, j, spec_rule_bodies(g)[j],
                    g.rules@.len() as int, st.nonterms@.len() as int));
                lemma_lowered_nt_views(symbols@, grammar_symtab(g), bnf_st(b), j,
                    spec_rule_bodies(g)[j], g.rules@.len() as int,
                    b.nonterms@.len() as int);
            }
        }
        b
    }
}


impl Bnf {
    /// Augments the grammar: for each start name `S` bound to nonterminal
    /// `N`, appends a fresh nonterminal `$start(S)` whose single production is
    /// `$start(S) -> N` with the default action and no precedence, and
    /// rebinds the start to the fresh nonterminal.
    #[verifier::loop_isolation(false)]
    #[verifier::rlimit(60)]
    #[verifier::spinoff_prover]
    pub fn augment(self) -> (r: Bnf)
        requires
            bnf_wf(self),
            imap_keys_unique(self.starts),
            self.nonterms@.len() + imap_entries(self.starts).len() < u32::MAX,
            self.prods@.len() + imap_entries(self.starts).len() < usize::MAX,
        ensures
            bnf_wf(r),
            r.tokens == self.tokens,
            imap_entries(r.starts).len() == imap_entries(self.starts).len(),
            imap_keys_unique(r.starts),
            r.nonterms@.len() == self.nonterms@.len() + imap_entries(self.starts).len(),
            forall|j: int| 0 <= j < self.nonterms@.len()
                ==> #[trigger] r.nonterms@[j] == self.nonterms@[j],
            r.prods@.len() == self.prods@.len() + imap_entries(self.starts).len(),
            forall|p: int| 0 <= p < self.prods@.len()
                ==> #[trigger] r.prods@[p] == self.prods@[p],
            // each augmented start: one fresh nonterminal with exactly one
            // production, action `Plain`, no precedence, and one symbol: the
            // formerly bound start nonterminal
            forall|i: int| 0 <= i < imap_entries(self.starts).len() ==> {
                let e = #[trigger] imap_entries(r.starts)[i];
                let nt = r.nonterms@[e.1 as int];
                let q = r.prods@[nt.prod_start as int];
                &&& e.0 == imap_entries(self.starts)[i].0
                &&& e.1 == self.nonterms@.len() + i
                &&& nt.prod_end == nt.prod_start + 1
                &&& nt.prod_start == self.prods@.len() + i
                &&& nt.name@ == "$start("@ + e.0 + ")"@
                &&& q.action == ProdAction::Plain
                &&& q.prec is None
                &&& q.assoc == Assoc::Nonassoc
                &&& q.symbols@ =~= seq![
                    Symbol::Nonterm(NontermId(imap_entries(self.starts)[i].1)),
                ]
            },
    {
        let ghost orig = self;
        let Bnf { tokens, starts, mut nonterms, mut prods } = self;
        let ghost base_nt = nonterms@.len() as int;
        let ghost base_pr = prods@.len() as int;
        let s_count: usize = imap_len(&starts);
        let mut new_starts = imap_new();
        let mut i: usize = 0;
        while i < s_count
            invariant
                i <= s_count,
                s_count == imap_entries(starts).len(),
                nonterms@.len() == base_nt + i,
                prods@.len() == base_pr + i,
                forall|j: int| 0 <= j < base_nt ==> #[trigger] nonterms@[j] == orig.nonterms@[j],
                forall|p: int| 0 <= p < base_pr ==> #[trigger] prods@[p] == orig.prods@[p],
                imap_entries(new_starts).len() == i,
                forall|j: int| 0 <= j < i ==> {
                    let e = #[trigger] imap_entries(new_starts)[j];
                    let nt = nonterms@[e.1 as int];
                    let q = prods@[nt.prod_start as int];
                    &&& e.0 == imap_entries(starts)[j].0
                    &&& e.1 == base_nt + j
                    &&& nt.prod_end == nt.prod_start + 1
                    &&& nt.prod_start == base_pr + j
                    &&& nt.name@ == "$start("@ + e.0 + ")"@
                    &&& q.nonterm_id.0 == base_nt + j
                    &&& q.action == ProdAction::Plain
                    &&& q.prec is None
                    &&& q.assoc == Assoc::Nonassoc
                    &&& q.symbols@ =~= seq![
                        Symbol::Nonterm(NontermId(imap_entries(starts)[j].1)),
                    ]
                },
            decreases s_count - i,
        {
            let pair = imap_get_index(&starts, i).unwrap();
            let new_id: u32 = nonterms.len() as u32;
            let nt_name = "$start(".to_owned().concat(pair.0.as_str()).concat(")");
            let pstart: usize = prods.len();
            nonterms.push(Nonterm { name: nt_name, prod_start: pstart, prod_end: pstart + 1 });
            let mut syms: Vec<Symbol> = Vec::new();
            syms.push(Symbol::Nonterm(NontermId(pair.1)));
            prods.push(mk_prod(new_id, ProdAction::Plain, syms));
            proof {
                if imap_has_key(new_starts, pair.0@) {
                    let j = choose|j: int| 0 <= j < imap_entries(new_starts).len()
                        && imap_entries(new_starts)[j].0 == pair.0@;
                    assert(imap_entries(starts)[j].0 == imap_entries(starts)[i as int].0);
                    assert(false);
                }
            }
            imap_insert_new(&mut new_starts, pair.0, new_id);
            i = i + 1;
        }
        let r = Bnf { tokens, starts: new_starts, nonterms, prods };
        proof {
            let rst = LowerSt { nonterms: r.nonterms, prods: r.prods };
            let n_terms = imap_entries(r.tokens).len() as int;
            let ost = LowerSt { nonterms: orig.nonterms, prods: orig.prods };
            assert(st_wf(ost, n_terms));
            assert forall|w: int| 0 <= w < rst.nonterms@.len() implies
                (#[trigger] rst.nonterms@[w]).prod_start <= rst.nonterms@[w].prod_end
                    && rst.nonterms@[w].prod_end <= rst.prods@.len() by {
                if w < base_nt {
                    assert(rst.nonterms@[w] == ost.nonterms@[w]);
                    assert(ost.nonterms@[w].prod_end <= ost.prods@.len());
                } else {
                    let j = w - base_nt;
                    let e = imap_entries(new_starts)[j];
                    assert(e.1 == base_nt + j);
                    assert(rst.nonterms@[e.1 as int].prod_end == base_pr + j + 1);
                }
            }
            assert forall|p: int| 0 <= p < rst.prods@.len() implies prod_covered(rst.nonterms@,
                p) by {
                if p < base_pr {
                    assert(prod_covered(ost.nonterms@, p));
                    let w = choose|w: int| 0 <= w < ost.nonterms@.len()
                        && (#[trigger] ost.nonterms@[w]).prod_start <= p
                            < ost.nonterms@[w].prod_end;
                    assert(rst.nonterms@[w] == ost.nonterms@[w]);
                } else {
                    let j = p - base_pr;
                    let e = imap_entries(new_starts)[j];
                    assert(rst.nonterms@[e.1 as int].prod_start <= p
                        < rst.nonterms@[e.1 as int].prod_end);
                }
            }
            assert forall|p: int| 0 <= p < rst.prods@.len() implies prod_wf(
                #[trigger] rst.prods@[p], n_terms, rst.nonterms@.len() as int) by {
                if p < base_pr {
                    assert(rst.prods@[p] == ost.prods@[p]);
                    assert(prod_wf(ost.prods@[p], n_terms, ost.nonterms@.len() as int));
                    lemma_prod_wf_mono(ost.prods@[p], n_terms, ost.nonterms@.len() as int,
                        rst.nonterms@.len() as int);
                } else {
                    let j = p - base_pr;
                    let e = imap_entries(new_starts)[j];
                    assert(e.1 == base_nt + j);
                    assert(rst.nonterms@[e.1 as int].prod_start == base_pr + j);
                    assert(rst.prods@[rst.nonterms@[e.1 as int].prod_start as int].symbols@
                        =~= seq![Symbol::Nonterm(NontermId(imap_entries(starts)[j].1))]);
                    assert(rst.prods@[p].symbols@
                        =~= seq![Symbol::Nonterm(NontermId(imap_entries(starts)[j].1))]);
                    assert(imap_entries(starts)[j].1 < orig.nonterms@.len());
                    assert forall|l: int| 0 <= l < rst.prods@[p].symbols@.len() implies sym_wf(
                        #[trigger] rst.prods@[p].symbols@[l], n_terms,
                        rst.nonterms@.len() as int) by {
                        assert(rst.prods@[p].symbols@[l]
                            == Symbol::Nonterm(NontermId(imap_entries(starts)[j].1)));
                    }
                }
            }
            assert forall|w: int, p: int| 0 <= w < rst.nonterms@.len()
                && (#[trigger] rst.nonterms@[w]).prod_start <= p < rst.nonterms@[w].prod_end
                implies (#[trigger] rst.prods@[p]).nonterm_id.0 == w by {
                if w < base_nt {
                    assert(rst.nonterms@[w] == ost.nonterms@[w]);
                    assert(ost.nonterms@[w].prod_end <= ost.prods@.len());
                    assert(p < base_pr);
                    assert(rst.prods@[p] == ost.prods@[p]);
                    assert(ost.prods@[p].nonterm_id.0 == w);
                } else {
                    let j = w - base_nt;
                    let e = imap_entries(new_starts)[j];
                    assert(e.1 == base_nt + j);
                    assert(rst.nonterms@[e.1 as int].prod_start == base_pr + j);
                    assert(p == base_pr + j);
                }
            }
            assert(st_wf(rst, n_terms));
            assert forall|w: int| 0 <= w < r.nonterms@.len() implies nt_complete(
                #[trigger] r.nonterms@[w]) by {
                if w < base_nt {
                    assert(r.nonterms@[w] == orig.nonterms@[w]);
                    assert(nt_complete(orig.nonterms@[w]));
                } else {
                    let j = w - base_nt;
                    let e = imap_entries(new_starts)[j];
                    assert(e.1 == base_nt + j);
                    assert(r.nonterms@[e.1 as int].prod_end
                        == r.nonterms@[e.1 as int].prod_start + 1);
                }
            }
            assert forall|w: int| 0 <= w < imap_entries(r.starts).len() implies
                (#[trigger] imap_entries(r.starts)[w]).1 < r.nonterms@.len() by {
                let e = imap_entries(new_starts)[w];
                assert(e.1 == base_nt + w);
            }
        }
        r
    }
}


// ---------------------------------------------------------------------------
// The textual format, as a specification: lines, arrows, trimming, words
// ---------------------------------------------------------------------------

/// Whether a character counts as blank in the textual format.
pub open spec fn is_blank_char(c: char) -> bool {
    c == ' ' || c == '\t' || c == '\r'
}

/// The position of the first newline at or after `i` (the length if none).
pub open spec fn find_nl(s: Seq<char>, i: int) -> int
    decreases s.len() - i,
{
    if i < 0 || i >= s.len() {
        s.len() as int
    } else if s[i] == '\n' {
        i
    } else {
        find_nl(s, i + 1)
    }
}

pub proof fn lemma_find_nl_bounds(s: Seq<char>, i: int)
    requires
        0 <= i <= s.len(),
    ensures
        i <= find_nl(s, i) <= s.len(),
    decreases s.len() - i,
{
    if i < s.len() && s[i] != '\n' {
        lemma_find_nl_bounds(s, i + 1);
    }
}

/// The position of the first `->` between `i` and `end` (`end` if none).
pub open spec fn find_arrow(s: Seq<char>, i: int, end: int) -> int
    decreases end - i,
{
    if i < 0 || i + 1 >= end || end > s.len() {
        end
    } else if s[i] == '-' && s[i + 1] == '>' {
        i
    } else {
        find_arrow(s, i + 1, end)
    }
}

/// An arrow that was found really sits before the line end.
pub proof fn lemma_find_arrow_hit(s: Seq<char>, i: int, end: int)
    requires
        0 <= i <= end,
    ensures
        find_arrow(s, i, end) < end ==> find_arrow(s, i, end) + 1 < end,
    decreases end - i,
{
    if !(i + 1 >= end || end > s.len()) && !(s[i] == '-' && s[i + 1] == '>') {
        lemma_find_arrow_hit(s, i + 1, end);
    }
}

/// The first non-blank position in `i .. end` (`end` if none).
pub open spec fn skip_blanks(s: Seq<char>, i: int, end: int) -> int
    decreases end - i,
{
    if i < 0 || i >= end || end > s.len() {
        end
    } else if is_blank_char(s[i]) {
        skip_blanks(s, i + 1, end)
    } else {
        i
    }
}

/// Drops trailing blanks: the least `z' >= a` with only blanks in `z' .. z`.
pub open spec fn trim_back(s: Seq<char>, a: int, z: int) -> int
    decreases z - a,
{
    if z <= a || a < 0 || z > s.len() {
        z
    } else if is_blank_char(s[z - 1]) {
        trim_back(s, a, z - 1)
    } else {
        z
    }
}

/// The first blank position at or after `i`, capped at `end`.
pub open spec fn word_end(s: Seq<char>, i: int, end: int) -> int
    decreases end - i,
{
    if i < 0 || i >= end || end > s.len() {
        end
    } else if is_blank_char(s[i]) {
        i
    } else {
        word_end(s, i + 1, end)
    }
}

pub proof fn lemma_word_end_bounds(s: Seq<char>, i: int, end: int)
    requires
        0 <= i <= end,
    ensures
        i <= word_end(s, i, end) <= end,
    decreases end - i,
{
    if !(i >= end || end > s.len()) && !is_blank_char(s[i]) {
        lemma_word_end_bounds(s, i + 1, end);
    }
}

/// The blank-separated words of `i .. end`, in order.
pub open spec fn words(s: Seq<char>, i: int, end: int) -> Seq<Seq<char>>
    decreases end - i
        via words_dec
{
    if i < 0 || i >= end || end > s.len() {
        seq![]
    } else if is_blank_char(s[i]) {
        words(s, i + 1, end)
    } else {
        seq![s.subrange(i, word_end(s, i, end))] + words(s, word_end(s, i, end), end)
    }
}

#[via_fn]
proof fn words_dec(s: Seq<char>, i: int, end: int) {
    if !(i < 0 || i >= end || end > s.len()) && !is_blank_char(s[i]) {
        lemma_word_end_bounds(s, i + 1, end);
        assert(word_end(s, i, end) == word_end(s, i + 1, end));
    }
}

/// What one line contributes: with an arrow present and a non-empty trimmed
/// left-hand side, the name (a trailing `*` stripped and marking a start)
/// and the right-hand-side words, read up to the next arrow if the line has
/// a second one; otherwise nothing.
pub open spec fn line_entry(s: Seq<char>, a0: int, b0: int) -> Option<(
    Seq<char>,
    bool,
    Seq<Seq<char>>,
)> {
    let arrow = find_arrow(s, a0, b0);
    if arrow >= b0 {
        None
    } else {
        let a = skip_blanks(s, a0, arrow);
        let z0 = trim_back(s, a, arrow);
        let star = z0 > a && s[z0 - 1] == '*';
        let z = if star {
            trim_back(s, a, z0 - 1)
        } else {
            z0
        };
        if a >= z {
            None
        } else {
            Some((s.subrange(a, z), star, words(s, arrow + 2, find_arrow(s, arrow + 2, b0))))
        }
    }
}

/// The entries of the whole text, line by line from `pos`.
pub open spec fn scan_entries(s: Seq<char>, pos: int) -> Seq<(Seq<char>, bool, Seq<Seq<char>>)>
    decreases s.len() - pos
        via scan_entries_dec
{
    if pos < 0 || pos >= s.len() {
        seq![]
    } else {
        let e0 = find_nl(s, pos);
        let nxt = if e0 < s.len() {
            e0 + 1
        } else {
            s.len() as int
        };
        match line_entry(s, pos, e0) {
            Some(e) => seq![e] + scan_entries(s, nxt),
            None => scan_entries(s, nxt),
        }
    }
}

#[via_fn]
proof fn scan_entries_dec(s: Seq<char>, pos: int) {
    if !(pos < 0 || pos >= s.len()) {
        lemma_find_nl_bounds(s, pos);
    }
}

// ---------------------------------------------------------------------------
// The scanner: recursive mirrors of the specification above
// ---------------------------------------------------------------------------

fn find_nl_at(input: &str, n: usize, i: usize) -> (r: usize)
    requires
        n == input@.len(),
        i <= n,
    ensures
        r == find_nl(input@, i as int),
        i <= r <= n,
    decreases n - i,
{
    if i >= n {
        n
    } else if input.get_char(i) == '\n' {
        i
    } else {
        find_nl_at(input, n, i + 1)
    }
}

fn find_arrow_at(input: &str, n: usize, i: usize, end: usize) -> (r: usize)
    requires
        n == input@.len(),
        i <= end <= n,
    ensures
        r == find_arrow(input@, i as int, end as int),
        i <= r <= end,
    decreases end - i,
{
    if end - i < 2 {
        end
    } else if input.get_char(i) == '-' && input.get_char(i + 1) == '>' {
        i
    } else {
        find_arrow_at(input, n, i + 1, end)
    }
}

fn skip_blanks_at(input: &str, n: usize, i: usize, end: usize) -> (r: usize)
    requires
        n == input@.len(),
        i <= end <= n,
    ensures
        r == skip_blanks(input@, i as int, end as int),
        i <= r <= end,
    decreases end - i,
{
    if i >= end {
        end
    } else if is_blank(input.get_char(i)) {
        skip_blanks_at(input, n, i + 1, end)
    } else {
        i
    }
}

fn trim_back_at(input: &str, n: usize, a: usize, z: usize) -> (r: usize)
    requires
        n == input@.len(),
        a <= z <= n,
    ensures
        r == trim_back(input@, a as int, z as int),
        a <= r <= z,
    decreases z - a,
{
    if z <= a {
        z
    } else if is_blank(input.get_char(z - 1)) {
        trim_back_at(input, n, a, z - 1)
    } else {
        z
    }
}

fn word_end_at(input: &str, n: usize, i: usize, end: usize) -> (r: usize)
    requires
        n == input@.len(),
        i <= end <= n,
    ensures
        r == word_end(input@, i as int, end as int),
        i <= r <= end,
    decreases end - i,
{
    if i >= end {
        end
    } else if is_blank(input.get_char(i)) {
        i
    } else {
        word_end_at(input, n, i + 1, end)
    }
}

/// The views of a list of words.
pub open spec fn word_views(v: Seq<String>) -> Seq<Seq<char>> {
    v.map_values(|w: String| w@)
}

fn scan_words(input: &str, n: usize, i: usize, end: usize, out: Vec<String>) -> (r: Vec<String>)
    requires
        input.is_ascii(),
        n == input@.len(),
        i <= end <= n,
    ensures
        word_views(r@) == word_views(out@) + words(input@, i as int, end as int),
    decreases end - i,
{
    if i >= end {
        proof {
            assert(word_views(out@) + words(input@, i as int, end as int)
                =~= word_views(out@));
        }
        out
    } else if is_blank(input.get_char(i)) {
        scan_words(input, n, i + 1, end, out)
    } else {
        let we = word_end_at(input, n, i + 1, end);
        proof {
            assert(we == word_end(input@, i as int, end as int));
        }
        let w = input.substring_ascii(i, we).to_owned();
        let ghost pre = out@;
        let mut out = out;
        out.push(w);
        proof {
            assert(word_views(out@) =~= word_views(pre).push(w@));
        }
        let r = scan_words(input, n, we, end, out);
        proof {
            assert(word_views(pre).push(w@) + words(input@, we as int, end as int)
                =~= word_views(pre) + (seq![w@] + words(input@, we as int, end as int)));
            assert(w@ == input@.subrange(i as int, we as int));
        }
        r
    }
}

/// The view of one scanned entry.
pub open spec fn entry_view(e: (String, bool, Vec<String>)) -> (Seq<char>, bool, Seq<Seq<char>>) {
    (e.0@, e.1, word_views(e.2@))
}

/// The views of the scanned entries.
pub open spec fn entry_views(v: Seq<(String, bool, Vec<String>)>) -> Seq<(
    Seq<char>,
    bool,
    Seq<Seq<char>>,
)> {
    v.map_values(|e: (String, bool, Vec<String>)| entry_view(e))
}

fn scan_line(input: &str, n: usize, a0: usize, b0: usize) -> (r: Option<(
    String,
    bool,
    Vec<String>,
)>)
    requires
        input.is_ascii(),
        n == input@.len(),
        a0 <= b0 <= n,
    ensures
        match r {
            Some(e) => line_entry(input@, a0 as int, b0 as int) == Some(entry_view(e)),
            None => line_entry(input@, a0 as int, b0 as int) is None,
        },
{
    let arrow = find_arrow_at(input, n, a0, b0);
    if arrow >= b0 {
        return None;
    }
    let a = skip_blanks_at(input, n, a0, arrow);
    let z0 = trim_back_at(input, n, a, arrow);
    let mut star = false;
    let mut z = z0;
    if z0 > a && input.get_char(z0 - 1) == '*' {
        star = true;
        z = trim_back_at(input, n, a, z0 - 1);
    }
    if a >= z {
        return None;
    }
    let name = input.substring_ascii(a, z).to_owned();
    proof {
        lemma_find_arrow_hit(input@, a0 as int, b0 as int);
    }
    let b1 = find_arrow_at(input, n, arrow + 2, b0);
    let rhs = scan_words(input, n, arrow + 2, b1, Vec::new());
    proof {
        assert(word_views(Seq::empty()) + words(input@, arrow as int + 2, b1 as int)
            =~= words(input@, arrow as int + 2, b1 as int));
        assert(word_views(rhs@) =~= words(input@, arrow as int + 2, b1 as int));
    }
    Some((name, star, rhs))
}

fn scan_from(input: &str, n: usize, pos: usize, out: Vec<(String, bool, Vec<String>)>) -> (r:
    Vec<(String, bool, Vec<String>)>)
    requires
        input.is_ascii(),
        n == input@.len(),
        pos <= n,
    ensures
        entry_views(r@) == entry_views(out@) + scan_entries(input@, pos as int),
    decreases n - pos,
{
    if pos >= n {
        proof {
            assert(entry_views(out@) + scan_entries(input@, pos as int)
                =~= entry_views(out@));
        }
        return out;
    }
    let e0 = find_nl_at(input, n, pos);
    let nxt: usize = if e0 < n {
        e0 + 1
    } else {
        n
    };
    let line = scan_line(input, n, pos, e0);
    let ghost pre = out@;
    let mut out = out;
    match line {
        Some(e) => {
            proof {
                assert(line_entry(input@, pos as int, e0 as int) == Some(entry_view(e)));
            }
            out.push(e);
            proof {
                assert(entry_views(out@) =~= entry_views(pre).push(entry_view(e)));
            }
        },
        None => {},
    }
    let r = scan_from(input, n, nxt, out);
    proof {
        match line_entry(input@, pos as int, e0 as int) {
            Some(ev) => {
                assert(entry_views(pre).push(ev) + scan_entries(input@, nxt as int)
                    =~= entry_views(pre) + (seq![ev] + scan_entries(input@, nxt as int)));
            },
            None => {},
        }
    }
    r
}

// ---------------------------------------------------------------------------
// From entries to a BNF, as a specification
// ---------------------------------------------------------------------------

/// The distinct names of a list, each kept at its first occurrence.
pub open spec fn first_seen(ns: Seq<Seq<char>>) -> Seq<Seq<char>>
    decreases ns,
{
    if ns.len() == 0 {
        seq![]
    } else {
        let f = first_seen(ns.drop_last());
        if str_in(f, ns.last()) {
            f
        } else {
            f.push(ns.last())
        }
    }
}

/// Keeping first occurrences keeps exactly the members.
pub proof fn lemma_first_seen_membership(ns: Seq<Seq<char>>, x: Seq<char>)
    ensures
        str_in(first_seen(ns), x) == str_in(ns, x),
    decreases ns,
{
    if ns.len() > 0 {
        lemma_first_seen_membership(ns.drop_last(), x);
        let f = first_seen(ns.drop_last());
        if str_in(ns, x) {
            let i = choose|i: int| 0 <= i < ns.len() && ns[i] == x;
            if i < ns.len() - 1 {
                assert(ns.drop_last()[i] == x);
                assert(str_in(f, x));
                let j = choose|j: int| 0 <= j < f.len() && f[j] == x;
                assert(first_seen(ns)[j] == x);
            } else {
                if str_in(f, x) {
                    let j = choose|j: int| 0 <= j < f.len() && f[j] == x;
                    assert(first_seen(ns)[j] == x);
                } else {
                    assert(first_seen(ns)[f.len() as int] == x);
                }
            }
            assert(str_in(first_seen(ns), x));
        }
        if str_in(first_seen(ns), x) {
            let i = choose|i: int| 0 <= i < first_seen(ns).len() && first_seen(ns)[i] == x;
            if !str_in(f, ns.last()) && i == f.len() {
                assert(ns.last() == x);
                assert(str_in(ns, x));
            } else {
                assert(f[i] == x);
                assert(str_in(ns.drop_last(), x));
                let j = choose|j: int| 0 <= j < ns.drop_last().len() && ns.drop_last()[j] == x;
                assert(ns[j] == x);
                assert(str_in(ns, x));
            }
        }
    }
}

/// The kept names are pairwise distinct.
pub proof fn lemma_first_seen_nodup(ns: Seq<Seq<char>>)
    ensures
        forall|i: int, j: int| 0 <= i < j < first_seen(ns).len()
            ==> first_seen(ns)[i] != first_seen(ns)[j],
    decreases ns,
{
    if ns.len() > 0 {
        lemma_first_seen_nodup(ns.drop_last());
        let f = first_seen(ns.drop_last());
        if !str_in(f, ns.last()) {
            assert forall|i: int, j: int| 0 <= i < j < first_seen(ns).len() implies
                first_seen(ns)[i] != first_seen(ns)[j] by {
                if j == f.len() {
                    assert(first_seen(ns)[i] == f[i]);
                    if f[i] == ns.last() {
                        assert(str_in(f, ns.last()));
                    }
                }
            }
        }
    }
}

/// The left-hand-side names of the entries, in order.
pub open spec fn entry_lhs(es: Seq<(Seq<char>, bool, Seq<Seq<char>>)>) -> Seq<Seq<char>> {
    es.map_values(|e: (Seq<char>, bool, Seq<Seq<char>>)| e.0)
}

/// The left-hand-side names of the starred entries, in order.
pub open spec fn starred_lhs(es: Seq<(Seq<char>, bool, Seq<Seq<char>>)>) -> Seq<Seq<char>>
    decreases es,
{
    if es.len() == 0 {
        seq![]
    } else {
        let f = starred_lhs(es.drop_last());
        if es.last().1 {
            f.push(es.last().0)
        } else {
            f
        }
    }
}

/// The right-hand sides of the entries with the given left-hand side, in
/// order.
pub open spec fn matches_of(es: Seq<(Seq<char>, bool, Seq<Seq<char>>)>, nm: Seq<char>)
    -> Seq<Seq<Seq<char>>>
    decreases es,
{
    if es.len() == 0 {
        seq![]
    } else {
        let f = matches_of(es.drop_last(), nm);
        if es.last().0 == nm {
            f.push(es.last().2)
        } else {
            f
        }
    }
}

/// A name that occurs as a left-hand side has at least one production.
pub proof fn lemma_matches_nonempty(es: Seq<(Seq<char>, bool, Seq<Seq<char>>)>, nm: Seq<char>)
    requires
        str_in(entry_lhs(es), nm),
    ensures
        matches_of(es, nm).len() >= 1,
    decreases es,
{
    if es.len() > 0 && es.last().0 != nm {
        let i = choose|i: int| 0 <= i < entry_lhs(es).len() && entry_lhs(es)[i] == nm;
        assert(entry_lhs(es.drop_last())[i] == nm);
        lemma_matches_nonempty(es.drop_last(), nm);
    }
}

/// The total number of right-hand-side words.
pub open spec fn total_rhs_words(es: Seq<(Seq<char>, bool, Seq<Seq<char>>)>) -> nat
    decreases es,
{
    if es.len() == 0 {
        0
    } else {
        total_rhs_words(es.drop_last()) + es.last().2.len()
    }
}

/// A prefix never has more words than the whole.
pub proof fn lemma_total_rhs_words_take(es: Seq<(Seq<char>, bool, Seq<Seq<char>>)>, e: int)
    requires
        0 <= e <= es.len(),
    ensures
        total_rhs_words(es.take(e)) <= total_rhs_words(es),
    decreases es.len() - e,
{
    if e < es.len() {
        lemma_total_rhs_words_take(es, e + 1);
        assert(es.take(e + 1).drop_last() =~= es.take(e));
        assert(es.take(e + 1).last() == es[e]);
    } else {
        assert(es.take(e) =~= es);
    }
}

/// The key views of a name table.
pub open spec fn imap_keys(m: indexmap::IndexMap<String, u32>) -> Seq<Seq<char>> {
    imap_entries(m).map_values(|e: (Seq<char>, u32)| e.0)
}

/// First-seen accumulation of the never-left-hand-side words of a stream:
/// the terminal names, in discovery order.
pub open spec fn tokens_of_words(lhs: Seq<Seq<char>>, ws: Seq<Seq<char>>) -> Seq<Seq<char>>
    decreases ws,
{
    if ws.len() == 0 {
        seq![]
    } else {
        let f = tokens_of_words(lhs, ws.drop_last());
        if str_in(lhs, ws.last()) || str_in(f, ws.last()) {
            f
        } else {
            f.push(ws.last())
        }
    }
}

/// All right-hand-side words of a group's productions, in order.
pub open spec fn group_words(ms: Seq<Seq<Seq<char>>>) -> Seq<Seq<char>>
    decreases ms,
{
    if ms.len() == 0 {
        seq![]
    } else {
        group_words(ms.drop_last()) + ms.last()
    }
}

/// The word stream of the first `g` groups, group-major: the order in which
/// the builder reads right-hand-side words.
pub open spec fn groups_stream(
    es: Seq<(Seq<char>, bool, Seq<Seq<char>>)>,
    lhs: Seq<Seq<char>>,
    g: int,
) -> Seq<Seq<char>>
    decreases g,
{
    if g <= 0 {
        seq![]
    } else {
        groups_stream(es, lhs, g - 1) + group_words(matches_of(es, lhs[g - 1]))
    }
}

/// How a right-hand-side word resolves: the nonterminal of a left-hand-side
/// name, else the terminal whose table key is the word.
pub open spec fn resolved_sym(
    lhs: Seq<Seq<char>>,
    toks: Seq<Seq<char>>,
    s: Symbol,
    w: Seq<char>,
) -> bool {
    if str_in(lhs, w) {
        s matches Symbol::Nonterm(m) && m.0 < lhs.len() && lhs[m.0 as int] == w
    } else {
        s matches Symbol::Term(t) && t.0 < toks.len() && toks[t.0 as int] == w
    }
}

/// A resolution survives appending new terminals to the table.
pub proof fn lemma_resolved_mono(
    lhs: Seq<Seq<char>>,
    t1: Seq<Seq<char>>,
    t2: Seq<Seq<char>>,
    s: Symbol,
    w: Seq<char>,
)
    requires
        resolved_sym(lhs, t1, s, w),
        t1.len() <= t2.len(),
        forall|i: int| 0 <= i < t1.len() ==> t2[i] == t1[i],
    ensures
        resolved_sym(lhs, t2, s, w),
{
}

/// A production that spells out one entry: the group's id, the default
/// action, no precedence, and the entry's words resolved in order.
pub open spec fn prod_matches_words(
    lhs: Seq<Seq<char>>,
    toks: Seq<Seq<char>>,
    p: Production,
    g: int,
    ws: Seq<Seq<char>>,
) -> bool {
    &&& p.nonterm_id.0 == g
    &&& p.action == ProdAction::Plain
    &&& p.prec is None
    &&& p.assoc == Assoc::Nonassoc
    &&& p.symbols@.len() == ws.len()
    &&& forall|x: int| 0 <= x < ws.len()
        ==> resolved_sym(lhs, toks, p.symbols@[x], #[trigger] ws[x])
}

pub proof fn lemma_prod_matches_mono(
    lhs: Seq<Seq<char>>,
    t1: Seq<Seq<char>>,
    t2: Seq<Seq<char>>,
    p: Production,
    g: int,
    ws: Seq<Seq<char>>,
)
    requires
        prod_matches_words(lhs, t1, p, g, ws),
        t1.len() <= t2.len(),
        forall|i: int| 0 <= i < t1.len() ==> t2[i] == t1[i],
    ensures
        prod_matches_words(lhs, t2, p, g, ws),
{
    assert forall|x: int| 0 <= x < ws.len() implies resolved_sym(lhs, t2, p.symbols@[x],
        #[trigger] ws[x]) by {
        lemma_resolved_mono(lhs, t1, t2, p.symbols@[x], ws[x]);
    }
}

/// The result of parsing a list of entries: one nonterminal per distinct
/// left-hand side, in first-seen order and under that name, with contiguous
/// production ranges spelling out that name's entries in order; token keys
/// are never left-hand-side names; and the starred names are bound, each
/// once at its first starred occurrence, to the nonterminal of that name.
pub open spec fn bnf_matches_entries(b: Bnf, es: Seq<(Seq<char>, bool, Seq<Seq<char>>)>)
    -> bool {
    let lhs = first_seen(entry_lhs(es));
    let toks = imap_keys(b.tokens);
    let sts = first_seen(starred_lhs(es));
    &&& b.nonterms@.len() == lhs.len()
    &&& forall|g: int| 0 <= g < lhs.len() ==> (#[trigger] b.nonterms@[g]).name@ == lhs[g]
    &&& (lhs.len() > 0 ==> b.nonterms@[0].prod_start == 0)
    &&& forall|g: int| 0 < g < lhs.len()
        ==> (#[trigger] b.nonterms@[g]).prod_start == b.nonterms@[g - 1].prod_end
    &&& (lhs.len() > 0 ==> b.nonterms@[lhs.len() - 1].prod_end == b.prods@.len())
    &&& (lhs.len() == 0 ==> b.prods@.len() == 0)
    &&& forall|g: int| 0 <= g < lhs.len() ==> {
        let nt = #[trigger] b.nonterms@[g];
        let ms = matches_of(es, lhs[g]);
        &&& nt.prod_end - nt.prod_start == ms.len()
        &&& forall|k: int| 0 <= k < ms.len()
            ==> prod_matches_words(lhs, toks, #[trigger] b.prods@[nt.prod_start + k], g,
                ms[k])
    }
    &&& forall|t: int| 0 <= t < toks.len() ==> !str_in(lhs, #[trigger] toks[t])
    &&& toks == tokens_of_words(lhs, groups_stream(es, lhs, lhs.len() as int))
    &&& imap_entries(b.starts).len() == sts.len()
    &&& forall|i: int| 0 <= i < sts.len() ==> {
        let e = #[trigger] imap_entries(b.starts)[i];
        &&& e.0 == sts[i]
        &&& e.1 < lhs.len()
        &&& lhs[e.1 as int] == e.0
    }
}

// ---------------------------------------------------------------------------
// The line-based textual format used by tests

// ---------------------------------------------------------------------------

/// Index of the first name equal to `s`, if any.
#[verifier::loop_isolation(false)]
fn vec_find(names: &Vec<String>, s: &String) -> (r: Option<usize>)
    ensures
        match r {
            Some(i) => i < names@.len() && names@[i as int]@ == s@,
            None => forall|j: int| 0 <= j < names@.len() ==> (#[trigger] names@[j])@ != s@,
        },
{
    let mut i: usize = 0;
    while i < names.len()
        invariant
            i <= names@.len(),
            forall|j: int| 0 <= j < i ==> (#[trigger] names@[j])@ != s@,
        decreases names@.len() - i,
    {
        if names[i].eq(s) {
            return Some(i);
        }
        i = i + 1;
    }
    None
}

/// Whether a character counts as blank in the textual format.
fn is_blank(c: char) -> (r: bool)
    ensures
        r == is_blank_char(c),
{
    c == ' ' || c == '\t' || c == '\r'
}

/// The crude machine bound under which every terminal of a parsed grammar
/// surely fits the dense 32-bit id space.
pub open spec fn parse_fits(es: Seq<(Seq<char>, bool, Seq<Seq<char>>)>) -> bool {
    (first_seen(entry_lhs(es)).len() + 1) * (total_rhs_words(es) + 1) + 2 < u32::MAX
}


/// Builds the nonterminal and production tables from the scanned entries,
/// grouped by left-hand side in first-seen order, discovering terminals in
/// first-seen order.
#[verifier::loop_isolation(false)]
#[verifier::rlimit(100)]
#[verifier::spinoff_prover]
fn build_groups(
    entries: &Vec<(String, bool, Vec<String>)>,
    lhs_names: &Vec<String>,
    Ghost(es): Ghost<Seq<(Seq<char>, bool, Seq<Seq<char>>)>>,
    Ghost(wi): Ghost<int>,
) -> (r: (Vec<String>, Vec<Nonterm>, Vec<Production>))
    requires
        es == entry_views(entries@),
        names_of(lhs_names@) == first_seen(entry_lhs(es)),
        lhs_names@.len() < u32::MAX,
        wi == total_rhs_words(es),
        (lhs_names@.len() + 1) * (wi + 1) + 2 < u32::MAX,
    ensures
        ({
            let (token_names, nonterms, prods) = r;
            let lhs = first_seen(entry_lhs(es));
            let n_rules = lhs_names@.len() as int;
            &&& token_names@.len() as int <= n_rules * wi
            &&& names_of(token_names@) == tokens_of_words(lhs, groups_stream(es, lhs,
                n_rules))
            &&& nonterms@.len() == n_rules
            &&& forall|a2: int, b2: int| 0 <= a2 < b2 < token_names@.len()
                ==> (#[trigger] token_names@[a2])@ != (#[trigger] token_names@[b2])@
            &&& forall|t: int| 0 <= t < token_names@.len()
                ==> !str_in(lhs, (#[trigger] token_names@[t])@)
            &&& forall|j: int| 0 <= j < n_rules ==> nt_complete(#[trigger] nonterms@[j])
                && nonterms@[j].prod_end <= prods@.len()
            &&& forall|j: int, p2: int| 0 <= j < n_rules
                && (#[trigger] nonterms@[j]).prod_start <= p2 < nonterms@[j].prod_end
                ==> (#[trigger] prods@[p2]).nonterm_id.0 == j
            &&& forall|p2: int| 0 <= p2 < prods@.len() ==> prod_covered(nonterms@, p2)
            &&& forall|p2: int| 0 <= p2 < prods@.len()
                ==> prod_wf(#[trigger] prods@[p2], token_names@.len() as int, n_rules)
            &&& forall|g: int| 0 <= g < n_rules
                ==> (#[trigger] nonterms@[g]).name@ == lhs[g]
            &&& (n_rules == 0 ==> prods@.len() == 0)
            &&& (n_rules > 0 ==> nonterms@[0].prod_start == 0)
            &&& (n_rules > 0 ==> nonterms@[n_rules - 1].prod_end == prods@.len())
            &&& forall|g: int| 0 < g < n_rules
                ==> (#[trigger] nonterms@[g]).prod_start == nonterms@[g - 1].prod_end
            &&& forall|g: int| 0 <= g < n_rules ==> {
                let nt = #[trigger] nonterms@[g];
                let ms = matches_of(es, lhs[g]);
                &&& nt.prod_end - nt.prod_start == ms.len()
                &&& forall|k: int| 0 <= k < ms.len()
                    ==> prod_matches_words(lhs, names_of(token_names@),
                        #[trigger] prods@[nt.prod_start + k], g, ms[k])
            }
        }),
{
    let ghost lhs = first_seen(entry_lhs(es));
    let n_rules: usize = lhs_names.len();
    let n_entries: usize = entries.len();
    proof {
        assert(n_entries == es.len());
    }
        let mut token_names: Vec<String> = Vec::new();
        let mut nonterms: Vec<Nonterm> = Vec::new();
        let mut prods: Vec<Production> = Vec::new();
        let mut gi: usize = 0;
        while gi < n_rules
            invariant
                gi <= n_rules,
                n_rules == lhs_names@.len(),
                n_rules < u32::MAX,
                n_entries == es.len(),
                es == entry_views(entries@),
                names_of(lhs_names@) == lhs,
                lhs.len() == n_rules,
                wi == total_rhs_words(es),
                (n_rules + 1) * (wi + 1) + 2 < u32::MAX,
                token_names@.len() <= gi * wi,
                names_of(token_names@) == tokens_of_words(lhs, groups_stream(es, lhs,
                    gi as int)),
                nonterms@.len() == gi,
                forall|a2: int, b2: int| 0 <= a2 < b2 < token_names@.len()
                    ==> (#[trigger] token_names@[a2])@ != (#[trigger] token_names@[b2])@,
                forall|t: int| 0 <= t < token_names@.len()
                    ==> !str_in(lhs, (#[trigger] token_names@[t])@),
                forall|j: int| 0 <= j < gi ==> nt_complete(#[trigger] nonterms@[j])
                    && nonterms@[j].prod_end <= prods@.len(),
                forall|j: int, p2: int| 0 <= j < gi
                    && (#[trigger] nonterms@[j]).prod_start <= p2 < nonterms@[j].prod_end
                    ==> (#[trigger] prods@[p2]).nonterm_id.0 == j,
                forall|p2: int| 0 <= p2 < prods@.len() ==> prod_covered(nonterms@, p2),
                forall|p2: int| 0 <= p2 < prods@.len()
                    ==> prod_wf(#[trigger] prods@[p2], token_names@.len() as int,
                        n_rules as int),
                forall|g: int| 0 <= g < gi
                    ==> (#[trigger] nonterms@[g]).name@ == lhs[g],
                gi == 0 ==> prods@.len() == 0,
                gi > 0 ==> nonterms@[0].prod_start == 0,
                gi > 0 ==> nonterms@[gi - 1].prod_end == prods@.len(),
                forall|g: int| 0 < g < gi
                    ==> (#[trigger] nonterms@[g]).prod_start == nonterms@[g - 1].prod_end,
                forall|g: int| 0 <= g < gi ==> {
                    let nt = #[trigger] nonterms@[g];
                    let ms = matches_of(es, lhs[g]);
                    &&& nt.prod_end - nt.prod_start == ms.len()
                    &&& forall|k: int| 0 <= k < ms.len()
                        ==> prod_matches_words(lhs, names_of(token_names@),
                            #[trigger] prods@[nt.prod_start + k], g, ms[k])
                },
            decreases n_rules - gi,
        {
            let ghost pre_prods = prods@;
            let ghost pre_nts = nonterms@;
            let start: usize = prods.len();
            let mut e: usize = 0;
            proof {
                assert(matches_of(es.take(0), lhs[gi as int]) =~= Seq::<Seq<Seq<char>>>::empty())
                    by {
                    assert(es.take(0) =~= Seq::empty());
                }
                assert(total_rhs_words(es.take(0)) == 0) by {
                    assert(es.take(0) =~= Seq::empty());
                }
            }
            while e < n_entries
                invariant
                    e <= n_entries,
                    n_rules == lhs_names@.len(),
                    gi < n_rules,
                    n_entries == es.len(),
                    es == entry_views(entries@),
                    names_of(lhs_names@) == lhs,
                    lhs.len() == n_rules,
                    wi == total_rhs_words(es),
                    (n_rules + 1) * (wi + 1) + 2 < u32::MAX,
                    token_names@.len() <= gi * wi + total_rhs_words(es.take(e as int)),
                    names_of(token_names@) == tokens_of_words(lhs, groups_stream(es, lhs,
                        gi as int) + group_words(matches_of(es.take(e as int),
                        lhs[gi as int]))),
                    start <= prods@.len(),
                    nonterms@ == pre_nts,
                    forall|a2: int, b2: int| 0 <= a2 < b2 < token_names@.len()
                        ==> (#[trigger] token_names@[a2])@ != (#[trigger] token_names@[b2])@,
                    forall|t: int| 0 <= t < token_names@.len()
                        ==> !str_in(lhs, (#[trigger] token_names@[t])@),
                    forall|p2: int| 0 <= p2 < start ==> #[trigger] prods@[p2] == pre_prods[p2],
                    forall|p2: int| start <= p2 < prods@.len()
                        ==> (#[trigger] prods@[p2]).nonterm_id.0 == gi,
                    forall|p2: int| 0 <= p2 < prods@.len()
                        ==> prod_wf(#[trigger] prods@[p2], token_names@.len() as int,
                            n_rules as int),
                    prods@.len() - start == matches_of(es.take(e as int), lhs[gi as int]).len(),
                    forall|k: int| 0 <= k < prods@.len() - start
                        ==> prod_matches_words(lhs, names_of(token_names@),
                            #[trigger] prods@[start + k], gi as int,
                            matches_of(es.take(e as int), lhs[gi as int])[k]),
                    forall|g: int| 0 <= g < gi ==> {
                        let nt = #[trigger] nonterms@[g];
                        let ms = matches_of(es, lhs[g]);
                        &&& nt.prod_end - nt.prod_start == ms.len()
                        &&& forall|k: int| 0 <= k < ms.len()
                            ==> prod_matches_words(lhs, names_of(token_names@),
                                #[trigger] prods@[nt.prod_start + k], g, ms[k])
                    },
                decreases n_entries - e,
            {
                proof {
                    assert(es.take(e as int + 1).drop_last() =~= es.take(e as int));
                    assert(es.take(e as int + 1).last() == es[e as int]);
                    assert(es[e as int].0 == entries@[e as int].0@);
                    assert(es[e as int].2 == word_views(entries@[e as int].2@));
                    lemma_total_rhs_words_take(es, e as int + 1);
                }
                if entries[e].0.eq(&lhs_names[gi]) {
                    proof {
                        assert(lhs_names@[gi as int]@ == lhs[gi as int]);
                        assert(es[e as int].0 == lhs[gi as int]);
                    }
                    // resolve each right-hand-side symbol
                    let ghost ws = es[e as int].2;
                    proof {
                        assert(groups_stream(es, lhs, gi as int)
                            + group_words(matches_of(es.take(e as int), lhs[gi as int]))
                            + ws.take(0) =~= groups_stream(es, lhs, gi as int)
                            + group_words(matches_of(es.take(e as int), lhs[gi as int])));
                    }
                    let mut syms: Vec<Symbol> = Vec::new();
                    let rhs = &entries[e].2;
                    let mut w: usize = 0;
                    while w < rhs.len()
                        invariant
                            w <= rhs@.len(),
                            ws == word_views(rhs@),
                            ws.len() == rhs@.len(),
                            n_rules == lhs_names@.len(),
                            gi < n_rules,
                            e < n_entries,
                            n_entries == es.len(),
                            names_of(lhs_names@) == lhs,
                            lhs.len() == n_rules,
                            wi == total_rhs_words(es),
                            (n_rules + 1) * (wi + 1) + 2 < u32::MAX,
                            token_names@.len() <= gi * wi
                                + total_rhs_words(es.take(e as int)) + w,
                            names_of(token_names@) == tokens_of_words(lhs,
                                groups_stream(es, lhs, gi as int)
                                + group_words(matches_of(es.take(e as int), lhs[gi as int]))
                                + ws.take(w as int)),
                            total_rhs_words(es.take(e as int)) + ws.len()
                                == total_rhs_words(es.take(e as int + 1)),
                            total_rhs_words(es.take(e as int + 1)) <= wi,
                            syms@.len() == w,
                            forall|a2: int, b2: int| 0 <= a2 < b2 < token_names@.len()
                                ==> (#[trigger] token_names@[a2])@
                                    != (#[trigger] token_names@[b2])@,
                            forall|t: int| 0 <= t < token_names@.len()
                                ==> !str_in(lhs, (#[trigger] token_names@[t])@),
                            forall|x: int| 0 <= x < w
                                ==> resolved_sym(lhs, names_of(token_names@),
                                    syms@[x], #[trigger] ws[x]),
                            forall|l: int| 0 <= l < syms@.len()
                                ==> sym_wf(#[trigger] syms@[l], token_names@.len() as int,
                                    n_rules as int),
                            forall|p2: int| 0 <= p2 < start
                                ==> #[trigger] prods@[p2] == pre_prods[p2],
                            forall|p2: int| start <= p2 < prods@.len()
                                ==> (#[trigger] prods@[p2]).nonterm_id.0 == gi,
                            forall|p2: int| 0 <= p2 < prods@.len()
                                ==> prod_wf(#[trigger] prods@[p2],
                                    token_names@.len() as int, n_rules as int),
                            prods@.len() - start
                                == matches_of(es.take(e as int), lhs[gi as int]).len(),
                            forall|k: int| 0 <= k < prods@.len() - start
                                ==> prod_matches_words(lhs, names_of(token_names@),
                                    #[trigger] prods@[start + k], gi as int,
                                    matches_of(es.take(e as int), lhs[gi as int])[k]),
                            forall|g: int| 0 <= g < gi ==> {
                                let nt = #[trigger] nonterms@[g];
                                let ms = matches_of(es, lhs[g]);
                                &&& nt.prod_end - nt.prod_start == ms.len()
                                &&& forall|k: int| 0 <= k < ms.len()
                                    ==> prod_matches_words(lhs, names_of(token_names@),
                                        #[trigger] prods@[nt.prod_start + k], g, ms[k])
                            },
                        decreases rhs@.len() - w,
                    {
                        proof {
                            assert(ws[w as int] == rhs@[w as int]@);
                            let s0 = groups_stream(es, lhs, gi as int)
                                + group_words(matches_of(es.take(e as int), lhs[gi as int]));
                            assert((s0 + ws.take(w as int + 1)).drop_last()
                                =~= s0 + ws.take(w as int));
                            assert((s0 + ws.take(w as int + 1)).last() == ws[w as int]);
                        }
                        match vec_find(&lhs_names, &rhs[w]) {
                            Some(ix) => {
                                proof {
                                    assert(names_of(lhs_names@)[ix as int] == ws[w as int]);
                                    assert(str_in(lhs, ws[w as int]));
                                }
                                syms.push(Symbol::Nonterm(NontermId(ix as u32)));
                                proof {
                                    assert(resolved_sym(lhs, names_of(token_names@),
                                        syms@[w as int], ws[w as int]));
                                }
                            },
                            None => {
                                proof {
                                    if str_in(lhs, ws[w as int]) {
                                        let i = choose|i: int| 0 <= i < lhs.len()
                                            && lhs[i] == ws[w as int];
                                        assert(lhs_names@[i]@ == ws[w as int]);
                                        assert(false);
                                    }
                                }
                                match vec_find(&token_names, &rhs[w]) {
                                    Some(t) => {
                                        proof {
                                            assert(names_of(token_names@)[t as int]
                                                == ws[w as int]);
                                            assert(token_names@.len() + 2 < u32::MAX)
                                                by (nonlinear_arith)
                                                requires
                                                    token_names@.len() <= gi * wi
                                                        + total_rhs_words(es.take(e as int))
                                                        + w,
                                                    0 <= gi < n_rules,
                                                    0 <= w < ws.len(),
                                                    total_rhs_words(es.take(e as int))
                                                        + ws.len()
                                                        <= wi,
                                                    0 <= wi,
                                                    (n_rules + 1) * (wi + 1) + 2 < u32::MAX;
                                        }
                                        syms.push(Symbol::Term(TermId(t as u32)));
                                        proof {
                                            assert(resolved_sym(lhs,
                                                names_of(token_names@), syms@[w as int],
                                                ws[w as int]));
                                        }
                                    },
                                    None => {
                                        proof {
                                            assert(token_names@.len() + 2 < u32::MAX)
                                                by (nonlinear_arith)
                                                requires
                                                    token_names@.len() <= gi * wi
                                                        + total_rhs_words(es.take(e as int))
                                                        + w,
                                                    0 <= gi < n_rules,
                                                    0 <= w < ws.len(),
                                                    total_rhs_words(es.take(e as int))
                                                        + ws.len()
                                                        <= wi,
                                                    0 <= wi,
                                                    (n_rules + 1) * (wi + 1) + 2 < u32::MAX;
                                        }
                                        let ghost pre_tn = token_names@;
                                        let t: usize = token_names.len();
                                        token_names.push(rhs[w].clone());
                                        proof {
                                            assert(names_of(token_names@)
                                                =~= names_of(pre_tn).push(ws[w as int]));
                                            assert forall|a2: int, b2: int| 0 <= a2 < b2
                                                < token_names@.len() implies
                                                (#[trigger] token_names@[a2])@
                                                    != (#[trigger] token_names@[b2])@ by {
                                                if b2 == token_names@.len() - 1 {
                                                    assert(token_names@[a2]@
                                                        != ws[w as int]);
                                                }
                                            }
                                            // every stored resolution survives the append
                                            assert forall|x: int| 0 <= x < w implies
                                                resolved_sym(lhs, names_of(token_names@),
                                                syms@[x], #[trigger] ws[x]) by {
                                                lemma_resolved_mono(lhs, names_of(pre_tn),
                                                    names_of(token_names@), syms@[x], ws[x]);
                                            }
                                            assert forall|k: int| 0 <= k < prods@.len()
                                                - start implies prod_matches_words(lhs,
                                                names_of(token_names@),
                                                #[trigger] prods@[start + k], gi as int,
                                                matches_of(es.take(e as int),
                                                lhs[gi as int])[k]) by {
                                                lemma_prod_matches_mono(lhs,
                                                    names_of(pre_tn),
                                                    names_of(token_names@),
                                                    prods@[start + k], gi as int,
                                                    matches_of(es.take(e as int),
                                                    lhs[gi as int])[k]);
                                            }
                                            assert forall|g: int| 0 <= g < gi implies {
                                                let nt = #[trigger] nonterms@[g];
                                                let ms = matches_of(es, lhs[g]);
                                                &&& nt.prod_end - nt.prod_start == ms.len()
                                                &&& forall|k: int| 0 <= k < ms.len()
                                                    ==> prod_matches_words(lhs,
                                                        names_of(token_names@),
                                                        #[trigger] prods@[nt.prod_start + k],
                                                        g, ms[k])
                                            } by {
                                                let nt = nonterms@[g];
                                                let ms = matches_of(es, lhs[g]);
                                                assert forall|k: int| 0 <= k < ms.len()
                                                    implies prod_matches_words(lhs,
                                                    names_of(token_names@),
                                                    #[trigger] prods@[nt.prod_start + k], g,
                                                    ms[k]) by {
                                                    lemma_prod_matches_mono(lhs,
                                                        names_of(pre_tn),
                                                        names_of(token_names@),
                                                        prods@[nt.prod_start + k], g, ms[k]);
                                                }
                                            }
                                            assert forall|l: int| 0 <= l < syms@.len()
                                                implies sym_wf(#[trigger] syms@[l],
                                                token_names@.len() as int,
                                                n_rules as int) by {
                                                assert(sym_wf(syms@[l],
                                                    pre_tn.len() as int, n_rules as int));
                                            }
                                            assert forall|p2: int| 0 <= p2 < prods@.len()
                                                implies prod_wf(#[trigger] prods@[p2],
                                                token_names@.len() as int,
                                                n_rules as int) by {
                                                lemma_prod_wf_mono2(prods@[p2],
                                                    pre_tn.len() as int, n_rules as int,
                                                    token_names@.len() as int,
                                                    n_rules as int);
                                            }
                                        }
                                        syms.push(Symbol::Term(TermId(t as u32)));
                                        proof {
                                            assert(names_of(token_names@)[t as int]
                                                == ws[w as int]);
                                            assert(resolved_sym(lhs,
                                                names_of(token_names@), syms@[w as int],
                                                ws[w as int]));
                                        }
                                    },
                                }
                            },
                        }
                        w = w + 1;
                    }
                    let ghost pre_seg = prods@;
                    prods.push(Production {
                        nonterm_id: NontermId(gi as u32),
                        action: ProdAction::Plain,
                        prec: None,
                        assoc: Assoc::Nonassoc,
                        symbols: syms,
                    });
                    proof {
                        let ms1 = matches_of(es.take(e as int + 1), lhs[gi as int]);
                        let ms0 = matches_of(es.take(e as int), lhs[gi as int]);
                        assert(ms1 == ms0.push(ws));
                        assert(ws.take(ws.len() as int) =~= ws);
                        assert(ms1.drop_last() =~= ms0);
                        assert(group_words(ms1) =~= group_words(ms0) + ws);
                        assert(groups_stream(es, lhs, gi as int) + group_words(ms1)
                            =~= groups_stream(es, lhs, gi as int) + group_words(ms0) + ws);
                        assert(prod_matches_words(lhs, names_of(token_names@),
                            prods@[prods@.len() - 1], gi as int, ws));
                        assert forall|k: int| 0 <= k < prods@.len() - start implies
                            prod_matches_words(lhs, names_of(token_names@),
                            #[trigger] prods@[start + k], gi as int, ms1[k]) by {
                            if k < ms0.len() {
                                assert(prods@[start + k] == pre_seg[start + k]);
                                assert(ms1[k] == ms0[k]);
                            } else {
                                assert(start + k == prods@.len() - 1);
                                assert(ms1[k] == ws);
                            }
                        }
                    }
                } else {
                    proof {
                        assert(lhs_names@[gi as int]@ == lhs[gi as int]);
                        assert(es[e as int].0 != lhs[gi as int]);
                        assert(matches_of(es.take(e as int + 1), lhs[gi as int])
                            == matches_of(es.take(e as int), lhs[gi as int]));
                    }
                }
                e = e + 1;
            }
            proof {
                assert(es.take(n_entries as int) =~= es);
                assert(str_in(entry_lhs(es), lhs[gi as int])) by {
                    lemma_first_seen_membership(entry_lhs(es), lhs[gi as int]);
                }
                lemma_matches_nonempty(es, lhs[gi as int]);
            }
            proof {
                assert((gi as int + 1) * wi == gi as int * wi + wi) by (nonlinear_arith);
            }
            let end: usize = prods.len();
            nonterms.push(Nonterm {
                name: lhs_names[gi].clone(),
                prod_start: start,
                prod_end: end,
            });
            proof {
                assert forall|p2: int| 0 <= p2 < prods@.len() implies prod_covered(nonterms@,
                    p2) by {
                    if p2 < start {
                        assert(prod_covered(pre_nts, p2));
                        let wx = choose|wx: int| 0 <= wx < pre_nts.len()
                            && (#[trigger] pre_nts[wx]).prod_start <= p2
                                < pre_nts[wx].prod_end;
                        assert(nonterms@[wx] == pre_nts[wx]);
                    } else {
                        assert(nonterms@[gi as int].prod_start <= p2
                            < nonterms@[gi as int].prod_end);
                    }
                }
            }
            gi = gi + 1;
        }

    (token_names, nonterms, prods)
}

impl Bnf {
    /// Parses the line-based textual grammar format used by tests: one
    /// production per line, `LHS -> SYM SYM ...`, a `*` suffix on the LHS
    /// marking a start symbol, an empty right-hand side for ε. Symbols never
    /// seen on a left-hand side become terminals in first-seen order. Lines
    /// without an arrow are ignored. Non-ASCII input yields the empty BNF:
    /// the scanner slices names by character position, which is constant-time
    /// only on ASCII text, and the format itself is ASCII. Input too large
    /// for the dense 32-bit id space yields the empty BNF as well.
    #[verifier::loop_isolation(false)]
    #[verifier::rlimit(100)]
    #[verifier::spinoff_prover]
    pub fn parse(input: &str) -> (b: Bnf)
        ensures
            bnf_wf(b),
            imap_keys_unique(b.tokens),
            imap_keys_unique(b.starts),
            forall|i: int| 0 <= i < imap_entries(b.tokens).len()
                ==> (#[trigger] imap_entries(b.tokens)[i]).1 == i,
            !input.is_ascii() ==> b.nonterms@.len() == 0 && b.prods@.len() == 0
                && imap_entries(b.tokens).len() == 0 && imap_entries(b.starts).len() == 0,
            input.is_ascii() && parse_fits(scan_entries(input@, 0))
                ==> bnf_matches_entries(b, scan_entries(input@, 0)),
    {
        let empty = Bnf {
            tokens: imap_new(),
            starts: imap_new(),
            nonterms: Vec::new(),
            prods: Vec::new(),
        };
        if !input.is_ascii() {
            return empty;
        }
        let n: usize = input.unicode_len();
        let entries = scan_from(input, n, 0, Vec::new());
        let ghost es = scan_entries(input@, 0);
        proof {
            assert(entry_views(Seq::empty()) + es =~= es);
            assert(entry_views(entries@) =~= es);
        }
        let n_entries: usize = entries.len();

        // The distinct left-hand sides, in first-seen order.
        let mut lhs_names: Vec<String> = Vec::new();
        let mut e: usize = 0;
        proof {
            assert(es.take(0) =~= Seq::empty());
            assert(entry_lhs(es.take(0)) =~= Seq::<Seq<char>>::empty());
        }
        while e < n_entries
            invariant
                e <= n_entries,
                n_entries == es.len(),
                es == entry_views(entries@),
                names_of(lhs_names@) == first_seen(entry_lhs(es.take(e as int))),
            decreases n_entries - e,
        {
            proof {
                assert(es.take(e as int + 1).drop_last() =~= es.take(e as int));
                assert(entry_lhs(es.take(e as int + 1)).drop_last()
                    =~= entry_lhs(es.take(e as int)));
                assert(entry_lhs(es.take(e as int + 1)).last() == es[e as int].0);
                assert(es[e as int].0 == entries@[e as int].0@);
            }
            match vec_find(&lhs_names, &entries[e].0) {
                Some(i) => {
                    proof {
                        assert(names_of(lhs_names@)[i as int] == es[e as int].0);
                        assert(str_in(first_seen(entry_lhs(es.take(e as int))),
                            es[e as int].0));
                    }
                },
                None => {
                    proof {
                        if str_in(first_seen(entry_lhs(es.take(e as int))), es[e as int].0) {
                            let i = choose|i: int| 0 <= i < names_of(lhs_names@).len()
                                && names_of(lhs_names@)[i] == es[e as int].0;
                            assert(lhs_names@[i]@ == es[e as int].0);
                            assert(false);
                        }
                    }
                    let ghost pre = lhs_names@;
                    lhs_names.push(entries[e].0.clone());
                    proof {
                        assert(names_of(lhs_names@) =~= names_of(pre).push(es[e as int].0));
                    }
                },
            }
            e = e + 1;
        }
        proof {
            assert(es.take(n_entries as int) =~= es);
            lemma_first_seen_nodup(entry_lhs(es));
        }
        let ghost lhs = first_seen(entry_lhs(es));
        let n_rules: usize = lhs_names.len();
        if n_rules >= u32::MAX as usize {
            proof {
                assert((lhs.len() + 1) * (total_rhs_words(es) + 1) + 2 >= u32::MAX)
                    by (nonlinear_arith)
                    requires lhs.len() + 1 > u32::MAX;
            }
            return empty;
        }

        // The total right-hand-side word count, against the dense id space.
        let mut wtotal: u64 = 0;
        let mut e: usize = 0;
        proof {
            assert(total_rhs_words(es.take(0)) == 0) by {
                assert(es.take(0) =~= Seq::empty());
            }
        }
        while e < n_entries
            invariant
                e <= n_entries,
                n_entries == es.len(),
                es == entry_views(entries@),
                wtotal == total_rhs_words(es.take(e as int)),
                wtotal < 2 * (u32::MAX as u64),
            decreases n_entries - e,
        {
            proof {
                lemma_total_rhs_words_take(es, e as int);
            }
            if wtotal >= u32::MAX as u64 {
                proof {
                    assert((lhs.len() + 1) * (total_rhs_words(es) + 1) + 2 >= u32::MAX)
                        by (nonlinear_arith)
                        requires total_rhs_words(es) + 1 > u32::MAX, lhs.len() >= 0;
                }
                return empty;
            }
            let l: usize = entries[e].2.len();
            proof {
                assert(es.take(e as int + 1).drop_last() =~= es.take(e as int));
                assert(es.take(e as int + 1).last() == es[e as int]);
                assert(es[e as int].2 == word_views(entries@[e as int].2@));
                assert(es[e as int].2.len() == entries@[e as int].2@.len());
            }
            if l as u64 >= u32::MAX as u64 {
                proof {
                    lemma_total_rhs_words_take(es, e as int + 1);
                    assert((lhs.len() + 1) * (total_rhs_words(es) + 1) + 2 >= u32::MAX)
                        by (nonlinear_arith)
                        requires total_rhs_words(es) + 1 > u32::MAX, lhs.len() >= 0;
                }
                return empty;
            }
            wtotal = wtotal + l as u64;
            e = e + 1;
        }
        proof {
            assert(es.take(n_entries as int) =~= es);
        }
        if wtotal >= u32::MAX as u64 {
            proof {
                assert((lhs.len() + 1) * (total_rhs_words(es) + 1) + 2 >= u32::MAX)
                    by (nonlinear_arith)
                    requires total_rhs_words(es) + 1 > u32::MAX, lhs.len() >= 0;
            }
            return empty;
        }
        proof {
            assert((n_rules as int + 1) * (wtotal as int + 1) + 2 <= u64::MAX)
                by (nonlinear_arith)
                requires 0 <= n_rules as int + 1 <= u32::MAX, 0 <= wtotal as int + 1
                    <= u32::MAX;
        }
        if (n_rules as u64 + 1) * (wtotal + 1) + 2 >= u32::MAX as u64 {
            return empty;
        }
        let ghost wi: int = total_rhs_words(es) as int;
        proof {
            assert(parse_fits(es));
        }

        // Productions grouped by left-hand side; unseen symbols become
        // terminals in first-seen order.
        let (token_names, nonterms, prods) = build_groups(&entries, &lhs_names,
            Ghost(es), Ghost(wi));
        proof {
            assert(n_rules as int * wi + 2 < u32::MAX) by (nonlinear_arith)
                requires (n_rules as int + 1) * (wi + 1) + 2 < u32::MAX, 0 <= n_rules as int,
                    0 <= wi;
        }
        // token and start tables
        let mut tokens = imap_new();
        let mut i: usize = 0;
        while i < token_names.len()
            invariant
                i <= token_names@.len(),
                imap_entries(tokens).len() == i,
                forall|a2: int, b2: int| 0 <= a2 < b2 < token_names@.len()
                    ==> (#[trigger] token_names@[a2])@ != (#[trigger] token_names@[b2])@,
                forall|j: int| 0 <= j < i
                    ==> (#[trigger] imap_entries(tokens)[j]) == (token_names@[j]@, j as u32),
                token_names@.len() < u32::MAX,
            decreases token_names@.len() - i,
        {
            proof {
                if imap_has_key(tokens, token_names@[i as int]@) {
                    let j = choose|j: int| 0 <= j < imap_entries(tokens).len()
                        && imap_entries(tokens)[j].0 == token_names@[i as int]@;
                    assert(token_names@[j]@ == token_names@[i as int]@);
                    assert(false);
                }
            }
            imap_insert_new(&mut tokens, token_names[i].clone(), i as u32);
            i = i + 1;
        }
        let mut starts = imap_new();
        let mut e: usize = 0;
        proof {
            assert(starred_lhs(es.take(0)) =~= Seq::<Seq<char>>::empty()) by {
                assert(es.take(0) =~= Seq::empty());
            }
            assert(first_seen(starred_lhs(es.take(0))) =~= Seq::<Seq<char>>::empty());
        }
        while e < n_entries
            invariant
                e <= n_entries,
                n_entries == es.len(),
                es == entry_views(entries@),
                names_of(lhs_names@) == lhs,
                lhs.len() == n_rules,
                n_rules < u32::MAX,
                imap_entries(starts).len()
                    == first_seen(starred_lhs(es.take(e as int))).len(),
                forall|j: int| 0 <= j < imap_entries(starts).len() ==> {
                    let st = #[trigger] imap_entries(starts)[j];
                    &&& st.0 == first_seen(starred_lhs(es.take(e as int)))[j]
                    &&& st.1 < n_rules
                    &&& lhs[st.1 as int] == st.0
                },
            decreases n_entries - e,
        {
            proof {
                assert(es.take(e as int + 1).drop_last() =~= es.take(e as int));
                assert(es.take(e as int + 1).last() == es[e as int]);
                assert(es[e as int].0 == entries@[e as int].0@);
            }
            if entries[e].1 {
                proof {
                    let sx = starred_lhs(es.take(e as int + 1));
                    assert(sx.drop_last() =~= starred_lhs(es.take(e as int)));
                    assert(sx.last() == es[e as int].0);
                }
                let present = imap_contains(&starts, &entries[e].0);
                proof {
                    let f = first_seen(starred_lhs(es.take(e as int)));
                    if present {
                        let j = choose|j: int| 0 <= j < imap_entries(starts).len()
                            && imap_entries(starts)[j].0 == es[e as int].0;
                        assert(f[j] == es[e as int].0);
                        assert(str_in(f, es[e as int].0));
                    } else {
                        if str_in(f, es[e as int].0) {
                            let j = choose|j: int| 0 <= j < f.len() && f[j] == es[e as int].0;
                            assert(imap_entries(starts)[j].0 == es[e as int].0);
                            assert(imap_has_key(starts, es[e as int].0));
                            assert(false);
                        }
                    }
                }
                if !present {
                    match vec_find(&lhs_names, &entries[e].0) {
                        Some(ix) => {
                            proof {
                                assert(names_of(lhs_names@)[ix as int] == es[e as int].0);
                            }
                            imap_insert_new(&mut starts, entries[e].0.clone(), ix as u32);
                        },
                        None => {
                            proof {
                                assert(entry_lhs(es)[e as int] == es[e as int].0);
                                assert(str_in(entry_lhs(es), es[e as int].0));
                                lemma_first_seen_membership(entry_lhs(es), es[e as int].0);
                                let j = choose|j: int| 0 <= j < lhs.len()
                                    && lhs[j] == es[e as int].0;
                                assert(lhs_names@[j]@ == es[e as int].0);
                                assert(false);
                            }
                        },
                    }
                }
            }
            e = e + 1;
        }
        proof {
            assert(es.take(n_entries as int) =~= es);
        }
        let b = Bnf { tokens, starts, nonterms, prods };
        proof {
            // the token table's keys are the discovered terminal names
            assert(imap_keys(b.tokens) =~= names_of(token_names@));
            assert forall|a2: int, b2: int| 0 <= a2 < b2 < imap_entries(b.tokens).len()
                implies (#[trigger] imap_entries(b.tokens)[a2]).0
                    != (#[trigger] imap_entries(b.tokens)[b2]).0 by {
                assert(imap_entries(b.tokens)[a2].0 == token_names@[a2]@);
                assert(imap_entries(b.tokens)[b2].0 == token_names@[b2]@);
            }
            assert forall|a2: int, b2: int| 0 <= a2 < b2 < imap_entries(b.starts).len()
                implies (#[trigger] imap_entries(b.starts)[a2]).0
                    != (#[trigger] imap_entries(b.starts)[b2]).0 by {
                lemma_first_seen_nodup(starred_lhs(es));
            }
            // the per-group facts transfer to the finished table
            assert forall|g: int| 0 <= g < lhs.len() implies {
                let nt = #[trigger] b.nonterms@[g];
                let ms = matches_of(es, lhs[g]);
                &&& nt.prod_end - nt.prod_start == ms.len()
                &&& forall|k: int| 0 <= k < ms.len()
                    ==> prod_matches_words(lhs, imap_keys(b.tokens),
                        #[trigger] b.prods@[nt.prod_start + k], g, ms[k])
            } by {
                let nt = b.nonterms@[g];
                let ms = matches_of(es, lhs[g]);
                assert forall|k: int| 0 <= k < ms.len() implies prod_matches_words(lhs,
                    imap_keys(b.tokens), #[trigger] b.prods@[nt.prod_start + k], g,
                    ms[k]) by {
                    lemma_prod_matches_mono(lhs, names_of(token_names@), imap_keys(b.tokens),
                        b.prods@[nt.prod_start + k], g, ms[k]);
                }
            }
            assert(bnf_matches_entries(b, es));
        }
        b
    }
}


// ---------------------------------------------------------------------------
// Laws of the finished BNF
// ---------------------------------------------------------------------------

/// Every production belongs to exactly one nonterminal: the one its
/// `nonterm_id` names, whose production range contains it.
pub proof fn lemma_production_identity(b: Bnf, p: int)
    requires
        bnf_wf(b),
        0 <= p < b.prods@.len(),
    ensures
        ({
            let i = b.prods@[p].nonterm_id.0 as int;
            &&& 0 <= i < b.nonterms@.len()
            &&& b.nonterms@[i].prod_start <= p < b.nonterms@[i].prod_end
            &&& forall|j: int| 0 <= j < b.nonterms@.len()
                && (#[trigger] b.nonterms@[j]).prod_start <= p < b.nonterms@[j].prod_end
                ==> j == i
        }),
{
    let st = LowerSt { nonterms: b.nonterms, prods: b.prods };
    assert(prod_covered(st.nonterms@, p));
    let w = choose|w: int| 0 <= w < st.nonterms@.len()
        && (#[trigger] st.nonterms@[w]).prod_start <= p < st.nonterms@[w].prod_end;
    assert(st.prods@[p].nonterm_id.0 == w);
    assert forall|j: int| 0 <= j < b.nonterms@.len()
        && (#[trigger] b.nonterms@[j]).prod_start <= p < b.nonterms@[j].prod_end
        implies j == w by {
        assert(st.prods@[p].nonterm_id.0 == j);
    }
}

/// Every nonterminal of a finished BNF has at least one production.
pub proof fn lemma_nonterm_nonempty(b: Bnf, i: int)
    requires
        bnf_wf(b),
        0 <= i < b.nonterms@.len(),
    ensures
        b.nonterms@[i].prod_start < b.nonterms@[i].prod_end,
        b.nonterms@[i].prod_end <= b.prods@.len(),
{
    assert(nt_complete(b.nonterms@[i]));
    let st = LowerSt { nonterms: b.nonterms, prods: b.prods };
    assert(st.nonterms@[i].prod_end <= st.prods@.len());
}

} // verus!
