//! Nullable and FIRST fixpoints over the lowered BNF.
//!
//! `nullable_spec` and `first_spec` are the derivation-based definitions
//! (stratified by a fuel bound on derivation depth); the executable fixpoints
//! are proved to compute exactly those sets: soundness holds throughout each
//! pass, and when a full pass changes nothing the tables are closed, which
//! gives completeness by induction on the derivation depth.
use vstd::prelude::*;
use crate::bnf::{Bnf, LowerSt, Symbol, bnf_st, bnf_wf, is_sep_by1_shape, is_sep_by_shape, prod_covered, prod_wf, st_wf, sym_wf};
use crate::imap::{imap_entries, imap_len};
use crate::parser::bitset::BitSet;

verus! {

/// The left-hand side of production `p`.
pub open spec fn prod_lhs(b: Bnf, p: int) -> int {
    b.prods@[p].nonterm_id.0 as int
}

/// Nonterminal `n` derives the empty string within `k` expansion steps.
pub open spec fn nullable_k(b: Bnf, n: int, k: nat) -> bool
    decreases k,
{
    k > 0 && exists|p: int| {
        &&& 0 <= p < b.prods@.len()
        &&& prod_lhs(b, p) == n
        &&& forall|j: int| 0 <= j < (#[trigger] b.prods@[p]).symbols@.len()
            ==> match #[trigger] b.prods@[p].symbols@[j] {
                Symbol::Term(_) => false,
                Symbol::Nonterm(m) => nullable_k(b, m.0 as int, (k - 1) as nat),
            }
    }
}

/// Nonterminal `n` derives the empty string.
pub open spec fn nullable_spec(b: Bnf, n: int) -> bool {
    exists|k: nat| nullable_k(b, n, k)
}

/// More fuel derives no less.
pub proof fn lemma_nullable_k_mono(b: Bnf, n: int, k1: nat, k2: nat)
    requires
        nullable_k(b, n, k1),
        k1 <= k2,
    ensures
        nullable_k(b, n, k2),
    decreases k1,
{
    let p = choose|p: int| {
        &&& 0 <= p < b.prods@.len()
        &&& prod_lhs(b, p) == n
        &&& forall|j: int| 0 <= j < (#[trigger] b.prods@[p]).symbols@.len()
            ==> match #[trigger] b.prods@[p].symbols@[j] {
                Symbol::Term(_) => false,
                Symbol::Nonterm(m) => nullable_k(b, m.0 as int, (k1 - 1) as nat),
            }
    };
    assert forall|j: int| 0 <= j < (#[trigger] b.prods@[p]).symbols@.len()
        implies match #[trigger] b.prods@[p].symbols@[j] {
            Symbol::Term(_) => false,
            Symbol::Nonterm(m) => nullable_k(b, m.0 as int, (k2 - 1) as nat),
        } by {
        match b.prods@[p].symbols@[j] {
            Symbol::Term(_) => {},
            Symbol::Nonterm(m) => {
                lemma_nullable_k_mono(b, m.0 as int, (k1 - 1) as nat, (k2 - 1) as nat);
            },
        }
    }
}

/// A symbol is nullable under the table `v`.
pub open spec fn sym_nullable(v: Seq<bool>, s: Symbol) -> bool {
    match s {
        Symbol::Term(_) => false,
        Symbol::Nonterm(m) => m.0 < v.len() && v[m.0 as int],
    }
}

/// Every symbol of the sequence is nullable under the table.
pub open spec fn all_syms_nullable(v: Seq<bool>, syms: Seq<Symbol>) -> bool {
    forall|j: int| 0 <= j < syms.len() ==> sym_nullable(v, #[trigger] syms[j])
}

/// Every true entry of the table is honestly nullable.
pub open spec fn nullable_sound(b: Bnf, v: Seq<bool>) -> bool {
    forall|n: int| 0 <= n < v.len() ==> (#[trigger] v[n] ==> nullable_spec(b, n))
}

/// The table is closed under one derivation step.
pub open spec fn nullable_closed(b: Bnf, v: Seq<bool>) -> bool {
    forall|p: int| 0 <= p < b.prods@.len()
        ==> (all_syms_nullable(v, (#[trigger] b.prods@[p]).symbols@)
            ==> 0 <= prod_lhs(b, p) < v.len() && v[prod_lhs(b, p)])
}

/// Every symbol of the sequence is nullable within fuel `kk`.
pub open spec fn syms_nullable_k(b: Bnf, syms: Seq<Symbol>, kk: nat) -> bool {
    forall|j: int| 0 <= j < syms.len()
        ==> match #[trigger] syms[j] {
            Symbol::Term(_) => false,
            Symbol::Nonterm(m) => nullable_k(b, m.0 as int, kk),
        }
}

/// Under a sound table, symbols that the table calls nullable share one fuel.
proof fn lemma_common_fuel(b: Bnf, v: Seq<bool>, syms: Seq<Symbol>)
    requires
        nullable_sound(b, v),
        all_syms_nullable(v, syms),
    ensures
        exists|kk: nat| syms_nullable_k(b, syms, kk),
    decreases syms.len(),
{
    if syms.len() == 0 {
        assert(syms_nullable_k(b, syms, 0));
    } else {
        let front = syms.drop_last();
        assert(all_syms_nullable(v, front)) by {
            assert forall|j: int| 0 <= j < front.len() implies sym_nullable(v,
                #[trigger] front[j]) by {
                assert(front[j] == syms[j]);
            }
        }
        lemma_common_fuel(b, v, front);
        let k1 = choose|k1: nat| syms_nullable_k(b, front, k1);
        let last = syms[syms.len() - 1];
        assert(sym_nullable(v, last));
        match last {
            Symbol::Term(_) => {
                assert(false);
            },
            Symbol::Nonterm(m) => {
                assert(nullable_spec(b, m.0 as int));
                let k2 = choose|k2: nat| nullable_k(b, m.0 as int, k2);
                let kk: nat = if k1 >= k2 { k1 } else { k2 };
                lemma_nullable_k_mono(b, m.0 as int, k2, kk);
                assert forall|j: int| 0 <= j < syms.len() implies match #[trigger] syms[j] {
                    Symbol::Term(_) => false,
                    Symbol::Nonterm(m2) => nullable_k(b, m2.0 as int, kk),
                } by {
                    if j < front.len() {
                        assert(front[j] == syms[j]);
                        assert(match front[j] {
                            Symbol::Term(_) => false,
                            Symbol::Nonterm(m2) => nullable_k(b, m2.0 as int, k1),
                        });
                        match syms[j] {
                            Symbol::Term(_) => {},
                            Symbol::Nonterm(m2) => {
                                lemma_nullable_k_mono(b, m2.0 as int, k1, kk);
                            },
                        }
                    }
                }
                assert(syms_nullable_k(b, syms, kk));
            },
        }
    }
}

/// A production whose right-hand side a sound table calls nullable shows its
/// left-hand side is nullable.
proof fn lemma_sound_step(b: Bnf, v: Seq<bool>, p: int)
    requires
        nullable_sound(b, v),
        0 <= p < b.prods@.len(),
        all_syms_nullable(v, b.prods@[p].symbols@),
    ensures
        nullable_spec(b, prod_lhs(b, p)),
{
    lemma_common_fuel(b, v, b.prods@[p].symbols@);
    let kk = choose|kk: nat| syms_nullable_k(b, b.prods@[p].symbols@, kk);
    assert(nullable_k(b, prod_lhs(b, p), kk + 1));
}

/// Completeness: a closed table covers everything nullable.
proof fn lemma_nullable_complete(b: Bnf, v: Seq<bool>, n: int, k: nat)
    requires
        bnf_wf(b),
        v.len() == b.nonterms@.len(),
        nullable_closed(b, v),
        nullable_k(b, n, k),
    ensures
        0 <= n < v.len() && v[n],
    decreases k,
{
    let p = choose|p: int| {
        &&& 0 <= p < b.prods@.len()
        &&& prod_lhs(b, p) == n
        &&& forall|j: int| 0 <= j < (#[trigger] b.prods@[p]).symbols@.len()
            ==> match #[trigger] b.prods@[p].symbols@[j] {
                Symbol::Term(_) => false,
                Symbol::Nonterm(m) => nullable_k(b, m.0 as int, (k - 1) as nat),
            }
    };
    let st = LowerSt { nonterms: b.nonterms, prods: b.prods };
    assert(st_wf(st, imap_entries(b.tokens).len() as int));
    assert(prod_wf(st.prods@[p], imap_entries(b.tokens).len() as int,
        st.nonterms@.len() as int));
    assert forall|j: int| 0 <= j < b.prods@[p].symbols@.len() implies sym_nullable(v,
        #[trigger] b.prods@[p].symbols@[j]) by {
        assert(sym_wf(st.prods@[p].symbols@[j], imap_entries(b.tokens).len() as int,
            st.nonterms@.len() as int));
        match b.prods@[p].symbols@[j] {
            Symbol::Term(_) => {
                assert(false);
            },
            Symbol::Nonterm(m) => {
                lemma_nullable_complete(b, v, m.0 as int, (k - 1) as nat);
            },
        }
    }
    assert(all_syms_nullable(v, b.prods@[p].symbols@));
    assert(st.prods@[p].nonterm_id.0 < st.nonterms@.len()) by {
        assert(0 <= p < st.prods@.len());
        assert(prod_covered(st.nonterms@, p));
        let w = choose|w: int| 0 <= w < st.nonterms@.len()
            && (#[trigger] st.nonterms@[w]).prod_start <= p < st.nonterms@[w].prod_end;
        assert(st.prods@[p].nonterm_id.0 == w);
    }
}

/// How many entries of the table are set.
pub open spec fn count_true(v: Seq<bool>) -> nat
    decreases v,
{
    if v.len() == 0 {
        0
    } else {
        count_true(v.drop_last()) + if v.last() { 1nat } else { 0nat }
    }
}

proof fn lemma_count_le_len(v: Seq<bool>)
    ensures
        count_true(v) <= v.len(),
    decreases v,
{
    if v.len() > 0 {
        lemma_count_le_len(v.drop_last());
    }
}

/// A pointwise-larger table has no smaller count; strictly larger somewhere,
/// a strictly larger count.
proof fn lemma_count_grows(v1: Seq<bool>, v2: Seq<bool>, w: int)
    requires
        v1.len() == v2.len(),
        forall|i: int| 0 <= i < v1.len() ==> (#[trigger] v1[i] ==> v2[i]),
        0 <= w < v1.len(),
        !v1[w],
        v2[w],
    ensures
        count_true(v1) < count_true(v2),
    decreases v1.len(),
{
    lemma_count_mono(v1.drop_last(), v2.drop_last());
    if w == v1.len() - 1 {
    } else {
        assert forall|i: int| 0 <= i < v1.drop_last().len() implies
            (#[trigger] v1.drop_last()[i] ==> v2.drop_last()[i]) by {
            assert(v1.drop_last()[i] == v1[i]);
        }
        lemma_count_grows(v1.drop_last(), v2.drop_last(), w);
    }
}

proof fn lemma_count_mono(v1: Seq<bool>, v2: Seq<bool>)
    requires
        v1.len() == v2.len(),
        forall|i: int| 0 <= i < v1.len() ==> (#[trigger] v1[i] ==> v2[i]),
    ensures
        count_true(v1) <= count_true(v2),
    decreases v1.len(),
{
    if v1.len() > 0 {
        assert forall|i: int| 0 <= i < v1.drop_last().len() implies
            (#[trigger] v1.drop_last()[i] ==> v2.drop_last()[i]) by {
            assert(v1.drop_last()[i] == v1[i]);
        }
        lemma_count_mono(v1.drop_last(), v2.drop_last());
    }
}

/// Whether every symbol of production `p` is nullable under `cur`.
#[verifier::loop_isolation(false)]
pub fn is_nullable(bnf: &Bnf, cur: &Vec<bool>, p: usize) -> (r: bool)
    requires
        p < bnf.prods@.len(),
        cur@.len() == bnf.nonterms@.len(),
        bnf_wf(*bnf),
    ensures
        r == all_syms_nullable(cur@, bnf.prods@[p as int].symbols@),
{
    let syms = &bnf.prods[p].symbols;
    let mut j: usize = 0;
    while j < syms.len()
        invariant
            j <= syms@.len(),
            forall|l: int| 0 <= l < j ==> sym_nullable(cur@, #[trigger] syms@[l]),
        decreases syms@.len() - j,
    {
        match syms[j] {
            Symbol::Term(_) => {
                return false;
            },
            Symbol::Nonterm(m) => {
                proof {
                    let st = LowerSt { nonterms: bnf.nonterms, prods: bnf.prods };
                    assert(prod_wf(st.prods@[p as int], imap_entries(bnf.tokens).len() as int,
                        st.nonterms@.len() as int));
                    assert(sym_wf(st.prods@[p as int].symbols@[j as int],
                        imap_entries(bnf.tokens).len() as int, st.nonterms@.len() as int));
                }
                if !cur[m.0 as usize] {
                    return false;
                }
            },
        }
        j = j + 1;
    }
    true
}

/// One pass of the nullable fixpoint: marks the left-hand side of every
/// production whose right-hand side the table already calls nullable, and
/// reports whether anything was newly marked.
#[verifier::loop_isolation(false)]
fn nullable_pass(bnf: &Bnf, cur: Vec<bool>) -> (r: (Vec<bool>, bool))
    requires
        bnf_wf(*bnf),
        cur@.len() == bnf.nonterms@.len(),
        nullable_sound(*bnf, cur@),
    ensures
        r.0@.len() == cur@.len(),
        nullable_sound(*bnf, r.0@),
        forall|n: int| 0 <= n < cur@.len() ==> (#[trigger] cur@[n] ==> r.0@[n]),
        !r.1 ==> r.0@ == cur@ && nullable_closed(*bnf, cur@),
        r.1 ==> exists|n: int| 0 <= n < cur@.len() && !cur@[n] && r.0@[n],
{
    let ghost orig = cur@;
    let mut cur = cur;
    let mut changed = false;
    let mut p: usize = 0;
    let n_prods: usize = bnf.prods.len();
    while p < n_prods
        invariant
            p <= n_prods,
            cur@.len() == orig.len(),
            nullable_sound(*bnf, cur@),
            forall|n: int| 0 <= n < orig.len() ==> (#[trigger] orig[n] ==> cur@[n]),
            changed ==> exists|n: int| 0 <= n < orig.len() && !orig[n] && cur@[n],
            !changed ==> cur@ == orig,
            !changed ==> forall|q: int| 0 <= q < p
                ==> (all_syms_nullable(cur@, (#[trigger] bnf.prods@[q]).symbols@)
                    ==> 0 <= prod_lhs(*bnf, q) < cur@.len() && cur@[prod_lhs(*bnf, q)]),
        decreases n_prods - p,
    {
        let ok = is_nullable(bnf, &cur, p);
        if ok {
            proof {
                lemma_sound_step(*bnf, cur@, p as int);
                let st = LowerSt { nonterms: bnf.nonterms, prods: bnf.prods };
                assert(prod_covered(st.nonterms@, p as int));
                let w = choose|w: int| 0 <= w < st.nonterms@.len()
                    && (#[trigger] st.nonterms@[w]).prod_start <= p
                        < st.nonterms@[w].prod_end;
                assert(st.prods@[p as int].nonterm_id.0 == w);
            }
            let lhs: usize = bnf.prods[p].nonterm_id.0 as usize;
            if !cur[lhs] {
                cur.set(lhs, true);
                changed = true;
            }
        }
        p = p + 1;
    }
    (cur, changed)
}

/// Computes the nullable table: entry `n` is true exactly when nonterminal
/// `n` derives the empty string. The fixpoint terminates because every
/// changing pass strictly grows the count of marked nonterminals.
#[verifier::loop_isolation(false)]
pub fn gen_nullable(bnf: &Bnf) -> (r: Vec<bool>)
    requires
        bnf_wf(*bnf),
    ensures
        r@.len() == bnf.nonterms@.len(),
        forall|n: int| 0 <= n < r@.len() ==> #[trigger] r@[n] == nullable_spec(*bnf, n),
{
    let n: usize = bnf.nonterms.len();
    let mut cur: Vec<bool> = Vec::new();
    let mut i: usize = 0;
    while i < n
        invariant
            i <= n,
            cur@.len() == i,
            forall|j: int| 0 <= j < i ==> !(#[trigger] cur@[j]),
        decreases n - i,
    {
        cur.push(false);
        i = i + 1;
    }
    let mut changed = true;
    while changed
        invariant
            cur@.len() == n,
            nullable_sound(*bnf, cur@),
            !changed ==> nullable_closed(*bnf, cur@),
        decreases n - count_true(cur@) + if changed { 1int } else { 0int },
    {
        proof {
            lemma_count_le_len(cur@);
        }
        let ghost pre = cur@;
        let (next, ch) = nullable_pass(bnf, cur);
        proof {
            if ch {
                let w = choose|w: int| 0 <= w < pre.len() && !pre[w] && next@[w];
                lemma_count_grows(pre, next@, w);
            }
            lemma_count_le_len(next@);
        }
        cur = next;
        changed = ch;
    }
    proof {
        assert forall|nn: int| 0 <= nn < cur@.len() implies #[trigger] cur@[nn]
            == nullable_spec(*bnf, nn) by {
            if cur@[nn] {
                assert(nullable_spec(*bnf, nn));
            } else {
                if nullable_spec(*bnf, nn) {
                    let k = choose|k: nat| nullable_k(*bnf, nn, k);
                    lemma_nullable_complete(*bnf, cur@, nn, k);
                    assert(false);
                }
            }
        }
    }
    cur
}


// ---------------------------------------------------------------------------
// FIRST sets
// ---------------------------------------------------------------------------

/// The symbols before position `j` of production `p` all derive the empty
/// string.
pub open spec fn first_prefix_nullable(b: Bnf, p: int, j: int) -> bool {
    forall|l: int| 0 <= l < j
        ==> match #[trigger] b.prods@[p].symbols@[l] {
            Symbol::Term(_) => false,
            Symbol::Nonterm(m) => nullable_spec(b, m.0 as int),
        }
}

/// Terminal `t` begins a string derivable from nonterminal `n`, within `k`
/// expansion steps.
pub open spec fn first_k(b: Bnf, n: int, t: int, k: nat) -> bool
    decreases k,
{
    k > 0 && exists|p: int, j: int|
        #![trigger b.prods@[p].symbols@[j]]
        {
            &&& 0 <= p < b.prods@.len()
            &&& prod_lhs(b, p) == n
            &&& 0 <= j < b.prods@[p].symbols@.len()
            &&& first_prefix_nullable(b, p, j)
            &&& match b.prods@[p].symbols@[j] {
                Symbol::Term(tt) => tt.0 == t,
                Symbol::Nonterm(m) => first_k(b, m.0 as int, t, (k - 1) as nat),
            }
        }
}

/// Terminal `t` begins a string derivable from nonterminal `n`.
pub open spec fn first_spec(b: Bnf, n: int, t: int) -> bool {
    exists|k: nat| first_k(b, n, t, k)
}

/// A terminal in some FIRST set is a live token id.
pub proof fn lemma_first_tok_bound(b: Bnf, n: int, t: int, k: nat)
    requires
        bnf_wf(b),
        first_k(b, n, t, k),
    ensures
        0 <= t < imap_entries(b.tokens).len(),
    decreases k,
{
    let (p, j): (int, int) = choose|p: int, j: int|
        #![trigger b.prods@[p].symbols@[j]]
        {
            &&& 0 <= p < b.prods@.len()
            &&& prod_lhs(b, p) == n
            &&& 0 <= j < b.prods@[p].symbols@.len()
            &&& first_prefix_nullable(b, p, j)
            &&& match b.prods@[p].symbols@[j] {
                Symbol::Term(tt) => tt.0 == t,
                Symbol::Nonterm(m) => first_k(b, m.0 as int, t, (k - 1) as nat),
            }
        };
    let st = LowerSt { nonterms: b.nonterms, prods: b.prods };
    assert(prod_wf(st.prods@[p], imap_entries(b.tokens).len() as int,
        st.nonterms@.len() as int));
    assert(sym_wf(st.prods@[p].symbols@[j], imap_entries(b.tokens).len() as int,
        st.nonterms@.len() as int));
    match b.prods@[p].symbols@[j] {
        Symbol::Term(_) => {},
        Symbol::Nonterm(m) => {
            lemma_first_tok_bound(b, m.0 as int, t, (k - 1) as nat);
        },
    }
}

/// The views of a vector of bitsets.
pub open spec fn first_views(v: Seq<BitSet>) -> Seq<Seq<bool>> {
    v.map_values(|s: BitSet| s@)
}

/// The symbols before position `j` are all nullable under the table `nul`.
pub open spec fn seq_prefix_nullable(nul: Seq<bool>, syms: Seq<Symbol>, j: int) -> bool {
    forall|l: int| 0 <= l < j ==> sym_nullable(nul, #[trigger] syms[l])
}

/// Terminal `t` is contributed by the symbol sequence under the tables: some
/// symbol follows a nullable prefix and either is the terminal itself or has
/// `t` in its FIRST set. Witnesses below position `bound` only.
pub open spec fn seq_first_upto(
    f: Seq<Seq<bool>>,
    nul: Seq<bool>,
    syms: Seq<Symbol>,
    bound: int,
    t: int,
) -> bool {
    exists|j: int|
        #![trigger syms[j]]
        {
            &&& 0 <= j < bound
            &&& j < syms.len()
            &&& seq_prefix_nullable(nul, syms, j)
            &&& match syms[j] {
                Symbol::Term(tt) => tt.0 == t,
                Symbol::Nonterm(m) => 0 <= m.0 < f.len() && f[m.0 as int][t],
            }
        }
}

/// `seq_first_upto` over the whole sequence.
pub open spec fn seq_first(f: Seq<Seq<bool>>, nul: Seq<bool>, syms: Seq<Symbol>, t: int)
    -> bool {
    seq_first_upto(f, nul, syms, syms.len() as int, t)
}

/// The lookahead bit, when a lookahead set was supplied.
pub open spec fn lookahead_bit(l: Option<&BitSet>, t: int) -> bool {
    match l {
        Some(s) => 0 <= t < s@.len() && s@[t],
        None => false,
    }
}

/// FIRST of a symbol sequence: everything already in `result`, plus FIRST of
/// the sequence under the current tables, plus — when the whole sequence is
/// nullable — the supplied lookahead set.
#[verifier::loop_isolation(false)]
pub fn compute_first_for_symbols(
    result: BitSet,
    first: &Vec<BitSet>,
    nullable: &Vec<bool>,
    symbols: &Vec<Symbol>,
    lookaheads: Option<&BitSet>,
) -> (r: BitSet)
    requires
        forall|i: int| 0 <= i < first@.len()
            ==> (#[trigger] first@[i]).capacity() == result.capacity(),
        match lookaheads {
            Some(l) => l.capacity() == result.capacity(),
            None => true,
        },
        result.capacity() <= usize::MAX,
        forall|j: int| 0 <= j < symbols@.len()
            ==> match #[trigger] symbols@[j] {
                Symbol::Term(tt) => tt.0 < result.capacity(),
                Symbol::Nonterm(m) => m.0 < first@.len() && m.0 < nullable@.len(),
            },
    ensures
        r.capacity() == result.capacity(),
        forall|t: int| 0 <= t < r.capacity()
            ==> #[trigger] r@[t] == (result@[t]
                || seq_first(first_views(first@), nullable@, symbols@, t)
                || (all_syms_nullable(nullable@, symbols@) && lookahead_bit(lookaheads, t))),
{
    let ghost orig = result@;
    let ghost fv = first_views(first@);
    let ghost cap = result.capacity();
    let mut cur = result;
    let mut j: usize = 0;
    let n_syms: usize = symbols.len();
    while j < n_syms
        invariant
            cur.capacity() == cap,
            j <= n_syms,
            forall|l: int| 0 <= l < j ==> sym_nullable(nullable@, #[trigger] symbols@[l]),
            forall|t: int| 0 <= t < cap
                ==> #[trigger] cur@[t] == (orig[t]
                    || seq_first_upto(fv, nullable@, symbols@, j as int, t)),
        decreases n_syms - j,
    {
        let ghost pre = cur@;
        match symbols[j] {
            Symbol::Term(tt) => {
                cur.insert(tt.0 as usize);
                proof {
                    assert forall|t: int| 0 <= t < cap implies #[trigger] cur@[t] == (orig[t]
                        || seq_first(fv, nullable@, symbols@, t)) by {
                        if cur@[t] {
                            if !orig[t] && !seq_first_upto(fv, nullable@, symbols@, j as int,
                                t) {
                                assert(t == tt.0);
                                assert(seq_prefix_nullable(nullable@, symbols@, j as int));
                                assert(match symbols@[j as int] {
                                    Symbol::Term(tt2) => tt2.0 == t,
                                    Symbol::Nonterm(m) => 0 <= m.0 < fv.len()
                                        && fv[m.0 as int][t],
                                });
                                assert(seq_first(fv, nullable@, symbols@, t));
                            }
                        } else {
                            if seq_first(fv, nullable@, symbols@, t) {
                                let w = choose|w: int|
                                    #![trigger symbols@[w]]
                                    {
                                        &&& 0 <= w < symbols@.len()
                                        &&& seq_prefix_nullable(nullable@, symbols@, w)
                                        &&& match symbols@[w] {
                                            Symbol::Term(tt2) => tt2.0 == t,
                                            Symbol::Nonterm(m) => 0 <= m.0 < fv.len()
                                                && fv[m.0 as int][t],
                                        }
                                    };
                                if w > j {
                                    assert(sym_nullable(nullable@, symbols@[j as int]));
                                    assert(false);
                                } else if w == j {
                                    assert(t == tt.0);
                                    assert(false);
                                } else {
                                    assert(seq_first_upto(fv, nullable@, symbols@, j as int,
                                        t));
                                    assert(false);
                                }
                            }
                            assert(!(all_syms_nullable(nullable@, symbols@)
                                && lookahead_bit(lookaheads, t))) by {
                                if all_syms_nullable(nullable@, symbols@) {
                                    assert(sym_nullable(nullable@, symbols@[j as int]));
                                }
                            }
                        }
                    }
                }
                return cur;
            },
            Symbol::Nonterm(m) => {
                let mi: usize = m.0 as usize;
                let (merged, _ch) = cur.union(&first[mi]);
                cur = merged;
                proof {
                    assert(fv[mi as int] == first@[mi as int]@);
                }
                if !nullable[mi] {
                    proof {
                        assert forall|t: int| 0 <= t < cap implies #[trigger] cur@[t]
                            == (orig[t] || seq_first(fv, nullable@, symbols@, t)) by {
                            if cur@[t] {
                                if !orig[t] && !seq_first_upto(fv, nullable@, symbols@,
                                    j as int, t) {
                                    assert(fv[mi as int][t]);
                                    assert(seq_prefix_nullable(nullable@, symbols@, j as int));
                                    assert(seq_first(fv, nullable@, symbols@, t));
                                }
                            } else {
                                assert(cur@[t] == (pre[t] || fv[mi as int][t]));
                                if seq_first(fv, nullable@, symbols@, t) {
                                    let w = choose|w: int|
                                        #![trigger symbols@[w]]
                                        {
                                            &&& 0 <= w < symbols@.len()
                                            &&& seq_prefix_nullable(nullable@, symbols@, w)
                                            &&& match symbols@[w] {
                                                Symbol::Term(tt2) => tt2.0 == t,
                                                Symbol::Nonterm(m2) => 0 <= m2.0 < fv.len()
                                                    && fv[m2.0 as int][t],
                                            }
                                        };
                                    if w > j {
                                        assert(sym_nullable(nullable@, symbols@[j as int]));
                                        assert(false);
                                    } else if w == j {
                                        assert(fv[mi as int][t]);
                                        assert(false);
                                    } else {
                                        assert(seq_first_upto(fv, nullable@, symbols@,
                                            j as int, t));
                                        assert(false);
                                    }
                                }
                                assert(!(all_syms_nullable(nullable@, symbols@)
                                    && lookahead_bit(lookaheads, t))) by {
                                    if all_syms_nullable(nullable@, symbols@) {
                                        assert(sym_nullable(nullable@, symbols@[j as int]));
                                    }
                                }
                            }
                        }
                    }
                    return cur;
                }
                proof {
                    assert forall|t: int| 0 <= t < cap implies #[trigger] cur@[t] == (orig[t]
                        || seq_first_upto(fv, nullable@, symbols@, j as int + 1, t)) by {
                        if cur@[t] {
                            if !orig[t] && !seq_first_upto(fv, nullable@, symbols@, j as int,
                                t) {
                                assert(fv[mi as int][t]);
                                assert(seq_prefix_nullable(nullable@, symbols@, j as int));
                                assert(seq_first_upto(fv, nullable@, symbols@, j as int + 1,
                                    t));
                            } else if !orig[t] {
                                let w = choose|w: int|
                                    #![trigger symbols@[w]]
                                    {
                                        &&& 0 <= w < j as int
                                        &&& w < symbols@.len()
                                        &&& seq_prefix_nullable(nullable@, symbols@, w)
                                        &&& match symbols@[w] {
                                            Symbol::Term(tt2) => tt2.0 == t,
                                            Symbol::Nonterm(m2) => 0 <= m2.0 < fv.len()
                                                && fv[m2.0 as int][t],
                                        }
                                    };
                                assert(seq_first_upto(fv, nullable@, symbols@, j as int + 1,
                                    t));
                            }
                        } else {
                            assert(cur@[t] == (pre[t] || fv[mi as int][t]));
                            if seq_first_upto(fv, nullable@, symbols@, j as int + 1, t) {
                                let w = choose|w: int|
                                    #![trigger symbols@[w]]
                                    {
                                        &&& 0 <= w < j as int + 1
                                        &&& w < symbols@.len()
                                        &&& seq_prefix_nullable(nullable@, symbols@, w)
                                        &&& match symbols@[w] {
                                            Symbol::Term(tt2) => tt2.0 == t,
                                            Symbol::Nonterm(m2) => 0 <= m2.0 < fv.len()
                                                && fv[m2.0 as int][t],
                                        }
                                    };
                                if w == j {
                                    assert(fv[mi as int][t]);
                                    assert(false);
                                } else {
                                    assert(seq_first_upto(fv, nullable@, symbols@, j as int,
                                        t));
                                    assert(false);
                                }
                            }
                        }
                    }
                }
            },
        }
        j = j + 1;
    }
    // the whole sequence was nullable
    match lookaheads {
        Some(l) => {
            let (merged, _ch) = cur.union(l);
            proof {
                assert forall|t: int| 0 <= t < cap implies #[trigger] merged@[t] == (orig[t]
                    || seq_first(fv, nullable@, symbols@, t)
                    || (all_syms_nullable(nullable@, symbols@) && lookahead_bit(lookaheads,
                    t))) by {
                    assert(merged@[t] == (cur@[t] || l@[t]));
                }
            }
            merged
        },
        None => {
            proof {
                assert forall|t: int| 0 <= t < cap implies #[trigger] cur@[t] == (orig[t]
                    || seq_first(fv, nullable@, symbols@, t)
                    || (all_syms_nullable(nullable@, symbols@) && lookahead_bit(lookaheads,
                    t))) by {
                }
            }
            cur
        },
    }
}


/// Soundness of a FIRST table: every set bit is honestly in FIRST.
pub open spec fn first_sound(b: Bnf, f: Seq<Seq<bool>>) -> bool {
    forall|n: int, t: int| 0 <= n < f.len() && 0 <= t < f[n].len()
        ==> (#[trigger] f[n][t] ==> first_spec(b, n, t))
}

/// What one production position contributes under the table.
pub open spec fn first_contrib(b: Bnf, f: Seq<Seq<bool>>, p: int, j: int, t: int) -> bool {
    match b.prods@[p].symbols@[j] {
        Symbol::Term(tt) => tt.0 == t,
        Symbol::Nonterm(m) => 0 <= m.0 < f.len() && f[m.0 as int][t],
    }
}

/// The table is closed under one expansion step.
pub open spec fn first_closed(b: Bnf, f: Seq<Seq<bool>>, cap: int) -> bool {
    forall|p: int, j: int, t: int| {
        &&& 0 <= p < b.prods@.len()
        &&& 0 <= j < b.prods@[p].symbols@.len()
        &&& 0 <= t < cap
        &&& first_prefix_nullable(b, p, j)
        &&& #[trigger] first_contrib(b, f, p, j, t)
    } ==> 0 <= prod_lhs(b, p) < f.len() && f[prod_lhs(b, p)][t]
}

/// Soundness of one table contribution: when a sound table and the exact
/// nullable table contribute `t` through production `p`, then `t` is in
/// FIRST of `p`'s left-hand side.
proof fn lemma_first_sound_step(b: Bnf, f: Seq<Seq<bool>>, nul: Seq<bool>, p: int, t: int,
    cap: int)
    requires
        bnf_wf(b),
        first_sound(b, f),
        nul.len() == b.nonterms@.len(),
        forall|n: int| 0 <= n < nul.len() ==> #[trigger] nul[n] == nullable_spec(b, n),
        0 <= p < b.prods@.len(),
        forall|i: int| 0 <= i < f.len() ==> (#[trigger] f[i]).len() == cap,
        seq_first(f, nul, b.prods@[p].symbols@, t),
        0 <= t < cap,
    ensures
        first_spec(b, prod_lhs(b, p), t),
{
    let syms = b.prods@[p].symbols@;
    let w = choose|w: int|
        #![trigger syms[w]]
        {
            &&& 0 <= w < syms.len()
            &&& seq_prefix_nullable(nul, syms, w)
            &&& match syms[w] {
                Symbol::Term(tt2) => tt2.0 == t,
                Symbol::Nonterm(m2) => 0 <= m2.0 < f.len() && f[m2.0 as int][t],
            }
        };
    assert(first_prefix_nullable(b, p, w)) by {
        assert forall|l: int| 0 <= l < w implies match #[trigger] b.prods@[p].symbols@[l] {
            Symbol::Term(_) => false,
            Symbol::Nonterm(m) => nullable_spec(b, m.0 as int),
        } by {
            assert(sym_nullable(nul, syms[l]));
        }
    }
    match syms[w] {
        Symbol::Term(_) => {
            assert(first_k(b, prod_lhs(b, p), t, 1));
        },
        Symbol::Nonterm(m) => {
            assert(f[m.0 as int].len() == cap);
            assert(first_spec(b, m.0 as int, t));
            let k = choose|k: nat| first_k(b, m.0 as int, t, k);
            assert(first_k(b, prod_lhs(b, p), t, k + 1));
        },
    }
}

/// Completeness: a closed table covers every FIRST fact.
proof fn lemma_first_complete(b: Bnf, f: Seq<Seq<bool>>, cap: int, n: int, t: int, k: nat)
    requires
        bnf_wf(b),
        f.len() == b.nonterms@.len(),
        forall|i: int| 0 <= i < f.len() ==> (#[trigger] f[i]).len() == cap,
        imap_entries(b.tokens).len() <= cap,
        first_closed(b, f, cap),
        first_k(b, n, t, k),
    ensures
        0 <= n < f.len() && 0 <= t < cap && f[n][t],
    decreases k,
{
    let (p, j): (int, int) = choose|p: int, j: int|
        #![trigger b.prods@[p].symbols@[j]]
        {
            &&& 0 <= p < b.prods@.len()
            &&& prod_lhs(b, p) == n
            &&& 0 <= j < b.prods@[p].symbols@.len()
            &&& first_prefix_nullable(b, p, j)
            &&& match b.prods@[p].symbols@[j] {
                Symbol::Term(tt) => tt.0 == t,
                Symbol::Nonterm(m) => first_k(b, m.0 as int, t, (k - 1) as nat),
            }
        };
    let st = LowerSt { nonterms: b.nonterms, prods: b.prods };
    assert(prod_wf(st.prods@[p], imap_entries(b.tokens).len() as int,
        st.nonterms@.len() as int));
    assert(sym_wf(st.prods@[p].symbols@[j], imap_entries(b.tokens).len() as int,
        st.nonterms@.len() as int));
    match b.prods@[p].symbols@[j] {
        Symbol::Term(_) => {},
        Symbol::Nonterm(m) => {
            lemma_first_complete(b, f, cap, m.0 as int, t, (k - 1) as nat);
        },
    }
    assert(first_contrib(b, f, p, j, t));
    assert(0 <= prod_lhs(b, p) < f.len() && f[prod_lhs(b, p)][t]);
}

/// Total number of set bits over a table.
pub open spec fn total_count(f: Seq<Seq<bool>>) -> nat
    decreases f,
{
    if f.len() == 0 {
        0
    } else {
        total_count(f.drop_last()) + count_true(f.last())
    }
}

proof fn lemma_total_le(f: Seq<Seq<bool>>, cap: nat)
    requires
        forall|i: int| 0 <= i < f.len() ==> (#[trigger] f[i]).len() == cap,
    ensures
        total_count(f) <= f.len() * cap,
    decreases f,
{
    if f.len() > 0 {
        assert forall|i: int| 0 <= i < f.drop_last().len() implies
            (#[trigger] f.drop_last()[i]).len() == cap by {
            assert(f.drop_last()[i] == f[i]);
        }
        lemma_total_le(f.drop_last(), cap);
        lemma_count_le_len(f.last());
        assert(f.len() * cap == (f.len() - 1) * cap + cap) by (nonlinear_arith);
    }
}

proof fn lemma_total_mono(f1: Seq<Seq<bool>>, f2: Seq<Seq<bool>>)
    requires
        f1.len() == f2.len(),
        forall|i: int| 0 <= i < f1.len()
            ==> (#[trigger] f1[i]).len() == f2[i].len()
                && forall|t: int| 0 <= t < f1[i].len() ==> (#[trigger] f1[i][t] ==> f2[i][t]),
    ensures
        total_count(f1) <= total_count(f2),
    decreases f1,
{
    if f1.len() > 0 {
        assert forall|i: int| 0 <= i < f1.drop_last().len() implies
            (#[trigger] f1.drop_last()[i]).len() == f2.drop_last()[i].len()
                && forall|t: int| 0 <= t < f1.drop_last()[i].len()
                    ==> (#[trigger] f1.drop_last()[i][t] ==> f2.drop_last()[i][t]) by {
            assert(f1.drop_last()[i] == f1[i]);
            assert(f2.drop_last()[i] == f2[i]);
        }
        lemma_total_mono(f1.drop_last(), f2.drop_last());
        lemma_count_mono(f1.last(), f2.last());
    }
}

proof fn lemma_total_grows(f1: Seq<Seq<bool>>, f2: Seq<Seq<bool>>, wn: int, wt: int)
    requires
        f1.len() == f2.len(),
        forall|i: int| 0 <= i < f1.len()
            ==> (#[trigger] f1[i]).len() == f2[i].len()
                && forall|t: int| 0 <= t < f1[i].len() ==> (#[trigger] f1[i][t] ==> f2[i][t]),
        0 <= wn < f1.len(),
        0 <= wt < f1[wn].len(),
        !f1[wn][wt],
        f2[wn][wt],
    ensures
        total_count(f1) < total_count(f2),
    decreases f1,
{
    assert forall|i: int| 0 <= i < f1.drop_last().len() implies
        (#[trigger] f1.drop_last()[i]).len() == f2.drop_last()[i].len()
            && forall|t: int| 0 <= t < f1.drop_last()[i].len()
                ==> (#[trigger] f1.drop_last()[i][t] ==> f2.drop_last()[i][t]) by {
        assert(f1.drop_last()[i] == f1[i]);
        assert(f2.drop_last()[i] == f2[i]);
    }
    if wn == f1.len() - 1 {
        lemma_total_mono(f1.drop_last(), f2.drop_last());
        lemma_count_grows(f1.last(), f2.last(), wt);
    } else {
        lemma_total_grows(f1.drop_last(), f2.drop_last(), wn, wt);
        lemma_count_mono(f1.last(), f2.last());
    }
}

/// One pass of the FIRST fixpoint: unions each production's contribution into
/// its left-hand side's set, and reports whether any bit was newly set.
#[verifier::loop_isolation(false)]
#[verifier::rlimit(100)]
#[verifier::spinoff_prover]
fn first_pass(bnf: &Bnf, nullable: &Vec<bool>, firsts: Vec<BitSet>, Ghost(cap): Ghost<int>)
    -> (r: (Vec<BitSet>, bool))
    requires
        bnf_wf(*bnf),
        nullable@.len() == bnf.nonterms@.len(),
        forall|n: int| 0 <= n < nullable@.len()
            ==> #[trigger] nullable@[n] == nullable_spec(*bnf, n),
        firsts@.len() == bnf.nonterms@.len(),
        forall|i: int| 0 <= i < firsts@.len() ==> (#[trigger] firsts@[i]).capacity() == cap,
        cap == ((imap_entries(bnf.tokens).len() + 63) / 64) * 64,
        imap_entries(bnf.tokens).len() <= usize::MAX - 63,
        cap <= usize::MAX,
        first_sound(*bnf, first_views(firsts@)),
    ensures
        r.0@.len() == firsts@.len(),
        forall|i: int| 0 <= i < r.0@.len() ==> (#[trigger] r.0@[i]).capacity() == cap,
        first_sound(*bnf, first_views(r.0@)),
        forall|i: int, t: int| 0 <= i < firsts@.len() && 0 <= t < cap
            ==> (#[trigger] first_views(firsts@)[i][t] ==> first_views(r.0@)[i][t]),
        !r.1 ==> r.0@ == firsts@ && first_closed(*bnf, first_views(firsts@), cap),
        r.1 ==> exists|wn: int, wt: int| 0 <= wn < firsts@.len() && 0 <= wt < cap
            && !first_views(firsts@)[wn][wt] && first_views(r.0@)[wn][wt],
{
    let ghost fvec_orig = firsts;
    let ghost orig = first_views(firsts@);
    let mut firsts = firsts;
    let mut changed = false;
    let mut p: usize = 0;
    let n_prods: usize = bnf.prods.len();
    let n_tokens: usize = imap_len(&bnf.tokens);
    proof {
        assert(imap_entries(bnf.tokens).len() <= cap) by (nonlinear_arith)
            requires cap == ((imap_entries(bnf.tokens).len() + 63) / 64) * 64,
                imap_entries(bnf.tokens).len() >= 0;
    }
    while p < n_prods
        invariant
            p <= n_prods,
            firsts@.len() == orig.len(),
            forall|i: int| 0 <= i < firsts@.len()
                ==> (#[trigger] firsts@[i]).capacity() == cap,
            first_sound(*bnf, first_views(firsts@)),
            forall|i: int, t: int| 0 <= i < orig.len() && 0 <= t < cap
                ==> (#[trigger] orig[i][t] ==> first_views(firsts@)[i][t]),
            changed ==> exists|wn: int, wt: int| 0 <= wn < orig.len() && 0 <= wt < cap
                && !orig[wn][wt] && first_views(firsts@)[wn][wt],
            !changed ==> firsts == fvec_orig,
            !changed ==> forall|q: int, j: int, t: int| {
                &&& 0 <= q < p
                &&& 0 <= j < bnf.prods@[q].symbols@.len()
                &&& 0 <= t < cap
                &&& first_prefix_nullable(*bnf, q, j)
                &&& #[trigger] first_contrib(*bnf, orig, q, j, t)
            } ==> 0 <= prod_lhs(*bnf, q) < orig.len() && orig[prod_lhs(*bnf, q)][t],
        decreases n_prods - p,
    {
        let ghost pre_views = first_views(firsts@);
        proof {
            let st = LowerSt { nonterms: bnf.nonterms, prods: bnf.prods };
            assert(prod_wf(st.prods@[p as int], imap_entries(bnf.tokens).len() as int,
                st.nonterms@.len() as int));
            assert(prod_covered(st.nonterms@, p as int));
            let w = choose|w: int| 0 <= w < st.nonterms@.len()
                && (#[trigger] st.nonterms@[w]).prod_start <= p < st.nonterms@[w].prod_end;
            assert(st.prods@[p as int].nonterm_id.0 == w);
            assert forall|j: int| 0 <= j < bnf.prods@[p as int].symbols@.len() implies
                match #[trigger] bnf.prods@[p as int].symbols@[j] {
                    Symbol::Term(tt) => tt.0 < cap,
                    Symbol::Nonterm(m) => m.0 < firsts@.len() && m.0 < nullable@.len(),
                } by {
                assert(sym_wf(st.prods@[p as int].symbols@[j],
                    imap_entries(bnf.tokens).len() as int, st.nonterms@.len() as int));
            }
        }
        let buf = BitSet::new(n_tokens);
        let buf = compute_first_for_symbols(buf, &firsts, nullable, &bnf.prods[p].symbols,
            None);
        let lhs: usize = bnf.prods[p].nonterm_id.0 as usize;
        let (merged, ch) = firsts[lhs].union(&buf);
        if ch {
            proof {
                // the newly set bit witnesses the change, and stays honest
                let wt = choose|wt: int| 0 <= wt < cap && !firsts@[lhs as int]@[wt]
                    && buf@[wt];
                assert(seq_first(first_views(firsts@), nullable@,
                    bnf.prods@[p as int].symbols@, wt));
                assert(!orig[lhs as int][wt]);
            }
            let ghost pre_firsts = firsts;
            firsts.set(lhs, merged);
            changed = true;
            proof {
                assert forall|i: int| 0 <= i < firsts@.len() implies
                    (#[trigger] firsts@[i]).capacity() == cap by {
                    if i != lhs {
                        assert(firsts@[i] == pre_firsts@[i]);
                    }
                }
                // soundness of every bit of the updated row
                assert forall|n: int, t: int| 0 <= n < first_views(firsts@).len()
                    && 0 <= t < first_views(firsts@)[n].len()
                    implies (#[trigger] first_views(firsts@)[n][t]
                        ==> first_spec(*bnf, n, t)) by {
                    if n == lhs && first_views(firsts@)[n][t] {
                        assert(merged@[t] == (pre_firsts@[lhs as int]@[t] || buf@[t]));
                        if !pre_firsts@[lhs as int]@[t] {
                            assert(buf@[t]);
                            assert(seq_first(pre_views, nullable@,
                                bnf.prods@[p as int].symbols@, t));
                            lemma_first_sound_step(*bnf, pre_views, nullable@, p as int, t,
                                cap);
                        } else {
                            assert(pre_views[n][t]);
                        }
                    } else if n != lhs {
                        assert(firsts@[n] == pre_firsts@[n]);
                        assert(pre_views[n][t] == first_views(firsts@)[n][t]);
                    }
                }
                // monotone growth
                assert forall|i: int, t: int| 0 <= i < orig.len() && 0 <= t < cap implies
                    (#[trigger] orig[i][t] ==> first_views(firsts@)[i][t]) by {
                    if i == lhs {
                        assert(merged@[t] == (pre_firsts@[lhs as int]@[t] || buf@[t]));
                        assert(pre_views[i][t] == pre_firsts@[i]@[t]);
                    } else {
                        assert(firsts@[i] == pre_firsts@[i]);
                    }
                }
                let wt = choose|wt: int| 0 <= wt < cap && !pre_firsts@[lhs as int]@[wt]
                    && buf@[wt];
                assert(first_views(firsts@)[lhs as int][wt]);
                assert(!orig[lhs as int][wt]) by {
                    assert(orig[lhs as int][wt] ==> pre_views[lhs as int][wt]);
                }
            }
        } else {
            proof {
                // no new bits: this production's contributions were present
                if !changed {
                    assert forall|j: int, t: int| {
                        &&& 0 <= j < bnf.prods@[p as int].symbols@.len()
                        &&& 0 <= t < cap
                        &&& first_prefix_nullable(*bnf, p as int, j)
                        &&& #[trigger] first_contrib(*bnf, orig, p as int, j, t)
                    } implies orig[prod_lhs(*bnf, p as int)][t] by {
                        // the contribution shows up in the computed buffer
                        assert(seq_prefix_nullable(nullable@,
                            bnf.prods@[p as int].symbols@, j)) by {
                            assert forall|l: int| 0 <= l < j implies sym_nullable(nullable@,
                                #[trigger] bnf.prods@[p as int].symbols@[l]) by {
                                match bnf.prods@[p as int].symbols@[l] {
                                    Symbol::Term(_) => {},
                                    Symbol::Nonterm(m) => {
                                        assert(m.0 < nullable@.len());
                                    },
                                }
                            }
                        }
                        assert(seq_first(pre_views, nullable@,
                            bnf.prods@[p as int].symbols@, t)) by {
                            assert(match bnf.prods@[p as int].symbols@[j] {
                                Symbol::Term(tt) => tt.0 == t,
                                Symbol::Nonterm(m) => 0 <= m.0 < pre_views.len()
                                    && pre_views[m.0 as int][t],
                            });
                        }
                        assert(buf@[t]);
                        assert(firsts@[lhs as int]@[t]);
                        assert(orig[lhs as int][t]);
                    }
                }
            }
        }
        p = p + 1;
    }
    (firsts, changed)
}

/// Computes the FIRST table: bit `t` of entry `n` is set exactly when
/// terminal `t` can begin a string derived from nonterminal `n`. Terminates
/// because every changing pass strictly grows the total number of set bits.
#[verifier::loop_isolation(false)]
#[verifier::rlimit(60)]
#[verifier::spinoff_prover]
pub fn gen_first(bnf: &Bnf, nullable: &Vec<bool>) -> (r: Vec<BitSet>)
    requires
        bnf_wf(*bnf),
        nullable@.len() == bnf.nonterms@.len(),
        forall|n: int| 0 <= n < nullable@.len()
            ==> #[trigger] nullable@[n] == nullable_spec(*bnf, n),
        imap_entries(bnf.tokens).len() <= usize::MAX - 63,
        bnf.nonterms@.len() * (((imap_entries(bnf.tokens).len() + 63) / 64) * 64)
            <= usize::MAX,
    ensures
        r@.len() == bnf.nonterms@.len(),
        forall|n: int| 0 <= n < r@.len() ==> (#[trigger] r@[n]).capacity()
            == ((imap_entries(bnf.tokens).len() + 63) / 64) * 64,
        forall|n: int, t: int| 0 <= n < r@.len()
            && 0 <= t < ((imap_entries(bnf.tokens).len() + 63) / 64) * 64
            ==> #[trigger] r@[n]@[t] == first_spec(*bnf, n, t),
{
    let ghost cap: int = ((imap_entries(bnf.tokens).len() as int + 63) / 64) * 64;
    let n_tokens: usize = imap_len(&bnf.tokens);
    let n: usize = bnf.nonterms.len();
    let mut firsts: Vec<BitSet> = Vec::new();
    let mut i: usize = 0;
    while i < n
        invariant
            i <= n,
            firsts@.len() == i,
            forall|j: int| 0 <= j < i ==> (#[trigger] firsts@[j]).capacity() == cap,
            forall|j: int, t: int| 0 <= j < i && 0 <= t < cap
                ==> !(#[trigger] firsts@[j]@[t]),
        decreases n - i,
    {
        firsts.push(BitSet::new(n_tokens));
        i = i + 1;
    }
    let mut changed = true;
    while changed
        invariant
            firsts@.len() == n,
            forall|j: int| 0 <= j < n ==> (#[trigger] firsts@[j]).capacity() == cap,
            first_sound(*bnf, first_views(firsts@)),
            !changed ==> first_closed(*bnf, first_views(firsts@), cap),
        decreases n * cap - total_count(first_views(firsts@))
            + if changed { 1int } else { 0int },
    {
        let ghost pre = first_views(firsts@);
        proof {
            assert forall|j: int| 0 <= j < pre.len() implies (#[trigger] pre[j]).len()
                == cap as nat by {
                assert(pre[j] == firsts@[j]@);
            }
            lemma_total_le(pre, cap as nat);
        }
        let (next, ch) = first_pass(bnf, nullable, firsts, Ghost(cap));
        proof {
            let nv = first_views(next@);
            assert forall|j: int| 0 <= j < nv.len() implies (#[trigger] nv[j]).len()
                == cap as nat && pre[j].len() == nv[j].len()
                && forall|t: int| 0 <= t < pre[j].len() ==> (#[trigger] pre[j][t]
                    ==> nv[j][t]) by {
                assert(nv[j] == next@[j]@);
                assert(pre[j] == firsts@[j]@);
            }
            if ch {
                let (wn, wt): (int, int) = choose|wn: int, wt: int| 0 <= wn < firsts@.len()
                    && 0 <= wt < cap && !first_views(firsts@)[wn][wt]
                    && first_views(next@)[wn][wt];
                lemma_total_grows(pre, nv, wn, wt);
            } else {
                lemma_total_mono(pre, nv);
            }
            lemma_total_le(nv, cap as nat);
        }
        firsts = next;
        changed = ch;
    }
    proof {
        let fv = first_views(firsts@);
        assert forall|nn: int, t: int| 0 <= nn < firsts@.len() && 0 <= t < cap implies
            #[trigger] firsts@[nn]@[t] == first_spec(*bnf, nn, t) by {
            assert(fv[nn] == firsts@[nn]@);
            if firsts@[nn]@[t] {
                assert(fv[nn][t]);
                assert(first_spec(*bnf, nn, t));
            } else {
                if first_spec(*bnf, nn, t) {
                    let k = choose|k: nat| first_k(*bnf, nn, t, k);
                    assert forall|j: int| 0 <= j < fv.len() implies (#[trigger] fv[j]).len()
                        == cap as nat by {
                        assert(fv[j] == firsts@[j]@);
                    }
                    assert(imap_entries(bnf.tokens).len() <= cap) by (nonlinear_arith)
                        requires cap == ((imap_entries(bnf.tokens).len() + 63) / 64) * 64,
                            imap_entries(bnf.tokens).len() >= 0;
                    lemma_first_complete(*bnf, fv, cap, nn, t, k);
                    assert(false);
                }
            }
        }
    }
    firsts
}


// ---------------------------------------------------------------------------
// Laws about ε-productions and the separated-list shapes
// ---------------------------------------------------------------------------

/// Whether a symbol stands for something that derives the empty string.
pub open spec fn sym_spec_nullable(b: Bnf, s: Symbol) -> bool {
    match s {
        Symbol::Term(_) => false,
        Symbol::Nonterm(m) => nullable_spec(b, m.0 as int),
    }
}

/// An ε-production makes its left-hand side nullable.
pub proof fn lemma_epsilon_nullable(b: Bnf, p: int)
    requires
        bnf_wf(b),
        0 <= p < b.prods@.len(),
        b.prods@[p].symbols@.len() == 0,
    ensures
        nullable_spec(b, prod_lhs(b, p)),
{
    assert(nullable_k(b, prod_lhs(b, p), 1));
}

/// An ε-production contributes nothing to FIRST: no table ever draws a
/// terminal from it.
pub proof fn lemma_epsilon_no_first(
    b: Bnf,
    p: int,
    f: Seq<Seq<bool>>,
    nul: Seq<bool>,
    t: int,
)
    requires
        0 <= p < b.prods@.len(),
        b.prods@[p].symbols@.len() == 0,
    ensures
        !seq_first(f, nul, b.prods@[p].symbols@, t),
{
}

/// A separated list accepts the empty input: its nonterminal is nullable,
/// thanks to its ε-production.
pub proof fn lemma_sep_by_accepts_empty(b: Bnf, id: int)
    requires
        bnf_wf(b),
        is_sep_by_shape(bnf_st(b), id),
    ensures
        nullable_spec(b, id),
{
    let s = b.nonterms@[id].prod_start as int;
    assert(b.prods@[s].nonterm_id.0 == id);
    assert(b.prods@[s].symbols@.len() == 0);
    lemma_epsilon_nullable(b, s);
}

/// A non-empty separated list requires at least one item: its nonterminal is
/// nullable exactly when the item symbol is.
pub proof fn lemma_sep_by1_needs_item(b: Bnf, id: int)
    requires
        bnf_wf(b),
        is_sep_by1_shape(bnf_st(b), id),
    ensures
        nullable_spec(b, id) == sym_spec_nullable(b, bnf_st(b).prods@[
            bnf_st(b).nonterms@[id].prod_start as int
        ].symbols@[0]),
{
    let st = bnf_st(b);
    let s = st.nonterms@[id].prod_start as int;
    let sub = st.prods@[s].symbols@[0];
    if sym_spec_nullable(b, sub) {
        match sub {
            Symbol::Term(_) => {
                assert(false);
            },
            Symbol::Nonterm(m) => {
                let k = choose|k: nat| nullable_k(b, m.0 as int, k);
                assert forall|j: int| 0 <= j < (#[trigger] b.prods@[s]).symbols@.len()
                    implies match #[trigger] b.prods@[s].symbols@[j] {
                        Symbol::Term(_) => false,
                        Symbol::Nonterm(m2) => nullable_k(b, m2.0 as int, k),
                    } by {
                    assert(b.prods@[s].symbols@[j] == sub);
                }
                assert(nullable_k(b, id, k + 1));
            },
        }
    }
    if nullable_spec(b, id) {
        let k = choose|k: nat| nullable_k(b, id, k);
        let p = choose|p: int| {
            &&& 0 <= p < b.prods@.len()
            &&& prod_lhs(b, p) == id
            &&& forall|j: int| 0 <= j < (#[trigger] b.prods@[p]).symbols@.len()
                ==> match #[trigger] b.prods@[p].symbols@[j] {
                    Symbol::Term(_) => false,
                    Symbol::Nonterm(m) => nullable_k(b, m.0 as int, (k - 1) as nat),
                }
        };
        crate::bnf::lemma_production_identity(b, p);
        assert(st.nonterms@[id].prod_start <= p < st.nonterms@[id].prod_end);
        if p == s {
            assert(match b.prods@[p].symbols@[0] {
                Symbol::Term(_) => false,
                Symbol::Nonterm(m) => nullable_k(b, m.0 as int, (k - 1) as nat),
            });
        } else {
            assert(p == s + 1);
            assert(b.prods@[p].symbols@[2] == sub);
            assert(match b.prods@[p].symbols@[2] {
                Symbol::Term(_) => false,
                Symbol::Nonterm(m) => nullable_k(b, m.0 as int, (k - 1) as nat),
            });
        }
        match sub {
            Symbol::Term(_) => {
                assert(false);
            },
            Symbol::Nonterm(m) => {
                assert(nullable_spec(b, m.0 as int));
            },
        }
    }
}

} // verus!
