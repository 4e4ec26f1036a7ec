use lalrgen::bnf::{Bnf, NontermId, Symbol, TermId};
use lalrgen::parser::bitset::BitSet;
use lalrgen::parser::sets::{compute_first_for_symbols, gen_first, gen_nullable};

fn simple() -> Bnf {
    Bnf::parse(
        r#"
      Z -> d
      Z -> X Y Z
      Y ->
      Y -> c
      X -> Y
      X -> a
    "#,
    )
}

fn ll_expr() -> Bnf {
    Bnf::parse(
        r#"
      E -> T E'
      E' -> + T E'
      E' ->
      T -> F T'
      T' -> * F T'
      T' ->
      F -> num
      F -> ( E )
    "#,
    )
}

fn first_names(bnf: &Bnf) -> Vec<Vec<String>> {
    let nullable = gen_nullable(bnf);
    let first = gen_first(bnf, &nullable);
    let mut out = Vec::new();
    for set in &first {
        let mut names = Vec::new();
        let mut it = set.iter();
        while let Some(t) = it.next() {
            names.push(bnf.tokens.get_index(t).unwrap().0.clone());
        }
        out.push(names);
    }
    out
}

#[test]
fn simple_nullable() {
    let nullable = gen_nullable(&simple());
    assert_eq!(nullable, vec![false, true, true]);
}

#[test]
fn ll_expr_nullable() {
    let nullable = gen_nullable(&ll_expr());
    assert_eq!(nullable, vec![false, true, false, true, false]);
}

#[test]
fn simple_first() {
    let first = first_names(&simple());
    assert_eq!(
        first,
        vec![vec!["d", "c", "a"], vec!["c"], vec!["c", "a"]]
    );
}

#[test]
fn ll_expr_first() {
    let first = first_names(&ll_expr());
    assert_eq!(
        first,
        vec![
            vec!["num", "("],
            vec!["+"],
            vec!["num", "("],
            vec!["*"],
            vec!["num", "("]
        ]
    );
}

#[test]
fn epsilon_only_production_is_nullable_but_adds_no_first() {
    // A has an ε-production and one over a terminal; the ε line makes A
    // nullable but contributes nothing to FIRST(A)
    let bnf = Bnf::parse("A ->\nA -> b");
    let nullable = gen_nullable(&bnf);
    assert_eq!(nullable, vec![true]);
    let first = first_names(&bnf);
    assert_eq!(first, vec![vec!["b"]]);
}

#[test]
fn self_nullable_recursion_terminates() {
    // A -> A | ε: the fixpoints must still terminate
    let bnf = Bnf::parse("A -> A\nA ->");
    let nullable = gen_nullable(&bnf);
    assert_eq!(nullable, vec![true]);
    let first = first_names(&bnf);
    assert_eq!(first, vec![Vec::<String>::new()]);
}

#[test]
fn left_recursion_first_reaches_fixpoint() {
    // E -> E + n | n: FIRST(E) = {n}
    let bnf = Bnf::parse("E -> E + n\nE -> n");
    let nullable = gen_nullable(&bnf);
    assert_eq!(nullable, vec![false]);
    let first = first_names(&bnf);
    assert_eq!(first, vec![vec!["n"]]);
}

#[test]
fn first_of_symbols_adds_lookaheads_only_when_all_nullable() {
    // two nonterminals: 0 nullable with FIRST {0}, 1 not nullable, FIRST {1}
    let mut f0 = BitSet::new(3);
    f0.insert(0);
    let mut f1 = BitSet::new(3);
    f1.insert(1);
    let firsts = vec![f0, f1];
    let nullable = vec![true, false];
    let mut look = BitSet::new(3);
    look.insert(2);

    // σ = N0 N1: FIRST(σ) = {0, 1}; σ is not all-nullable, so the
    // lookaheads stay out
    let r = compute_first_for_symbols(
        BitSet::new(3),
        &firsts,
        &nullable,
        &vec![Symbol::Nonterm(NontermId(0)), Symbol::Nonterm(NontermId(1))],
        Some(&look),
    );
    assert!(r.get(0) && r.get(1) && !r.get(2));

    // σ = N0: entirely nullable, so the lookaheads come in
    let r = compute_first_for_symbols(
        BitSet::new(3),
        &firsts,
        &nullable,
        &vec![Symbol::Nonterm(NontermId(0))],
        Some(&look),
    );
    assert!(r.get(0) && !r.get(1) && r.get(2));

    // a terminal stops the scan
    let r = compute_first_for_symbols(
        BitSet::new(3),
        &firsts,
        &nullable,
        &vec![Symbol::Term(TermId(1)), Symbol::Nonterm(NontermId(0))],
        Some(&look),
    );
    assert!(!r.get(0) && r.get(1) && !r.get(2));
}

#[test]
fn parse_ignores_lines_without_an_arrow_and_strips_the_star() {
    let bnf = Bnf::parse("a comment line\n  S *  ->  a  b \nS -> c");
    assert_eq!(bnf.nonterms.len(), 1);
    assert_eq!(bnf.nonterms[0].name, "S");
    assert_eq!(bnf.nonterms[0].prod_start, 0);
    assert_eq!(bnf.nonterms[0].prod_end, 2);
    assert_eq!(bnf.prods[0].symbols.len(), 2);
    assert_eq!(bnf.prods[1].symbols.len(), 1);
    assert_eq!(bnf.tokens.len(), 3);
    let (name, id) = bnf.starts.get_index(0).unwrap();
    assert_eq!(name, "S");
    assert_eq!(*id, 0);
}

#[test]
fn parse_yields_the_empty_grammar_on_non_ascii_input() {
    let bnf = Bnf::parse("S -> é");
    assert_eq!(bnf.nonterms.len(), 0);
    assert_eq!(bnf.prods.len(), 0);
    assert_eq!(bnf.tokens.len(), 0);
    assert_eq!(bnf.starts.len(), 0);
}

#[test]
fn parse_reads_the_rhs_up_to_a_second_arrow() {
    // only the span between the two arrows is the right-hand side
    let bnf = Bnf::parse("A -> x -> y");
    assert_eq!(bnf.nonterms.len(), 1);
    assert_eq!(bnf.prods[0].symbols.len(), 1);
    assert_eq!(bnf.tokens.len(), 1);
    assert_eq!(bnf.tokens.get_index(0).unwrap().0, "x");
}
