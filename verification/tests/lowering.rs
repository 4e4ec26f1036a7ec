use lalrgen::bnf::{Bnf, ProdAction, Symbol};
use lalrgen::grammar::{grammar, many, option, prec, sep_by, some, sym, Assoc, Grammar, Rule};
use lalrgen::parser::sets::gen_nullable;
use lalrgen::build;

fn sq(rules: Vec<Rule>) -> Rule {
    lalrgen::grammar::seq(rules)
}

fn toks(v: &[&str]) -> Vec<String> {
    v.iter().map(|s| (*s).to_owned()).collect()
}

fn expr_grammar() -> Grammar {
    grammar(
        toks(&["+", "-", "*", "/", "num", "(", ")", "id", ","]),
        toks(&["expr"]),
        vec![
            (
                "expr".to_owned(),
                prec(0, Assoc::Left, sq(vec![sym("expr"), sym("+").or(sym("-")), sym("expr")]))
                    .or(prec(
                        1,
                        Assoc::Left,
                        sq(vec![sym("expr"), sym("*").or(sym("/")), sym("expr")]),
                    ))
                    .or(prec(2, Assoc::Nonassoc, sq(vec![sym("-"), sym("expr")])))
                    .or(sq(vec![sym("("), sym("expr"), sym(")")]))
                    .or(sym("id"))
                    .or(sym("num"))
                    .or(sym("call")),
            ),
            (
                "call".to_owned(),
                sq(vec![sym("id"), sym("("), sep_by(sym(","), sym("expr")), sym(")")]),
            ),
        ],
    )
    .unwrap()
}

/// A canonical rendering of a BNF, used to compare two builds byte by byte.
fn snapshot(bnf: &Bnf) -> String {
    let mut out = String::new();
    for i in 0..bnf.tokens.len() {
        let (name, id) = bnf.tokens.get_index(i).unwrap();
        out.push_str(&format!("token {} {}\n", name, id));
    }
    for i in 0..bnf.starts.len() {
        let (name, id) = bnf.starts.get_index(i).unwrap();
        out.push_str(&format!("start {} {}\n", name, id));
    }
    for nt in &bnf.nonterms {
        out.push_str(&format!("nt {} {} {}\n", nt.name, nt.prod_start, nt.prod_end));
    }
    for p in &bnf.prods {
        out.push_str(&format!(
            "prod {} {:?} {:?} {:?} {:?}\n",
            p.nonterm_id.0, p.action, p.prec, p.assoc, p.symbols
        ));
    }
    out
}

#[test]
fn expr() {
    let gram = expr_grammar();
    gram.validate().unwrap();
    let bnf = Bnf::from_grammar(gram);

    assert_eq!(bnf.tokens.len(), 9);
    assert_eq!(bnf.nonterms[0].name, "expr");
    assert_eq!(bnf.nonterms[1].name, "call");

    // seven alternatives, the first three carrying their precedence stamps
    let s = bnf.nonterms[0].prod_start;
    let e = bnf.nonterms[0].prod_end;
    assert_eq!(e - s, 7);
    assert_eq!(bnf.prods[s].prec, Some(0));
    assert_eq!(bnf.prods[s].assoc, Assoc::Left);
    assert_eq!(bnf.prods[s + 1].prec, Some(1));
    assert_eq!(bnf.prods[s + 1].assoc, Assoc::Left);
    assert_eq!(bnf.prods[s + 2].prec, Some(2));
    assert_eq!(bnf.prods[s + 2].assoc, Assoc::Nonassoc);
    for k in 3..7 {
        assert_eq!(bnf.prods[s + k].prec, None);
    }

    // the arithmetic expression scenario: expr is not nullable and FIRST
    // covers id, num, ( and -
    let parser = build(expr_grammar()).unwrap();
    assert_eq!(parser.nullable[0], false);
    for t in ["id", "num", "(", "-"] {
        let id = *parser.bnf.tokens.get(t).unwrap() as usize;
        assert!(parser.first[0].get(id));
    }
    assert!(!parser.first[0].get(*parser.bnf.tokens.get(")").unwrap() as usize));
}

#[test]
fn repetition() {
    let gram = grammar(
        toks(&["a", "b", "c", "d"]),
        toks(&["A", "B"]),
        vec![
            (
                "A".to_owned(),
                sq(vec![
                    many(sq(vec![sym("a"), option(sym("C")), sym("B").or(sym("b"))])),
                    option(sq(vec![sym("A"), sym("a")])),
                ]),
            ),
            ("B".to_owned(), some(sym("c").or(sq(vec![sym("d"), sym("B")])))),
            ("C".to_owned(), sym("B").or(sym("b"))),
        ],
    )
    .unwrap();

    gram.validate().unwrap();
    let bnf = Bnf::from_grammar(gram);

    // one many and one many1 were synthesized
    let start_many = bnf.prods.iter().filter(|p| p.action == ProdAction::StartMany).count();
    let start_many1 = bnf.prods.iter().filter(|p| p.action == ProdAction::StartMany1).count();
    let empty_opt = bnf.prods.iter().filter(|p| p.action == ProdAction::EmptyOption).count();
    assert_eq!(start_many, 1);
    assert_eq!(start_many1, 1);
    assert_eq!(empty_opt, 2);

    let nullable = gen_nullable(&bnf);
    assert_eq!(nullable[0], true);
    assert_eq!(nullable[1], false);
    assert_eq!(nullable[2], false);
}

#[test]
fn prec_on_bare_symbol_splits_a_fresh_nonterminal() {
    let gram = grammar(
        toks(&["x", "y"]),
        toks(&["s"]),
        vec![
            ("s".to_owned(), sq(vec![prec(2, Assoc::Nonassoc, sym("r")), sym("y")])),
            ("r".to_owned(), sym("x")),
        ],
    )
    .unwrap();
    gram.validate().unwrap();
    let bnf = Bnf::from_grammar(gram);

    // a fresh nonterminal carries the stamp; rule r itself is untouched
    assert_eq!(bnf.nonterms.len(), 3);
    let rs = bnf.nonterms[1].prod_start;
    assert_eq!(bnf.prods[rs].prec, None);
    let fs = bnf.nonterms[2].prod_start;
    assert_eq!(bnf.nonterms[2].prod_end, fs + 1);
    assert_eq!(bnf.prods[fs].prec, Some(2));
    assert_eq!(bnf.prods[fs].assoc, Assoc::Nonassoc);
    assert_eq!(bnf.prods[fs].symbols, vec![Symbol::Nonterm(lalrgen::bnf::NontermId(1))]);
}

#[test]
fn same_grammar_builds_identical_snapshots() {
    let a = Bnf::from_grammar(expr_grammar()).augment();
    let b = Bnf::from_grammar(expr_grammar()).augment();
    assert_eq!(snapshot(&a), snapshot(&b));
}

#[test]
fn permuting_tokens_keeps_the_structure() {
    let build_one = |tokens: &[&str]| -> Bnf {
        let g = grammar(
            toks(tokens),
            toks(&["s"]),
            vec![("s".to_owned(), sym("a").or(sym("b")))],
        )
        .unwrap();
        g.validate().unwrap();
        Bnf::from_grammar(g)
    };
    let x = build_one(&["a", "b"]);
    let y = build_one(&["b", "a"]);

    // terminal indices are permuted
    assert_eq!(*x.tokens.get("a").unwrap(), 0);
    assert_eq!(*y.tokens.get("a").unwrap(), 1);

    // but the structure is isomorphic: same table sizes, same actions
    assert_eq!(x.nonterms.len(), y.nonterms.len());
    assert_eq!(x.prods.len(), y.prods.len());
    for (p, q) in x.prods.iter().zip(y.prods.iter()) {
        assert_eq!(p.nonterm_id, q.nonterm_id);
        assert_eq!(p.action, q.action);
        assert_eq!(p.symbols.len(), q.symbols.len());
    }
}

#[test]
fn augmentation_adds_one_plain_production_per_start() {
    let gram = grammar(
        toks(&["a"]),
        toks(&["s"]),
        vec![("s".to_owned(), sym("a"))],
    )
    .unwrap();
    gram.validate().unwrap();
    let bnf = Bnf::from_grammar(gram).augment();

    let (name, id) = bnf.starts.get_index(0).unwrap();
    assert_eq!(name, "s");
    let nt = &bnf.nonterms[*id as usize];
    assert_eq!(nt.name, "$start(s)");
    assert_eq!(nt.prod_end, nt.prod_start + 1);
    let p = &bnf.prods[nt.prod_start];
    assert_eq!(p.action, ProdAction::Plain);
    assert_eq!(p.prec, None);
    assert_eq!(p.symbols, vec![Symbol::Nonterm(lalrgen::bnf::NontermId(0))]);
}

#[test]
fn sep_by_accepts_empty_and_sep_by1_does_not() {
    let gram = grammar(
        toks(&[",", "x"]),
        toks(&["list"]),
        vec![("list".to_owned(), sep_by(sym(","), sym("x")))],
    )
    .unwrap();
    gram.validate().unwrap();
    let bnf = Bnf::from_grammar(gram);
    let nullable = gen_nullable(&bnf);

    // the sepBy nonterminal accepts the empty input
    assert_eq!(nullable[0], true);
    // its sepBy1 companion requires at least one item
    let sb1 = bnf
        .prods
        .iter()
        .find(|p| p.action == ProdAction::StartSepBy1)
        .unwrap()
        .nonterm_id
        .0 as usize;
    assert_eq!(nullable[sb1], false);
}
