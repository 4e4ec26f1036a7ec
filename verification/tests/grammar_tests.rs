use lalrgen::grammar::{grammar, sym, Grammar};
use lalrgen::build;

fn names(v: &[&str]) -> Vec<String> {
    v.iter().map(|s| (*s).to_owned()).collect()
}

#[test]
fn grammar_rejects_duplicate_rule_names() {
    let r = grammar(
        names(&["a"]),
        names(&["s"]),
        vec![("s".to_owned(), sym("a")), ("s".to_owned(), sym("a"))],
    );
    assert_eq!(r.err().unwrap(), "duplicate rule found in rule list");
}

#[test]
fn validate_rejects_empty_token_list() {
    let g = Grammar { tokens: vec![], start: names(&["s"]), rules: vec![("s".to_owned(), sym("s"))] };
    assert_eq!(g.validate().err().unwrap(), "token list is empty");
}

#[test]
fn validate_rejects_duplicate_token() {
    let g = Grammar {
        tokens: names(&["a", "a"]),
        start: names(&["s"]),
        rules: vec![("s".to_owned(), sym("a"))],
    };
    assert_eq!(g.validate().err().unwrap(), "duplicate token found in token list");
}

#[test]
fn validate_rejects_empty_start_list() {
    let g = Grammar {
        tokens: names(&["a"]),
        start: vec![],
        rules: vec![("s".to_owned(), sym("a"))],
    };
    assert_eq!(g.validate().err().unwrap(), "start rule list is empty");
}

#[test]
fn validate_rejects_duplicate_start() {
    let g = Grammar {
        tokens: names(&["a"]),
        start: names(&["s", "s"]),
        rules: vec![("s".to_owned(), sym("a"))],
    };
    assert_eq!(g.validate().err().unwrap(), "duplicate token found in start list");
}

#[test]
fn validate_rejects_undefined_start() {
    let g = Grammar {
        tokens: names(&["a"]),
        start: names(&["z"]),
        rules: vec![("s".to_owned(), sym("a"))],
    };
    assert_eq!(g.validate().err().unwrap(), "start rule 'z' is undefined");
}

#[test]
fn validate_rejects_token_rule_collision() {
    let g = Grammar {
        tokens: names(&["s"]),
        start: names(&["s"]),
        rules: vec![("s".to_owned(), sym("s"))],
    };
    assert_eq!(g.validate().err().unwrap(), "token name collides with rule name");
}

#[test]
fn validate_rejects_undefined_symbol() {
    let g = Grammar {
        tokens: names(&["a"]),
        start: names(&["s"]),
        rules: vec![("s".to_owned(), sym("q"))],
    };
    assert_eq!(g.validate().err().unwrap(), "symbol 'q' is undefined");
}

#[test]
fn validate_accepts_well_formed_grammar() {
    let g = Grammar {
        tokens: names(&["a"]),
        start: names(&["s"]),
        rules: vec![("s".to_owned(), sym("a"))],
    };
    assert!(g.validate().is_ok());
}

#[test]
fn build_fails_on_invalid_grammar() {
    let g = Grammar {
        tokens: names(&["a"]),
        start: names(&["z"]),
        rules: vec![("s".to_owned(), sym("a"))],
    };
    assert!(build(g).is_err());
}
