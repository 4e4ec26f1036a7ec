use lalrgen::grammar::Assoc;
use lalrgen::parser::state::{resolve_shift_reduce, Resolution};

#[test]
fn higher_precedence_wins() {
    assert_eq!(resolve_shift_reduce(Some(2), Some(1), Assoc::Nonassoc), Resolution::Shift);
    assert_eq!(resolve_shift_reduce(Some(0), Some(1), Assoc::Right), Resolution::Reduce);
}

#[test]
fn equal_precedence_follows_associativity() {
    assert_eq!(resolve_shift_reduce(Some(1), Some(1), Assoc::Left), Resolution::Reduce);
    assert_eq!(resolve_shift_reduce(Some(1), Some(1), Assoc::Right), Resolution::Shift);
    assert_eq!(resolve_shift_reduce(Some(1), Some(1), Assoc::Nonassoc), Resolution::Conflict);
}

#[test]
fn missing_precedence_reports_a_conflict() {
    // the dangling-else shape: without precedence the shift/reduce clash on
    // the inner alternative is reported; stamping both sides resolves it
    assert_eq!(resolve_shift_reduce(None, None, Assoc::Nonassoc), Resolution::Conflict);
    assert_eq!(resolve_shift_reduce(Some(1), None, Assoc::Left), Resolution::Conflict);
    assert_eq!(resolve_shift_reduce(None, Some(1), Assoc::Left), Resolution::Conflict);
    assert_eq!(resolve_shift_reduce(Some(1), Some(0), Assoc::Left), Resolution::Shift);
}
