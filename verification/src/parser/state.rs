//! The shift/reduce decision rule applied when the automaton's reductions are
//! enumerated: precedence and associativity resolve a conflict between a
//! shift and a reduction, and anything they cannot resolve is reported.
use vstd::prelude::*;
use crate::grammar::Assoc;

verus! {

/// The outcome of weighing a shift against a reduction on one lookahead.
#[derive(Clone, Copy, PartialEq, Eq, Structural, Debug)]
pub enum Resolution {
    Shift,
    Reduce,
    Conflict,
}

/// Resolves a shift/reduce conflict from the two sides' precedence levels and
/// the reducing production's associativity: with both precedences present,
/// the higher side wins; at equal precedence, left associativity reduces,
/// right associativity shifts, and no associativity is a reported conflict.
/// A side without a precedence leaves the conflict unresolved.
pub fn resolve_shift_reduce(shift_prec: Option<u16>, reduce_prec: Option<u16>, assoc: Assoc)
    -> (r: Resolution)
    ensures
        r == match (shift_prec, reduce_prec) {
            (Some(s), Some(p)) => if s > p {
                Resolution::Shift
            } else if p > s {
                Resolution::Reduce
            } else {
                match assoc {
                    Assoc::Left => Resolution::Reduce,
                    Assoc::Right => Resolution::Shift,
                    Assoc::Nonassoc => Resolution::Conflict,
                }
            },
            _ => Resolution::Conflict,
        },
{
    match (shift_prec, reduce_prec) {
        (Some(s), Some(p)) => {
            if s > p {
                Resolution::Shift
            } else if p > s {
                Resolution::Reduce
            } else {
                match assoc {
                    Assoc::Left => Resolution::Reduce,
                    Assoc::Right => Resolution::Shift,
                    Assoc::Nonassoc => Resolution::Conflict,
                }
            }
        },
        _ => Resolution::Conflict,
    }
}

} // verus!
