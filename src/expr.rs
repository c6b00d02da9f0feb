//! Boolean expressions over atomic build-time selection queries.
use vstd::prelude::*;

verus! {

/// A boolean expression whose atoms are opaque query strings.
#[derive(Debug, PartialEq, Eq)]
pub enum BoolExpr {
    True,
    False,
    Single(String),
    Or(Vec<BoolExpr>),
    And(Vec<BoolExpr>),
}

} // verus!
