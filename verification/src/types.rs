use vstd::prelude::*;

verus! {

/// The type of a value: a 32-bit integer, or not yet known (a numbered
/// unknown, bound later by inference).
#[derive(Debug, PartialEq, Eq, Clone, Copy, Structural)]
pub enum Type {
    I32,
    Unbound(usize),
}

} // verus!
