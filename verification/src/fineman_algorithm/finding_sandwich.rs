use vstd::prelude::*;

verus! {

/// What the sandwich search reports: a negative sandwich `(x, U, y)`, or a set of
/// vertices no two of which are related by a negative one-hop walk.
pub enum Outcome {
    Sandwich((usize, Vec<usize>, usize)),
    IndependentSet(Vec<usize>),
}

} // verus!
