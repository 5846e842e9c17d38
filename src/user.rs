use vstd::prelude::*;
use crate::iterative::explicit_dynamic_programming;
use crate::optimal::{Output, empty_board, table_closed, table_complete, table_sound, total};
use crate::recursive::{naive, with_cache};

verus! {

/// The ways of computing the decision table.
#[derive(Clone, Copy, PartialEq, Eq, Debug, Structural)]
pub enum PrecomputeAlgorithm {
    NaiveBruteForceRecursion,
    ExplicitDynamicProgramming,
    ImplicitDynamicProgramming,
}

/// The options of a run: how to compute the tables, and whether to skip the game after.
#[derive(Clone, Copy, PartialEq, Eq, Debug, Structural)]
pub struct Cli {
    pub precompute_algorithm: PrecomputeAlgorithm,
    pub skip_game: bool,
}

/// Computes the tables for dice with `base - 1` faces with the chosen algorithm.
pub fn precompute(algorithm: PrecomputeAlgorithm, base: usize) -> (r: Output)
    requires
        2 <= base <= 7,
    ensures
        table_sound(r.scores@, r.moves@, base as nat),
        table_closed(r.scores@, r.moves@, base as nat),
        table_complete(r.scores@, base as nat),
        r.scores@[0] matches Some(x) && x == total(empty_board(), base as nat, 9),
{
    match algorithm {
        PrecomputeAlgorithm::NaiveBruteForceRecursion => naive(base),
        PrecomputeAlgorithm::ExplicitDynamicProgramming => explicit_dynamic_programming(base),
        PrecomputeAlgorithm::ImplicitDynamicProgramming => with_cache(base),
    }
}

} // verus!
