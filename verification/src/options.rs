//! The options of the engine.

use vstd::prelude::*;

verus! {

/// Options of the algorithm.
#[derive(Clone, Copy, PartialEq, Eq, Structural, Debug)]
pub struct IC3Options {
    /// Shrink cubes with the help of counterexamples to generalization.
    pub ctg: bool,
    /// How many nested blocking attempts one counterexample may take.
    pub ctg_limit: usize,
    /// How many counterexamples in a row may be blocked.
    pub ctg_max: usize,
    /// How many clauses to derive from one cube.
    pub multi_clauses: usize,
    /// Choose the effort by the activity of obligations.
    pub dynamic: bool,
    /// Choose the effort by a contextual bandit.
    pub enable_ctx_mab: bool,
    /// Order the literals of a cube by topology and activity mixed.
    pub hybrid_sort: bool,
    /// Order the literals of a cube by their codes.
    pub topo_sort: bool,
    /// Reverse the order of the literals.
    pub reverse_sort: bool,
    /// Work on internal signals too.
    pub inn: bool,
    /// Start without the constraints, and add those that a counterexample violates.
    pub abs_cst: bool,
    /// Exclude counterexamples to propagation.
    pub ctp: bool,
    /// Do not look one step ahead of the bad states.
    pub no_pred_prop: bool,
}

/// Options of a run.
#[derive(Clone, Copy, PartialEq, Eq, Structural, Debug)]
pub struct Options {
    /// Options of the algorithm.
    pub ic3: IC3Options,
    /// The seed of the random words.
    pub rseed: u64,
}

} // verus!
