//! Proof obligations and the lemmas of frames.

use vstd::prelude::*;

use crate::lit::Lit;
use crate::lit::cubes;

verus! {

/// A cube that has to be excluded from a frame.
pub struct Obligation {
    /// The frame.
    pub frame: usize,
    /// The cube, sorted by code.
    pub lemma: Vec<Lit>,
    /// The inputs of the steps that lead from the cube to the obligation `next`.
    pub input: Vec<Vec<Lit>>,
    /// The number of obligations between this one and the bad state.
    pub depth: usize,
    /// The obligation that a step from the cube leads to, by its number.
    pub next: Option<usize>,
}

/// What an obligation says.
pub struct ObligationView {
    pub frame: usize,
    pub lemma: Seq<Lit>,
    pub input: Seq<Seq<Lit>>,
    pub depth: usize,
    pub next: Option<usize>,
}

impl View for Obligation {
    type V = ObligationView;

    open spec fn view(&self) -> ObligationView {
        ObligationView {
            frame: self.frame,
            lemma: self.lemma@,
            input: cubes(self.input@),
            depth: self.depth,
            next: self.next,
        }
    }
}

/// A lemma of a frame: the cube that it excludes, and the obligation it was made for.
pub struct FrameLemma {
    pub cube: Vec<Lit>,
    pub po: Option<usize>,
}

/// What a lemma of a frame says.
pub struct FrameLemmaView {
    pub cube: Seq<Lit>,
    pub po: Option<usize>,
}

impl View for FrameLemma {
    type V = FrameLemmaView;

    open spec fn view(&self) -> FrameLemmaView {
        FrameLemmaView { cube: self.cube@, po: self.po }
    }
}

/// What the lemmas of a vector say.
pub open spec fn lemma_views(v: Seq<FrameLemma>) -> Seq<FrameLemmaView> {
    Seq::new(v.len(), |i: int| v[i]@)
}

} // verus!
