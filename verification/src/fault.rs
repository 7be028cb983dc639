//! Answers with which the engine cannot go on.
//!
//! Where all answers are true, a search meets none of them, but that there may be too many frames;
//! see [`law_no_fault`](crate::queue_laws::law_no_fault).

use vstd::prelude::*;

verus! {

/// Why the engine cannot go on with an answer that it was given.
#[derive(Clone, Copy, PartialEq, Eq, Structural, Debug)]
pub enum Fault {
    /// A model that should lie outside of a cube satisfies all of it.
    NoProgress,
    /// The core of a cube names a literal that the cube had lost.
    StrangeCore,
    /// There is no obligation with the number that was given.
    UnknownObligation,
    /// An obligation stands at the first frame or beyond the last where neither can be.
    FrameOutOfRange,
    /// A constraint that is in force already is reported as missing.
    KnownConstraint,
    /// A cube that no initial state lies in is reported to hold initially.
    InitialState,
    /// An obligation that contains an initial state stands at a later frame.
    LateInitialState,
    /// No obligation is left that a counterexample could start from.
    NoObligation,
    /// There are as many frames as there are numbers for them.
    TooManyFrames,
}

} // verus!
