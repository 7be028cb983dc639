//! Shrinking a cube with the models that a solver holds against it.
//!
//! For each procedure a `.._run` function reads off a log, from the event at `at` on, what the
//! procedure makes of the answers in it: the outcome, and where the next event of the caller
//! stands. It is `None` where the log does not hold the requests that the procedure makes.

use vstd::prelude::*;

use crate::collections::{is_member, members, NumberSet};
use crate::fault::Fault;
use crate::lit::{copy_lits, cubes, subsume, subsumes, Lit};
use crate::session::{asked, extends, yes, Call, Event, Reasoner, Session, Tally};

verus! {

/// The literals of an outcome.
pub open spec fn shrunk(r: Result<Option<Vec<Lit>>, Fault>) -> Result<Option<Seq<Lit>>, Fault> {
    match r {
        Ok(Some(c)) => Ok(Some(c@)),
        Ok(None) => Ok(None),
        Err(f) => Err(f),
    }
}

/// Whether one of the counterexamples, pairs of a state and its successor, is such that the cube
/// admits the step between the two: the successor is in the cube, and the state is not.
pub open spec fn admits(cube: Seq<Lit>, cex: Seq<(Seq<Lit>, Seq<Lit>)>) -> bool {
    exists|i: int|
        0 <= i < cex.len() && !subsumes(cube, (#[trigger] cex[i]).0) && subsumes(cube, cex[i].1)
}

/// Keeps of the literals from `k` on those that hold in the model of the solver and that the
/// model rests on, or that are in `keep`. Says in the second place whether a literal of `keep`
/// was found not to hold, after which no more are tried.
pub open spec fn shrink_run(
    log: Seq<Event>,
    at: int,
    solver: usize,
    keep: Set<u32>,
    cube: Seq<Lit>,
    k: int,
    kept: Seq<Lit>,
) -> Option<(Seq<Lit>, bool, int)>
    decreases cube.len() - k,
{
    if k >= cube.len() {
        Some((kept, false, at))
    } else if !asked(log, at, Call::SatValue { solver, lit: cube[k] }) {
        None
    } else {
        let holds = log[at].reply->Value_0 == Some(true);
        if keep.contains(cube[k].0) {
            if holds {
                shrink_run(log, at + 1, solver, keep, cube, k + 1, kept.push(cube[k]))
            } else {
                Some((kept, true, at + 1))
            }
        } else if holds {
            if !asked(log, at + 1, Call::FlipToNone { solver, var: cube[k].var_spec() }) {
                None
            } else if yes(log, at + 1) {
                shrink_run(log, at + 2, solver, keep, cube, k + 1, kept)
            } else {
                shrink_run(log, at + 2, solver, keep, cube, k + 1, kept.push(cube[k]))
            }
        } else {
            shrink_run(log, at + 1, solver, keep, cube, k + 1, kept)
        }
    }
}

/// Reads a step off the model of the solver: the state before it, as far as the model rests on
/// it, and the state after it, both over the variables of `full` from `k` on.
pub open spec fn step_run(
    log: Seq<Event>,
    at: int,
    solver: usize,
    full: Seq<Lit>,
    k: int,
    before: Seq<Lit>,
    after: Seq<Lit>,
) -> Option<(Seq<Lit>, Seq<Lit>, int)>
    decreases full.len() - k,
{
    if k >= full.len() {
        Some((before, after, at))
    } else if !asked(log, at, Call::SatValue { solver, lit: full[k] }) {
        None
    } else {
        let l = full[k];
        let (seen, before2, at2) = match log[at].reply->Value_0 {
            Some(v) => (
                asked(log, at + 1, Call::FlipToNone { solver, var: l.var_spec() }),
                if yes(log, at + 1) {
                    before
                } else {
                    before.push(l.negation_if(!v))
                },
                at + 2,
            ),
            None => (true, before, at + 1),
        };
        if !seen || !asked(log, at2, Call::Next { lit: l }) {
            None
        } else {
            let primed = log[at2].reply->Literal_0;
            if !asked(log, at2 + 1, Call::SatValue { solver, lit: primed }) {
                None
            } else {
                let after2 = match log[at2 + 1].reply->Value_0 {
                    Some(v) => after.push(l.negation_if(!v)),
                    None => after,
                };
                step_run(log, at2 + 2, solver, full, k + 1, before2, after2)
            }
        }
    }
}

/// Shrinks a cube until it is blocked, by taking out what the models of the solver do not need.
/// Gives up where the cube meets the initial states, admits a step seen before, or would lose a
/// literal of `keep`. The outcome also has the steps that were seen: those that were known, and one
/// more for each model.
#[verifier::opaque]
pub open spec fn down_loop(
    log: Seq<Event>,
    at: int,
    frame: usize,
    cube: Seq<Lit>,
    keep: Set<u32>,
    full: Seq<Lit>,
    constraint: Seq<Seq<Lit>>,
    cex: Seq<(Seq<Lit>, Seq<Lit>)>,
) -> Option<(Result<Option<Seq<Lit>>, Fault>, Seq<(Seq<Lit>, Seq<Lit>)>, int)>
    decreases log.len() - at,
{
    let solver = (frame - 1) as usize;
    if !asked(log, at, Call::CubeSubsumeInit { cube }) {
        None
    } else if yes(log, at) || admits(cube, cex) {
        Some((Ok(None), cex, at + 1))
    } else if !asked(log, at + 1, Call::Count { tally: Tally::DownSat }) || !asked(
        log,
        at + 2,
        Call::BlockedUnder { frame, cube, strengthen: true, constraint },
    ) {
        None
    } else if yes(log, at + 2) {
        if asked(log, at + 3, Call::InductiveCore { solver }) {
            Some((Ok(Some(log[at + 3].reply->Cube_0)), cex, at + 4))
        } else {
            None
        }
    } else {
        match shrink_run(log, at + 3, solver, keep, cube, 0, seq![]) {
            None => None,
            Some((rest, lost, at2)) => match step_run(log, at2, solver, full, 0, seq![], seq![]) {
                None => None,
                Some((before, after, at3)) => if lost {
                    Some((Ok(None), cex.push((before, after)), at3))
                } else if rest.len() == cube.len() {
                    Some((Err(Fault::NoProgress), cex.push((before, after)), at3))
                } else if at < at3 <= log.len() {
                    down_loop(
                        log,
                        at3,
                        frame,
                        rest,
                        keep,
                        full,
                        constraint,
                        cex.push((before, after)),
                    )
                } else {
                    None
                },
            },
        }
    }
}

/// The whole of an attempt to shrink a cube, with some steps known: it is counted, and then goes as
/// [`down_loop`] says.
#[verifier::opaque]
pub open spec fn descend_run(
    log: Seq<Event>,
    at: int,
    frame: usize,
    cube: Seq<Lit>,
    keep: Set<u32>,
    full: Seq<Lit>,
    constraint: Seq<Seq<Lit>>,
    cex: Seq<(Seq<Lit>, Seq<Lit>)>,
) -> Option<(Result<Option<Seq<Lit>>, Fault>, Seq<(Seq<Lit>, Seq<Lit>)>, int)> {
    if !asked(log, at, Call::Count { tally: Tally::Down }) {
        None
    } else {
        down_loop(log, at + 1, frame, cube, keep, full, constraint, cex)
    }
}

/// The same with no step known, and none to be known after it.
#[verifier::opaque]
pub open spec fn down_run(
    log: Seq<Event>,
    at: int,
    frame: usize,
    cube: Seq<Lit>,
    keep: Set<u32>,
    full: Seq<Lit>,
    constraint: Seq<Seq<Lit>>,
) -> Option<(Result<Option<Seq<Lit>>, Fault>, int)> {
    match descend_run(log, at, frame, cube, keep, full, constraint, seq![]) {
        None => None,
        Some((r, _, at2)) => Some((r, at2)),
    }
}

/// A counterexample that was seen: a state and its successor.
pub struct Step {
    pub before: Vec<Lit>,
    pub after: Vec<Lit>,
}

/// The pairs of states that a vector of counterexamples holds.
pub open spec fn steps(v: Seq<Step>) -> Seq<(Seq<Lit>, Seq<Lit>)> {
    Seq::new(v.len(), |i: int| (v[i].before@, v[i].after@))
}

/// Whether the cube admits one of the steps.
fn admits_one(cube: &Vec<Lit>, cex: &Vec<Step>) -> (r: bool)
    ensures
        r == admits(cube@, steps(cex@)),
{
    let mut i: usize = 0;
    while i < cex.len()
        invariant
            i <= cex.len(),
            forall|j: int|
                0 <= j < i ==> !(!subsumes(cube@, (#[trigger] steps(cex@)[j]).0) && subsumes(
                    cube@,
                    steps(cex@)[j].1,
                )),
        decreases cex.len() - i,
    {
        if !subsume(cube, &cex[i].before) && subsume(cube, &cex[i].after) {
            assert(steps(cex@)[i as int] == (cex@[i as int].before@, cex@[i as int].after@));
            return true;
        }
        i = i + 1;
    }
    false
}

impl<R: Reasoner> Session<R> {
    /// Keeps of a cube the literals that the model of a solver needs; see [`shrink_run`].
    fn shrink(&mut self, solver: usize, keep: &NumberSet, cube: &Vec<Lit>) -> (r: (
        Vec<Lit>,
        bool,
    ))
        ensures
            final(self).asks(*old(self)),
            forall|l: Seq<Event>|
                extends(l, final(self).log()) ==> #[trigger] shrink_run(
                    l,
                    old(self).log().len() as int,
                    solver,
                    members(*keep),
                    cube@,
                    0,
                    seq![],
                ) == Some((r.0@, r.1, final(self).log().len() as int)),
            r.0.len() <= cube.len(),
    {
        let ghost start = self.log().len() as int;
        let mut kept: Vec<Lit> = Vec::new();
        let mut k: usize = 0;
        while k < cube.len()
            invariant
                k <= cube.len(),
                kept.len() <= k,
                self.asks(*old(self)),
                start == old(self).log().len(),
                forall|l: Seq<Event>|
                    extends(l, self.log()) ==> #[trigger] shrink_run(
                        l,
                        start,
                        solver,
                        members(*keep),
                        cube@,
                        0,
                        seq![],
                    ) == shrink_run(
                        l,
                        self.log().len() as int,
                        solver,
                        members(*keep),
                        cube@,
                        k as int,
                        kept@,
                    ),
            decreases cube.len() - k,
        {
            let lit: Lit = cube[k];
            let holds: bool = match self.sat_value(solver, lit) {
                Some(v) => v,
                None => false,
            };
            if is_member(keep, lit.0) {
                if holds {
                    kept.push(lit);
                } else {
                    return (kept, true);
                }
            } else if holds {
                if !self.flip_to_none(solver, lit.var()) {
                    kept.push(lit);
                }
            }
            k = k + 1;
        }
        (kept, false)
    }

    /// Reads a step off the model of a solver; see [`step_run`].
    fn read_step(&mut self, solver: usize, full: &Vec<Lit>) -> (r: Step)
        ensures
            final(self).asks(*old(self)),
            forall|l: Seq<Event>|
                extends(l, final(self).log()) ==> #[trigger] step_run(
                    l,
                    old(self).log().len() as int,
                    solver,
                    full@,
                    0,
                    seq![],
                    seq![],
                ) == Some((r.before@, r.after@, final(self).log().len() as int)),
    {
        let ghost start = self.log().len() as int;
        let mut before: Vec<Lit> = Vec::new();
        let mut after: Vec<Lit> = Vec::new();
        let mut k: usize = 0;
        while k < full.len()
            invariant
                k <= full.len(),
                self.asks(*old(self)),
                start == old(self).log().len(),
                forall|l: Seq<Event>|
                    extends(l, self.log()) ==> #[trigger] step_run(
                        l,
                        start,
                        solver,
                        full@,
                        0,
                        seq![],
                        seq![],
                    ) == step_run(
                        l,
                        self.log().len() as int,
                        solver,
                        full@,
                        k as int,
                        before@,
                        after@,
                    ),
            decreases full.len() - k,
        {
            let lit: Lit = full[k];
            if let Some(v) = self.sat_value(solver, lit) {
                if !self.flip_to_none(solver, lit.var()) {
                    before.push(lit.not_if(!v));
                }
            }
            let primed: Lit = self.next(lit);
            if let Some(v) = self.sat_value(solver, primed) {
                after.push(lit.not_if(!v));
            }
            k = k + 1;
        }
        Step { before, after }
    }

    /// Shrinks a cube until it is blocked; see [`descend_run`]. The steps that are
    /// known go into `cex`, and those that are seen are added to them.
    pub fn down(
        &mut self,
        frame: usize,
        cube: &Vec<Lit>,
        keep: &NumberSet,
        full: &Vec<Lit>,
        constraint: &Vec<Vec<Lit>>,
        cex: &mut Vec<Step>,
    ) -> (r: Result<Option<Vec<Lit>>, Fault>)
        requires
            frame > 0,
        ensures
            final(self).asks(*old(self)),
            old(self).log().len() < final(self).log().len(),
            forall|l: Seq<Event>|
                extends(l, final(self).log()) ==> #[trigger] descend_run(
                    l,
                    old(self).log().len() as int,
                    frame,
                    cube@,
                    members(*keep),
                    full@,
                    cubes(constraint@),
                    steps(old(cex)@),
                ) == Some((shrunk(r), steps(final(cex)@), final(self).log().len() as int)),
    {
        proof {
            reveal(descend_run);
        }
        let ghost start = self.log().len() as int;
        let ghost kept = members(*keep);
        let solver: usize = frame - 1;
        let mut rest: Vec<Lit> = copy_lits(cube);
        self.tally(Tally::Down);
        loop
            invariant
                frame > 0,
                solver == frame - 1,
                start == old(self).log().len(),
                start < self.log().len(),
                kept == members(*keep),
                self.asks(*old(self)),
                forall|l: Seq<Event>|
                    extends(l, self.log()) ==> #[trigger] descend_run(
                        l,
                        start,
                        frame,
                        cube@,
                        kept,
                        full@,
                        cubes(constraint@),
                        steps(old(cex)@),
                    ) == down_loop(
                        l,
                        self.log().len() as int,
                        frame,
                        rest@,
                        kept,
                        full@,
                        cubes(constraint@),
                        steps(cex@),
                    ),
            decreases rest.len(),
        {
            proof {
                reveal(down_loop);
            }
            if self.cube_subsume_init(&rest) {
                return Ok(None);
            }
            if admits_one(&rest, cex) {
                return Ok(None);
            }
            self.tally(Tally::DownSat);
            if self.blocked_with_ordered_with_constrain(frame, &rest, true, constraint) {
                return Ok(Some(self.inductive_core(solver)));
            }
            let (needed, lost) = self.shrink(solver, keep, &rest);
            let step: Step = self.read_step(solver, full);
            let ghost seen = steps(cex@);
            let ghost one = (step.before@, step.after@);
            cex.push(step);
            proof {
                assert(steps(cex@) =~= seen.push(one));
            }
            if lost {
                return Ok(None);
            }
            if needed.len() == rest.len() {
                return Err(Fault::NoProgress);
            }
            rest = needed;
        }
    }
}

} // verus!
