//! Blocking: working off the obligations.

use vstd::prelude::*;

use crate::effort::{strategy_run, tosses};
use crate::engine::IC3;
use crate::fault::Fault;
use crate::heuristic::{reward_of, reward_terms};
use crate::lit::{copy_lits, cubes, has_lit, sort_lits, sorted, Lit};
use crate::mic::{outcome, push_run};
use crate::multi::mic_run;
use crate::obligation::{Obligation, ObligationView};
use crate::session::{asked, extends, yes, Call, Event, Reasoner, Tally};
use crate::state::{lemma_wf, linked, StateView};

verus! {

/// Adds the lemma of a blocked obligation that initial values alone do not exclude: the cube as
/// it is, at the frame of the obligation, which moves on by one.
pub open spec fn generalize_whole_run(log: Seq<Event>, at: int, s: StateView, id: usize) -> Option<
    (Result<bool, Fault>, StateView, int),
> {
    let po = s.obligations[id as int];
    let next = (po.frame + 1) as usize;
    if asked(log, at, Call::AddObligation { id, po: s.at_frame(id, next) }) && asked(
        log,
        at + 1,
        Call::AddLemma {
            frame: po.frame,
            cube: po.lemma,
            contained_check: false,
            owner: Some(id),
        },
    ) {
        Some((Ok(yes(log, at + 1)), s.moved(id, next), at + 2))
    } else {
        None
    }
}

/// Rewards the arm that was used, where arms are in use.
pub open spec fn reward_run(
    log: Seq<Event>,
    at: int,
    s: StateView,
    id: usize,
    arm: usize,
    length: nat,
    shortened: nat,
    reached: usize,
) -> Option<int> {
    let po = s.obligations[id as int];
    if !s.options.ic3.enable_ctx_mab {
        Some(at)
    } else if asked(log, at, Call::ObserveContext { id, po, level: s.level() }) && asked(
        log,
        at + 1,
        Call::Reward {
            arm,
            terms: reward_of(
                length as usize,
                shortened as usize,
                po.frame,
                reached,
                s.level(),
            ),
        },
    ) {
        Some(at + 2)
    } else {
        None
    }
}

/// Moves a blocked obligation to the frame that its lemma did not reach, and adds the lemma to
/// the frame before that.
pub open spec fn conclude_run(
    log: Seq<Event>,
    at: int,
    s: StateView,
    id: usize,
    reached: usize,
    cube: Seq<Lit>,
) -> Option<(Result<bool, Fault>, StateView, int)> {
    let po = s.obligations[id as int];
    if asked(log, at, Call::Count { tally: Tally::PoCubeLen(po.lemma.len() as usize) }) && asked(
        log,
        at + 1,
        Call::PushTo { id, from: po.frame, to: reached },
    ) && asked(log, at + 2, Call::AddObligation { id, po: s.at_frame(id, reached) }) && asked(
        log,
        at + 3,
        Call::AddLemma {
            frame: (reached - 1) as usize,
            cube,
            contained_check: false,
            owner: Some(id),
        },
    ) {
        Some((Ok(yes(log, at + 3)), s.moved(id, reached), at + 4))
    } else {
        None
    }
}

/// Generalizes the core of a blocked obligation, pushes it, and adds it as a lemma.
pub open spec fn generalize_core_run(
    log: Seq<Event>,
    at: int,
    s: StateView,
    id: usize,
) -> Option<(Result<bool, Fault>, StateView, int)> {
    let po = s.obligations[id as int];
    if !asked(log, at, Call::InductiveCore { solver: (po.frame - 1) as usize }) {
        None
    } else {
        let core = log[at].reply->Cube_0;
        match strategy_run(log, at + 1, s, id) {
            None => None,
            Some((arm, mic_type, s2, at2)) => match mic_run(
                log,
                at2,
                s.setting(),
                s.options.ic3.inn,
                po.frame,
                core,
                seq![],
                mic_type,
            ) {
                None => None,
                Some((Err(f), at3)) => Some((Err(f), s2, at3)),
                Some((Ok(mic), at3)) => match push_run(
                    log,
                    at3,
                    s.level(),
                    po.frame + 1,
                    mic,
                ) {
                    None => None,
                    Some((reached, pushed, at4)) => match reward_run(
                        log,
                        at4,
                        s2,
                        id,
                        arm,
                        core.len(),
                        mic.len(),
                        reached as usize,
                    ) {
                        None => None,
                        Some(at5) => conclude_run(log, at5, s2, id, reached as usize, pushed),
                    },
                },
            },
        }
    }
}

/// Generalizes a blocked obligation into a lemma. The outcome says whether two neighbouring
/// frames have become equal.
#[verifier::opaque]
pub open spec fn generalize_run(log: Seq<Event>, at: int, s: StateView, id: usize) -> Option<
    (Result<bool, Fault>, StateView, int),
> {
    let po = s.obligations[id as int];
    if !s.options.ic3.inn {
        generalize_core_run(log, at, s, id)
    } else if !asked(log, at, Call::CubeSubsumeInit { cube: po.lemma }) {
        None
    } else if yes(log, at) {
        generalize_whole_run(log, at + 1, s, id)
    } else {
        generalize_core_run(log, at + 1, s, id)
    }
}

/// What working on one obligation led to.
#[derive(Clone, Copy, PartialEq, Eq, Structural, Debug)]
pub enum Turn {
    /// There was none.
    Drained,
    /// It contains an initial state: a bad state can be reached.
    Reached,
    /// Two neighbouring frames are equal: no bad state can be reached.
    Proved,
    /// None of these.
    More,
}

/// The turn after a lemma was added.
pub open spec fn turn_of(equal: bool) -> Turn {
    if equal {
        Turn::Proved
    } else {
        Turn::More
    }
}

/// Whether none of some constraints is in force yet, nor occurs twice.
pub open spec fn all_new(known: Seq<Lit>, more: Seq<Lit>) -> bool {
    forall|i: int|
        0 <= i < more.len() ==> !(known + more.take(i)).contains(#[trigger] more[i])
}

/// Checks the counterexample that starts from an obligation under the constraints that were left
/// out, and puts those that it violates into force.
pub open spec fn refine_run(log: Seq<Event>, at: int, s: StateView, id: usize) -> Option<
    (Result<Turn, Fault>, StateView, int),
> {
    if !asked(log, at, Call::AddObligation { id, po: s.obligations[id as int] }) || !asked(
        log,
        at + 1,
        Call::CheckWitnessByBmc { id },
    ) {
        None
    } else {
        match log[at + 1].reply->MaybeCube_0 {
            None => Some((Ok(Turn::Reached), s, at + 2)),
            Some(more) => if !all_new(s.abs_cst, more) {
                Some((Err(Fault::KnownConstraint), s, at + 2))
            } else if asked(log, at + 2, Call::ClearObligations) && asked(
                log,
                at + 3,
                Call::ForgetObligations,
            ) {
                Some((Ok(Turn::More), StateView { abs_cst: s.abs_cst + more, ..s }, at + 4))
            } else {
                None
            },
        }
    }
}

/// The obligation to exclude a predecessor of the cube of another.
pub open spec fn predecessor(s: StateView, id: usize, model: Seq<Lit>, inputs: Seq<Lit>) ->
    ObligationView {
    let po = s.obligations[id as int];
    ObligationView {
        frame: (po.frame - 1) as usize,
        lemma: sorted(model),
        input: seq![inputs],
        depth: (po.depth + 1) as usize,
        next: Some(id),
    }
}

/// Tries to block an obligation, and turns to a predecessor where that fails.
pub open spec fn attempt_run(log: Seq<Event>, at: int, s: StateView, id: usize) -> Option<
    (Result<Turn, Fault>, StateView, int),
> {
    let po = s.obligations[id as int];
    if !asked(log, at, Call::TrivialContained { frame: po.frame, cube: po.lemma }) {
        None
    } else if let Some(frame) = log[at].reply->Index_0 {
        let next = (frame + 1) as usize;
        if frame == usize::MAX {
            Some((Err(Fault::FrameOutOfRange), s, at + 1))
        } else if asked(log, at + 1, Call::PushTo { id, from: po.frame, to: next }) && asked(
            log,
            at + 2,
            Call::AddObligation { id, po: s.at_frame(id, next) },
        ) {
            Some((Ok(Turn::More), s.moved(id, next), at + 3))
        } else {
            None
        }
    } else if !asked(log, at + 1, Call::BumpAct { id }) {
        None
    } else if !(0 < po.frame <= s.level()) {
        Some((Err(Fault::FrameOutOfRange), s, at + 2))
    } else if !asked(
        log,
        at + 2,
        Call::Blocked { frame: po.frame, cube: po.lemma, strengthen: false },
    ) {
        None
    } else if yes(log, at + 2) {
        match generalize_run(log, at + 3, s, id) {
            None => None,
            Some((Err(f), s2, at2)) => Some((Err(f), s2, at2)),
            Some((Ok(equal), s2, at2)) => Some((Ok(turn_of(equal)), s2, at2)),
        }
    } else if !asked(log, at + 3, Call::GetPred { frame: po.frame, strengthen: true }) {
        None
    } else {
        let new = predecessor(s, id, log[at + 3].reply->Pred_0, log[at + 3].reply->Pred_1);
        if asked(
            log,
            at + 4,
            Call::AddObligation { id: s.obligations.len() as usize, po: new },
        ) && asked(log, at + 5, Call::AddObligation { id, po }) {
            Some((Ok(Turn::More), s.with_obligation(new), at + 6))
        } else {
            None
        }
    }
}

/// Works on the next obligation.
pub open spec fn turn_run(log: Seq<Event>, at: int, s: StateView) -> Option<
    (Result<Turn, Fault>, StateView, int),
> {
    if !asked(log, at, Call::PopObligation { level: s.level() }) {
        None
    } else {
        match log[at].reply->Index_0 {
            None => Some((Ok(Turn::Drained), s, at + 1)),
            Some(id) => {
                let po = s.obligations[id as int];
                if id >= s.obligations.len() {
                    Some((Err(Fault::UnknownObligation), s, at + 1))
                } else if !asked(log, at + 1, Call::IsRemoved { id }) {
                    None
                } else if yes(log, at + 1) {
                    Some((Ok(Turn::More), s, at + 2))
                } else if !asked(log, at + 2, Call::CubeSubsumeInit { cube: po.lemma }) {
                    None
                } else if !yes(log, at + 2) {
                    attempt_run(log, at + 3, s, id)
                } else if s.options.ic3.abs_cst {
                    refine_run(log, at + 3, s, id)
                } else if s.options.ic3.inn && po.frame > 0 {
                    if !asked(log, at + 3, Call::Solve { solver: 0, cube: po.lemma }) {
                        None
                    } else if yes(log, at + 3) {
                        Some((Err(Fault::InitialState), s, at + 4))
                    } else {
                        attempt_run(log, at + 4, s, id)
                    }
                } else if !asked(log, at + 3, Call::AddObligation { id, po }) {
                    None
                } else if po.frame == 0 {
                    Some((Ok(Turn::Reached), s, at + 4))
                } else {
                    Some((Err(Fault::LateInitialState), s, at + 4))
                }
            },
        }
    }
}

/// Works on obligations until none is left or the question is settled, `rounds` at most. The
/// outcome also tells how many rounds are left.
#[verifier::opaque]
pub open spec fn block_run(log: Seq<Event>, at: int, s: StateView, rounds: u64) -> Option<
    (Result<Turn, Fault>, StateView, u64, int),
>
    decreases rounds,
{
    if rounds == 0 {
        Some((Ok(Turn::More), s, 0, at))
    } else {
        let left = (rounds - 1) as u64;
        match turn_run(log, at, s) {
            None => None,
            Some((Err(f), s2, at2)) => Some((Err(f), s2, left, at2)),
            Some((Ok(turn), s2, at2)) => if turn == Turn::More {
                block_run(log, at2, s2, left)
            } else {
                Some((Ok(turn), s2, left, at2))
            },
        }
    }
}

/// Whether none of some constraints is in force yet, nor occurs twice.
pub fn are_new(known: &Vec<Lit>, more: &Vec<Lit>) -> (r: bool)
    ensures
        r == all_new(known@, more@),
{
    let mut seen: Vec<Lit> = copy_lits(known);
    let mut i: usize = 0;
    assert(seen@ =~= known@ + more@.take(0));
    while i < more.len()
        invariant
            i <= more.len(),
            seen@ == known@ + more@.take(i as int),
            forall|j: int| 0 <= j < i ==> !(known@ + more@.take(j)).contains(#[trigger] more@[j]),
        decreases more.len() - i,
    {
        if has_lit(&seen, more[i]) {
            assert((known@ + more@.take(i as int)).contains(more@[i as int]));
            return false;
        }
        seen.push(more[i]);
        i = i + 1;
        assert(seen@ =~= known@ + more@.take(i as int));
    }
    true
}

impl<R: Reasoner> IC3<R> {
    /// Adds the cube of an obligation as it is; see [`generalize_whole_run`].
    fn generalize_whole(&mut self, id: usize) -> (r: Result<bool, Fault>)
        requires
            old(self).state@.wf(),
            id < old(self).state@.obligations.len(),
            old(self).state@.obligations[id as int].frame < old(self).state@.solvers,
        ensures
            final(self).state@.wf(),
            final(self).state@.solvers == old(self).state@.solvers,
            final(self).state@.options == old(self).state@.options,
            final(self).session.asks(old(self).session),
            forall|l: Seq<Event>|
                extends(l, final(self).session.log()) ==> #[trigger] generalize_whole_run(
                    l,
                    old(self).session.log().len() as int,
                    old(self).state@,
                    id,
                ) == Some((r, final(self).state@, final(self).session.log().len() as int)),
    {
        proof {
            lemma_wf(self.state@);
        }
        let frame: usize = self.state.obligation(id).frame;
        self.state.relocate(id, frame + 1);
        self.session.add_obligation(id, self.state.obligation(id));
        let equal: bool = self.session.add_lemma(
            frame,
            &self.state.obligation(id).lemma,
            false,
            Some(id),
        );
        Ok(equal)
    }

    /// Generalizes the core of an obligation; see [`generalize_core_run`].
    #[verifier::rlimit(80)]
    fn generalize_core(&mut self, id: usize) -> (r: Result<bool, Fault>)
        requires
            old(self).state@.wf(),
            id < old(self).state@.obligations.len(),
            0 < old(self).state@.obligations[id as int].frame < old(self).state@.solvers,
        ensures
            final(self).state@.wf(),
            final(self).state@.solvers == old(self).state@.solvers,
            final(self).state@.options == old(self).state@.options,
            final(self).session.continues(old(self).session),
            tosses(old(self).state@.options) || final(self).session.source()
                == old(self).session.source(),
            forall|l: Seq<Event>|
                extends(l, final(self).session.log()) ==> #[trigger] generalize_core_run(
                    l,
                    old(self).session.log().len() as int,
                    old(self).state@,
                    id,
                ) == Some((r, final(self).state@, final(self).session.log().len() as int)),
    {
        let frame: usize = self.state.obligation(id).frame;
        let level: usize = self.state.solvers - 1;
        let core: Vec<Lit> = self.session.inductive_core(frame - 1);
        let length: usize = core.len();
        let (arm, mic_type) = self.strategy(id);
        let none: Vec<Vec<Lit>> = Vec::new();
        assert(cubes(none@) =~= seq![]);
        let mic: Vec<Lit> = match self.session.mic(
            self.state.setting(),
            self.state.options.ic3.inn,
            frame,
            core,
            &none,
            mic_type,
        ) {
            Ok(c) => c,
            Err(f) => {
                return Err(f);
            },
        };
        let shortened: usize = mic.len();
        let (reached, pushed) = self.session.push_lemma(level, frame, mic);
        if self.state.options.ic3.enable_ctx_mab {
            self.session.observe_context(id, self.state.obligation(id), level);
            self.session.update_linucb(
                arm,
                reward_terms(length, shortened, frame, reached, level),
            );
        }
        self.session.tally(Tally::PoCubeLen(self.state.obligation(id).lemma.len()));
        self.session.push_to(id, frame, reached);
        proof {
            lemma_wf(self.state@);
        }
        self.state.relocate(id, reached);
        self.session.add_obligation(id, self.state.obligation(id));
        let equal: bool = self.session.add_lemma(reached - 1, &pushed, false, Some(id));
        Ok(equal)
    }

    /// Generalizes a blocked obligation into a lemma; see [`generalize_run`].
    pub fn generalize(&mut self, id: usize) -> (r: Result<bool, Fault>)
        requires
            old(self).state@.wf(),
            id < old(self).state@.obligations.len(),
            0 < old(self).state@.obligations[id as int].frame < old(self).state@.solvers,
        ensures
            final(self).state@.wf(),
            final(self).state@.solvers == old(self).state@.solvers,
            final(self).state@.options == old(self).state@.options,
            final(self).session.continues(old(self).session),
            tosses(old(self).state@.options) || final(self).session.source()
                == old(self).session.source(),
            forall|l: Seq<Event>|
                extends(l, final(self).session.log()) ==> #[trigger] generalize_run(
                    l,
                    old(self).session.log().len() as int,
                    old(self).state@,
                    id,
                ) == Some((r, final(self).state@, final(self).session.log().len() as int)),
    {
        proof {
            reveal(generalize_run);
        }
        if self.state.options.ic3.inn {
            let whole: bool = self.session.cube_subsume_init(&self.state.obligation(id).lemma);
            if whole {
                return self.generalize_whole(id);
            }
        }
        self.generalize_core(id)
    }

    /// Checks the counterexample that starts from an obligation; see [`refine_run`].
    fn refine(&mut self, id: usize) -> (r: Result<Turn, Fault>)
        requires
            old(self).state@.wf(),
            id < old(self).state@.obligations.len(),
        ensures
            final(self).state@.wf(),
            final(self).state@.solvers == old(self).state@.solvers,
            final(self).state@.options == old(self).state@.options,
            final(self).session.asks(old(self).session),
            forall|l: Seq<Event>|
                extends(l, final(self).session.log()) ==> #[trigger] refine_run(
                    l,
                    old(self).session.log().len() as int,
                    old(self).state@,
                    id,
                ) == Some((r, final(self).state@, final(self).session.log().len() as int)),
    {
        self.session.add_obligation(id, self.state.obligation(id));
        match self.session.check_witness_by_bmc(id) {
            None => Ok(Turn::Reached),
            Some(more) => {
                if !are_new(&self.state.abs_cst, &more) {
                    return Err(Fault::KnownConstraint);
                }
                self.state.enforce(&more);
                self.session.clear_obligations();
                self.session.forget_obligations();
                Ok(Turn::More)
            },
        }
    }

    /// Tries to block an obligation; see [`attempt_run`].
    fn attempt(&mut self, id: usize) -> (r: Result<Turn, Fault>)
        requires
            old(self).state@.wf(),
            old(self).state@.solvers > 0,
            id < old(self).state@.obligations.len(),
        ensures
            final(self).state@.wf(),
            final(self).state@.solvers == old(self).state@.solvers,
            final(self).state@.options == old(self).state@.options,
            final(self).session.continues(old(self).session),
            tosses(old(self).state@.options) || final(self).session.source()
                == old(self).session.source(),
            forall|l: Seq<Event>|
                extends(l, final(self).session.log()) ==> #[trigger] attempt_run(
                    l,
                    old(self).session.log().len() as int,
                    old(self).state@,
                    id,
                ) == Some((r, final(self).state@, final(self).session.log().len() as int)),
    {
        proof {
            lemma_wf(self.state@);
            assert(linked(self.state@.obligations, id as int));
        }
        let frame: usize = self.state.obligation(id).frame;
        let contained: Option<usize> = self.session.trivial_contained(
            frame,
            &self.state.obligation(id).lemma,
        );
        if let Some(at) = contained {
            if at == usize::MAX {
                return Err(Fault::FrameOutOfRange);
            }
            self.session.push_to(id, frame, at + 1);
            self.state.relocate(id, at + 1);
            self.session.add_obligation(id, self.state.obligation(id));
            return Ok(Turn::More);
        }
        self.session.bump_act(id);
        if frame == 0 || frame >= self.state.solvers {
            return Err(Fault::FrameOutOfRange);
        }
        let blocked: bool = self.session.blocked_with_ordered(
            frame,
            &self.state.obligation(id).lemma,
            false,
        );
        if blocked {
            match self.generalize(id) {
                Ok(equal) => if equal {
                    Ok(Turn::Proved)
                } else {
                    Ok(Turn::More)
                },
                Err(f) => Err(f),
            }
        } else {
            let (model, inputs) = self.session.get_pred(frame, true);
            let ghost lits = inputs@;
            let mut input: Vec<Vec<Lit>> = Vec::new();
            input.push(inputs);
            assert(cubes(input@) =~= seq![lits]);
            let new: usize = self.state.keep(
                Obligation {
                    frame: frame - 1,
                    lemma: sort_lits(&model),
                    input,
                    depth: self.state.obligation(id).depth + 1,
                    next: Some(id),
                },
            );
            self.session.add_obligation(new, self.state.obligation(new));
            self.session.add_obligation(id, self.state.obligation(id));
            Ok(Turn::More)
        }
    }

    /// Works on the next obligation; see [`turn_run`].
    pub fn block_one(&mut self) -> (r: Result<Turn, Fault>)
        requires
            old(self).state@.wf(),
            old(self).state@.solvers > 0,
        ensures
            final(self).state@.wf(),
            final(self).state@.solvers == old(self).state@.solvers,
            final(self).state@.options == old(self).state@.options,
            final(self).session.continues(old(self).session),
            tosses(old(self).state@.options) || final(self).session.source()
                == old(self).session.source(),
            forall|l: Seq<Event>|
                extends(l, final(self).session.log()) ==> #[trigger] turn_run(
                    l,
                    old(self).session.log().len() as int,
                    old(self).state@,
                ) == Some((r, final(self).state@, final(self).session.log().len() as int)),
    {
        let level: usize = self.state.solvers - 1;
        let id: usize = match self.session.pop_obligation(level) {
            None => {
                return Ok(Turn::Drained);
            },
            Some(id) => id,
        };
        if id >= self.state.obligations.len() {
            return Err(Fault::UnknownObligation);
        }
        if self.session.is_removed(id) {
            return Ok(Turn::More);
        }
        let initial: bool = self.session.cube_subsume_init(&self.state.obligation(id).lemma);
        if initial {
            if self.state.options.ic3.abs_cst {
                return self.refine(id);
            } else if self.state.options.ic3.inn && self.state.obligation(id).frame > 0 {
                let found: bool = self.session.solve(0, &self.state.obligation(id).lemma);
                if found {
                    return Err(Fault::InitialState);
                }
            } else {
                self.session.add_obligation(id, self.state.obligation(id));
                if self.state.obligation(id).frame == 0 {
                    return Ok(Turn::Reached);
                } else {
                    return Err(Fault::LateInitialState);
                }
            }
        }
        self.attempt(id)
    }

    /// Works on obligations until none is left or the question is settled; see [`block_run`].
    pub fn block(&mut self, rounds: u64) -> (r: (Result<Turn, Fault>, u64))
        requires
            old(self).state@.wf(),
            old(self).state@.solvers > 0,
        ensures
            final(self).state@.wf(),
            final(self).state@.solvers == old(self).state@.solvers,
            final(self).state@.options == old(self).state@.options,
            r.1 <= rounds,
            rounds > 0 ==> r.1 < rounds,
            rounds == 0 ==> r.0 == Ok::<Turn, Fault>(Turn::More),
            final(self).session.continues(old(self).session),
            tosses(old(self).state@.options) || final(self).session.source()
                == old(self).session.source(),
            forall|l: Seq<Event>|
                extends(l, final(self).session.log()) ==> #[trigger] block_run(
                    l,
                    old(self).session.log().len() as int,
                    old(self).state@,
                    rounds,
                ) == Some(
                    (r.0, final(self).state@, r.1, final(self).session.log().len() as int),
                ),
    {
        proof {
            reveal(block_run);
        }
        let ghost start = self.session.log().len() as int;
        let mut left: u64 = rounds;
        while left > 0
            invariant
                left <= rounds,
                start == old(self).session.log().len(),
                self.state@.wf(),
                self.state@.solvers > 0,
                self.state@.solvers == old(self).state@.solvers,
                self.state@.options == old(self).state@.options,
                self.session.continues(old(self).session),
                tosses(old(self).state@.options) || self.session.source()
                    == old(self).session.source(),
                forall|l: Seq<Event>|
                    extends(l, self.session.log()) ==> #[trigger] block_run(
                        l,
                        start,
                        old(self).state@,
                        rounds,
                    ) == block_run(l, self.session.log().len() as int, self.state@, left),
            decreases left,
        {
            proof {
                reveal(block_run);
            }
            let turn: Turn = match self.block_one() {
                Ok(t) => t,
                Err(f) => {
                    return (Err(f), left - 1);
                },
            };
            if turn != Turn::More {
                return (Ok(turn), left - 1);
            }
            left = left - 1;
        }
        (Ok(Turn::More), 0)
    }
}

} // verus!
