//! Propagation: moving lemmas to later frames.

use vstd::prelude::*;

use crate::engine::IC3;
use crate::fault::Fault;
use crate::lit::{copy_lits, cubes, Lit};
use crate::mic::outcome;
use crate::multi::mic_run;
use crate::obligation::{lemma_views, FrameLemma, FrameLemmaView};
use crate::param::{DropVarParameter, MicType};
use crate::session::{asked, extends, yes, Call, Event, Reasoner, Session, Tally};
use crate::state::{lemma_wf, StateView};

verus! {

/// The part of a lemma that is to be added to the next frame: its cube where initial values alone
/// do not exclude it, and otherwise the core.
pub open spec fn core_run(log: Seq<Event>, at: int, inn: bool, frame: usize, cube: Seq<Lit>) ->
    Option<(Seq<Lit>, int)> {
    let solver = Call::InductiveCore { solver: frame };
    if !inn {
        if asked(log, at, solver) {
            Some((log[at].reply->Cube_0, at + 1))
        } else {
            None
        }
    } else if !asked(log, at, Call::CubeSubsumeInit { cube }) {
        None
    } else if yes(log, at) {
        Some((cube, at + 1))
    } else if asked(log, at + 1, solver) {
        Some((log[at + 1].reply->Cube_0, at + 2))
    } else {
        None
    }
}

/// Moves the obligation of a lemma on, where it is queued for a frame that the lemma now reaches.
pub open spec fn advance_run(
    log: Seq<Event>,
    at: int,
    s: StateView,
    frame: usize,
    owner: Option<usize>,
) -> Option<(Result<(), Fault>, StateView, int)> {
    match owner {
        None => Some((Ok(()), s, at)),
        Some(id) => {
            let from = s.obligations[id as int].frame;
            let to = (frame + 2) as usize;
            if id >= s.obligations.len() {
                Some((Err(Fault::UnknownObligation), s, at))
            } else if from >= to {
                Some((Ok(()), s, at))
            } else if !asked(log, at, Call::RemoveObligation { id }) {
                None
            } else if !yes(log, at) {
                Some((Ok(()), s, at + 1))
            } else if asked(log, at + 1, Call::PushTo { id, from, to }) && asked(
                log,
                at + 2,
                Call::RequeueObligation { id, po: s.at_frame(id, to) },
            ) {
                Some((Ok(()), s.moved(id, to), at + 3))
            } else {
                None
            }
        },
    }
}

/// Adds a lemma that the next frame also excludes to that frame.
pub open spec fn carry_run(
    log: Seq<Event>,
    at: int,
    s: StateView,
    frame: usize,
    lemma: FrameLemmaView,
    tried: bool,
) -> Option<(Result<(), Fault>, StateView, int)> {
    match core_run(log, at, s.options.ic3.inn, frame, lemma.cube) {
        None => None,
        Some((core, at2)) => match advance_run(log, at2, s, frame, lemma.po) {
            None => None,
            Some((Err(f), s2, at3)) => Some((Err(f), s2, at3)),
            Some((Ok(_), s2, at3)) => if asked(
                log,
                at3,
                Call::AddLemma {
                    frame: (frame + 1) as usize,
                    cube: core,
                    contained_check: true,
                    owner: lemma.po,
                },
            ) && asked(log, at3 + 1, Call::Count { tally: Tally::Ctp(tried) }) {
                Some((Ok(()), s2, at3 + 2))
            } else {
                None
            },
        },
    }
}

/// What became of a counterexample to propagation.
#[derive(Clone, Copy, PartialEq, Eq, Structural, Debug)]
pub enum Ctp {
    /// It could not be excluded.
    Left,
    /// It was excluded.
    Excluded,
    /// It was excluded, and two neighbouring frames have become equal.
    Equal,
}

/// Tries to exclude the state from which a step leads out of a lemma.
pub open spec fn ctp_run(log: Seq<Event>, at: int, s: StateView, frame: usize) -> Option<
    (Result<Ctp, Fault>, int),
> {
    let solver = (frame - 1) as usize;
    if !asked(log, at, Call::GetPred { frame: (frame + 1) as usize, strengthen: false }) {
        None
    } else {
        let model = log[at].reply->Pred_0;
        if !asked(log, at + 1, Call::CubeSubsumeInit { cube: model }) {
            None
        } else if yes(log, at + 1) {
            Some((Ok(Ctp::Left), at + 2))
        } else if !asked(log, at + 2, Call::Inductive { solver, cube: model, strengthen: true }) {
            None
        } else if !yes(log, at + 2) {
            Some((Ok(Ctp::Left), at + 3))
        } else if !asked(log, at + 3, Call::InductiveCore { solver }) {
            None
        } else {
            match mic_run(
                log,
                at + 4,
                s.setting(),
                s.options.ic3.inn,
                frame,
                log[at + 3].reply->Cube_0,
                seq![],
                MicType::DropVar(DropVarParameter::zero()),
            ) {
                None => None,
                Some((Err(f), at2)) => Some((Err(f), at2)),
                Some((Ok(mic), at2)) => if !asked(
                    log,
                    at2,
                    Call::AddLemma { frame, cube: mic, contained_check: false, owner: None },
                ) {
                    None
                } else if yes(log, at2) {
                    Some((Ok(Ctp::Equal), at2 + 1))
                } else {
                    Some((Ok(Ctp::Excluded), at2 + 1))
                },
            }
        }
    }
}

/// Tries to move one lemma to the next frame, `tries` times at most, excluding a counterexample
/// after each time that fails where the options ask for that. The outcome says whether two
/// neighbouring frames have become equal.
pub open spec fn move_run(
    log: Seq<Event>,
    at: int,
    s: StateView,
    frame: usize,
    lemma: FrameLemmaView,
    tries: nat,
    tried: bool,
) -> Option<(Result<bool, Fault>, StateView, int)>
    decreases tries,
{
    if tries == 0 {
        Some((Ok(false), s, at))
    } else if !asked(
        log,
        at,
        Call::Blocked { frame: (frame + 1) as usize, cube: lemma.cube, strengthen: false },
    ) {
        None
    } else if yes(log, at) {
        match carry_run(log, at + 1, s, frame, lemma, tried) {
            None => None,
            Some((Err(f), s2, at2)) => Some((Err(f), s2, at2)),
            Some((Ok(_), s2, at2)) => Some((Ok(false), s2, at2)),
        }
    } else if !s.options.ic3.ctp {
        Some((Ok(false), s, at + 1))
    } else {
        match ctp_run(log, at + 1, s, frame) {
            None => None,
            Some((Err(f), at2)) => Some((Err(f), s, at2)),
            Some((Ok(Ctp::Left), at2)) => Some((Ok(false), s, at2)),
            Some((Ok(Ctp::Equal), at2)) => Some((Ok(true), s, at2)),
            Some((Ok(Ctp::Excluded), at2)) => move_run(
                log,
                at2,
                s,
                frame,
                lemma,
                (tries - 1) as nat,
                true,
            ),
        }
    }
}

/// How often a lemma is tried.
pub open spec fn max_tries() -> nat {
    3
}

/// Tries to move the lemmas from `k` on, leaving out those that the frame no longer holds.
pub open spec fn moves_run(
    log: Seq<Event>,
    at: int,
    s: StateView,
    frame: usize,
    lemmas: Seq<FrameLemmaView>,
    k: int,
) -> Option<(Result<bool, Fault>, StateView, int)>
    decreases lemmas.len() - k,
{
    if k >= lemmas.len() {
        Some((Ok(false), s, at))
    } else if !asked(log, at, Call::FrameHas { frame, cube: lemmas[k].cube }) {
        None
    } else if !yes(log, at) {
        moves_run(log, at + 1, s, frame, lemmas, k + 1)
    } else {
        match move_run(log, at + 1, s, frame, lemmas[k], max_tries(), false) {
            None => None,
            Some((Err(f), s2, at2)) => Some((Err(f), s2, at2)),
            Some((Ok(true), s2, at2)) => Some((Ok(true), s2, at2)),
            Some((Ok(false), s2, at2)) => moves_run(log, at2, s2, frame, lemmas, k + 1),
        }
    }
}

/// Tries to move all lemmas of the frames from `frame` on, the last excepted, from the shortest
/// on. The outcome says whether two neighbouring frames have become equal.
#[verifier::opaque]
pub open spec fn frames_run(log: Seq<Event>, at: int, s: StateView, frame: usize) -> Option<
    (Result<bool, Fault>, StateView, int),
>
    decreases s.level() - frame,
{
    if frame >= s.level() {
        if asked(log, at, Call::SetEarly { frame: s.level() }) {
            Some((Ok(false), s, at + 1))
        } else {
            None
        }
    } else if !asked(log, at, Call::SortFrame { frame }) || !asked(
        log,
        at + 1,
        Call::FrameLemmas { frame },
    ) {
        None
    } else {
        match moves_run(log, at + 2, s, frame, log[at + 1].reply->Lemmas_0, 0) {
            None => None,
            Some((Err(f), s2, at2)) => Some((Err(f), s2, at2)),
            Some((Ok(true), s2, at2)) => Some((Ok(true), s2, at2)),
            Some((Ok(false), s2, at2)) => if !asked(log, at2, Call::FrameIsEmpty { frame }) {
                None
            } else if yes(log, at2) {
                Some((Ok(true), s2, at2 + 1))
            } else if s2.level() == s.level() {
                frames_run(log, at2 + 1, s2, (frame + 1) as usize)
            } else {
                None
            },
        }
    }
}

/// Propagates lemmas from the given frame on, or from the first that has changed.
pub open spec fn propagate_run(
    log: Seq<Event>,
    at: int,
    s: StateView,
    from: Option<usize>,
) -> Option<(Result<bool, Fault>, StateView, int)> {
    let ask = from is None;
    if ask && !asked(log, at, Call::Early) {
        None
    } else {
        let first = match from {
            Some(f) => f,
            None => log[at].reply->Size_0,
        };
        frames_run(
            log,
            if ask {
                at + 1
            } else {
                at
            },
            s,
            if first < 1 {
                1
            } else {
                first
            },
        )
    }
}

impl<R: Reasoner> Session<R> {
    /// The part of a lemma that is to be added to the next frame; see [`core_run`].
    fn lemma_core(&mut self, inn: bool, frame: usize, cube: &Vec<Lit>) -> (r: Vec<Lit>)
        ensures
            final(self).asks(*old(self)),
            forall|l: Seq<Event>|
                extends(l, final(self).log()) ==> #[trigger] core_run(
                    l,
                    old(self).log().len() as int,
                    inn,
                    frame,
                    cube@,
                ) == Some((r@, final(self).log().len() as int)),
    {
        if inn {
            let whole: bool = self.cube_subsume_init(cube);
            if whole {
                return copy_lits(cube);
            }
        }
        self.inductive_core(frame)
    }
}

impl<R: Reasoner> IC3<R> {
    /// Moves the obligation of a lemma on; see [`advance_run`].
    fn advance(&mut self, frame: usize, owner: Option<usize>) -> (r: Result<(), Fault>)
        requires
            old(self).state@.wf(),
            frame < old(self).state@.level(),
            old(self).state@.solvers > 0,
        ensures
            final(self).state@.wf(),
            final(self).state@.solvers == old(self).state@.solvers,
            final(self).state@.options == old(self).state@.options,
            final(self).session.asks(old(self).session),
            forall|l: Seq<Event>|
                extends(l, final(self).session.log()) ==> #[trigger] advance_run(
                    l,
                    old(self).session.log().len() as int,
                    old(self).state@,
                    frame,
                    owner,
                ) == Some((r, final(self).state@, final(self).session.log().len() as int)),
    {
        proof {
            lemma_wf(self.state@);
        }
        if let Some(id) = owner {
            if id >= self.state.obligations.len() {
                return Err(Fault::UnknownObligation);
            }
            let from: usize = self.state.obligation(id).frame;
            let to: usize = frame + 2;
            if from < to {
                let queued: bool = self.session.remove_obligation(id);
                if queued {
                    self.session.push_to(id, from, to);
                    self.state.relocate(id, to);
                    self.session.requeue_obligation(id, self.state.obligation(id));
                }
            }
        }
        Ok(())
    }

    /// Adds a lemma to the next frame; see [`carry_run`].
    fn carry(&mut self, frame: usize, lemma: &FrameLemma, tried: bool) -> (r: Result<(), Fault>)
        requires
            old(self).state@.wf(),
            frame < old(self).state@.level(),
            old(self).state@.solvers > 0,
        ensures
            final(self).state@.wf(),
            final(self).state@.solvers == old(self).state@.solvers,
            final(self).state@.options == old(self).state@.options,
            final(self).session.asks(old(self).session),
            forall|l: Seq<Event>|
                extends(l, final(self).session.log()) ==> #[trigger] carry_run(
                    l,
                    old(self).session.log().len() as int,
                    old(self).state@,
                    frame,
                    lemma@,
                    tried,
                ) == Some((r, final(self).state@, final(self).session.log().len() as int)),
    {
        let core: Vec<Lit> = self.session.lemma_core(
            self.state.options.ic3.inn,
            frame,
            &lemma.cube,
        );
        match self.advance(frame, lemma.po) {
            Ok(_) => {},
            Err(f) => {
                return Err(f);
            },
        }
        let _: bool = self.session.add_lemma(frame + 1, &core, true, lemma.po);
        self.session.tally(Tally::Ctp(tried));
        Ok(())
    }

    /// Tries to exclude a counterexample to propagation; see [`ctp_run`].
    fn exclude_ctp(&mut self, frame: usize) -> (r: Result<Ctp, Fault>)
        requires
            old(self).state@.wf(),
            0 < frame < old(self).state@.level(),
            old(self).state@.solvers > 0,
        ensures
            final(self).state == old(self).state,
            final(self).session.asks(old(self).session),
            forall|l: Seq<Event>|
                extends(l, final(self).session.log()) ==> #[trigger] ctp_run(
                    l,
                    old(self).session.log().len() as int,
                    old(self).state@,
                    frame,
                ) == Some((r, final(self).session.log().len() as int)),
    {
        let solver: usize = frame - 1;
        let (model, _) = self.session.get_pred(frame + 1, false);
        if self.session.cube_subsume_init(&model) {
            return Ok(Ctp::Left);
        }
        if !self.session.inductive(solver, &model, true) {
            return Ok(Ctp::Left);
        }
        let core: Vec<Lit> = self.session.inductive_core(solver);
        let none: Vec<Vec<Lit>> = Vec::new();
        assert(cubes(none@) =~= seq![]);
        let mic: Vec<Lit> = match self.session.mic(
            self.state.setting(),
            self.state.options.ic3.inn,
            frame,
            core,
            &none,
            MicType::DropVar(DropVarParameter::default()),
        ) {
            Ok(c) => c,
            Err(f) => {
                return Err(f);
            },
        };
        if self.session.add_lemma(frame, &mic, false, None) {
            Ok(Ctp::Equal)
        } else {
            Ok(Ctp::Excluded)
        }
    }

    /// Tries to move one lemma to the next frame; see [`move_run`].
    fn move_lemma(&mut self, frame: usize, lemma: &FrameLemma) -> (r: Result<bool, Fault>)
        requires
            old(self).state@.wf(),
            0 < frame < old(self).state@.level(),
            old(self).state@.solvers > 0,
        ensures
            final(self).state@.wf(),
            final(self).state@.solvers == old(self).state@.solvers,
            final(self).state@.options == old(self).state@.options,
            final(self).session.asks(old(self).session),
            forall|l: Seq<Event>|
                extends(l, final(self).session.log()) ==> #[trigger] move_run(
                    l,
                    old(self).session.log().len() as int,
                    old(self).state@,
                    frame,
                    lemma@,
                    max_tries(),
                    false,
                ) == Some((r, final(self).state@, final(self).session.log().len() as int)),
    {
        let ghost start = self.session.log().len() as int;
        let mut tries: usize = 3;
        while tries > 0
            invariant
                tries <= 3,
                start == old(self).session.log().len(),
                self.state == old(self).state,
                self.state@.wf(),
                0 < frame < self.state@.level(),
                self.state@.solvers > 0,
                self.session.asks(old(self).session),
                forall|l: Seq<Event>|
                    extends(l, self.session.log()) ==> #[trigger] move_run(
                        l,
                        start,
                        old(self).state@,
                        frame,
                        lemma@,
                        max_tries(),
                        false,
                    ) == move_run(
                        l,
                        self.session.log().len() as int,
                        self.state@,
                        frame,
                        lemma@,
                        tries as nat,
                        tries < 3,
                    ),
            decreases tries,
        {
            if self.session.blocked_with_ordered(frame + 1, &lemma.cube, false) {
                return match self.carry(frame, lemma, tries < 3) {
                    Ok(_) => Ok(false),
                    Err(f) => Err(f),
                };
            }
            if !self.state.options.ic3.ctp {
                return Ok(false);
            }
            match self.exclude_ctp(frame) {
                Ok(Ctp::Left) => {
                    return Ok(false);
                },
                Ok(Ctp::Equal) => {
                    return Ok(true);
                },
                Ok(Ctp::Excluded) => {},
                Err(f) => {
                    return Err(f);
                },
            }
            tries = tries - 1;
        }
        Ok(false)
    }

    /// Tries to move the given lemmas to the next frame; see [`moves_run`].
    fn move_lemmas(&mut self, frame: usize, lemmas: &Vec<FrameLemma>) -> (r: Result<bool, Fault>)
        requires
            old(self).state@.wf(),
            0 < frame < old(self).state@.level(),
            old(self).state@.solvers > 0,
        ensures
            final(self).state@.wf(),
            final(self).state@.solvers == old(self).state@.solvers,
            final(self).state@.options == old(self).state@.options,
            final(self).session.asks(old(self).session),
            forall|l: Seq<Event>|
                extends(l, final(self).session.log()) ==> #[trigger] moves_run(
                    l,
                    old(self).session.log().len() as int,
                    old(self).state@,
                    frame,
                    lemma_views(lemmas@),
                    0,
                ) == Some((r, final(self).state@, final(self).session.log().len() as int)),
    {
        let ghost start = self.session.log().len() as int;
        let mut k: usize = 0;
        while k < lemmas.len()
            invariant
                k <= lemmas.len(),
                start == old(self).session.log().len(),
                self.state@.wf(),
                self.state@.solvers == old(self).state@.solvers,
                self.state@.options == old(self).state@.options,
                0 < frame < self.state@.level(),
                self.state@.solvers > 0,
                self.session.asks(old(self).session),
                forall|l: Seq<Event>|
                    extends(l, self.session.log()) ==> #[trigger] moves_run(
                        l,
                        start,
                        old(self).state@,
                        frame,
                        lemma_views(lemmas@),
                        0,
                    ) == moves_run(
                        l,
                        self.session.log().len() as int,
                        self.state@,
                        frame,
                        lemma_views(lemmas@),
                        k as int,
                    ),
            decreases lemmas.len() - k,
        {
            if self.session.frame_has(frame, &lemmas[k].cube) {
                match self.move_lemma(frame, &lemmas[k]) {
                    Ok(true) => {
                        return Ok(true);
                    },
                    Ok(false) => {},
                    Err(f) => {
                        return Err(f);
                    },
                }
            }
            k = k + 1;
        }
        Ok(false)
    }

    /// Propagates lemmas; see [`propagate_run`].
    pub fn propagate(&mut self, from: Option<usize>) -> (r: Result<bool, Fault>)
        requires
            old(self).state@.wf(),
            old(self).state@.solvers > 0,
        ensures
            final(self).state@.wf(),
            final(self).state@.solvers == old(self).state@.solvers,
            final(self).state@.options == old(self).state@.options,
            final(self).session.asks(old(self).session),
            forall|l: Seq<Event>|
                extends(l, final(self).session.log()) ==> #[trigger] propagate_run(
                    l,
                    old(self).session.log().len() as int,
                    old(self).state@,
                    from,
                ) == Some((r, final(self).state@, final(self).session.log().len() as int)),
    {
        let first: usize = match from {
            Some(f) => f,
            None => self.session.early(),
        };
        let mut frame: usize = if first < 1 {
            1
        } else {
            first
        };
        let level: usize = self.state.solvers - 1;
        while frame < level
            invariant
                0 < frame,
                self.state@.wf(),
                self.state@.solvers == old(self).state@.solvers,
                self.state@.options == old(self).state@.options,
                level == self.state@.level(),
                self.state@.solvers > 0,
                self.session.asks(old(self).session),
                forall|l: Seq<Event>|
                    extends(l, self.session.log()) ==> #[trigger] propagate_run(
                        l,
                        old(self).session.log().len() as int,
                        old(self).state@,
                        from,
                    ) == frames_run(l, self.session.log().len() as int, self.state@, frame),
            decreases level - frame,
        {
            proof {
                reveal(frames_run);
            }
            self.session.sort_frame(frame);
            let lemmas: Vec<FrameLemma> = self.session.frame_lemmas(frame);
            match self.move_lemmas(frame, &lemmas) {
                Ok(true) => {
                    return Ok(true);
                },
                Ok(false) => {},
                Err(f) => {
                    return Err(f);
                },
            }
            if self.session.frame_is_empty(frame) {
                return Ok(true);
            }
            frame = frame + 1;
        }
        proof {
            reveal(frames_run);
        }
        self.session.set_early(level);
        Ok(false)
    }
}

} // verus!
