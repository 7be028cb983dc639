//! What propagation moves, and what it looks at.

use vstd::prelude::*;

use crate::engine::{advance_level_run, extend_run};
use crate::fault::Fault;
use crate::lit::Lit;
use crate::multi::mic_run;
use crate::obligation::FrameLemmaView;
use crate::param::{DropVarParameter, MicType};
use crate::propagate::{
    ctp_run, frames_run, max_tries, move_run, moves_run, propagate_run, Ctp,
};
use crate::session::{asked, yes, Call, Event, Tally};
use crate::state::StateView;
use crate::trial_laws::law_mic_needed;

verus! {

/// Whether the last two events before `at` add a lemma to a frame, for its obligation, and count
/// it.
pub open spec fn ends_carried(
    log: Seq<Event>,
    at: int,
    frame: usize,
    cube: Seq<Lit>,
    owner: Option<usize>,
    tried: bool,
) -> bool {
    &&& asked(
        log,
        at - 2,
        Call::AddLemma { frame: (frame + 1) as usize, cube, contained_check: true, owner },
    )
    &&& asked(log, at - 1, Call::Count { tally: Tally::Ctp(tried) })
}

/// A lemma that the next frame also excludes is added to it, and what is added is the core of that
/// answer; where internal signals are worked on and the initial values do not exclude the lemma, it
/// is the lemma itself. The obligation of the lemma moves on with it, to the frame after that,
/// where it waits for an earlier one; all other obligations stay. A lemma that the next frame does
/// not exclude is left where it is, and where counterexamples are not to be excluded, nothing more
/// is asked; where they are, and one could be, the lemma is tried again, as long as it may be.
pub proof fn law_moved(
    log: Seq<Event>,
    at: int,
    s: StateView,
    frame: usize,
    lemma: FrameLemmaView,
    tries: nat,
    tried: bool,
)
    requires
        s.wf(),
        tries > 0,
        frame < s.level(),
    ensures
        move_run(log, at, s, frame, lemma, tries, tried) matches Some((Ok(equal), s2, at2)) ==> {
            let own = s.options.ic3.inn && yes(log, at + 1);
            let core = if own {
                lemma.cube
            } else if s.options.ic3.inn {
                log[at + 2].reply->Cube_0
            } else {
                log[at + 1].reply->Cube_0
            };
            let next = if s.options.ic3.inn && !own {
                at + 3
            } else {
                at + 2
            };
            &&& asked(
                log,
                at,
                Call::Blocked {
                    frame: (frame + 1) as usize,
                    cube: lemma.cube,
                    strengthen: false,
                },
            )
            &&& yes(log, at) ==> {
                &&& !equal
                &&& s.options.ic3.inn ==> asked(
                    log,
                    at + 1,
                    Call::CubeSubsumeInit { cube: lemma.cube },
                )
                &&& !own ==> asked(log, next - 1, Call::InductiveCore { solver: frame })
                &&& ends_carried(log, at2, frame, core, lemma.po, tried)
                &&& lemma.po is None ==> s2 == s && at2 == next + 2
                &&& lemma.po matches Some(id) ==> {
                    let from = s.obligations[id as int].frame;
                    &&& from >= frame + 2 ==> s2 == s && at2 == next + 2
                    &&& from < frame + 2 ==> asked(log, next, Call::RemoveObligation { id })
                    &&& from < frame + 2 && !yes(log, next) ==> s2 == s && at2 == next + 3
                    &&& from < frame + 2 && yes(log, next) ==> {
                        &&& asked(
                            log,
                            next + 1,
                            Call::PushTo { id, from, to: (frame + 2) as usize },
                        )
                        &&& asked(
                            log,
                            next + 2,
                            Call::RequeueObligation { id, po: s2.obligations[id as int] },
                        )
                        &&& s2.obligations[id as int].frame == frame + 2
                        &&& s2.obligations.len() == s.obligations.len()
                        &&& forall|i: int|
                            0 <= i < s.obligations.len() && i != id
                                ==> #[trigger] s2.obligations[i] == s.obligations[i]
                        &&& at2 == next + 5
                    }
                }
            }
            &&& !yes(log, at) && !s.options.ic3.ctp ==> !equal && s2 == s && at2 == at + 1
            &&& !yes(log, at) && s.options.ic3.ctp ==> asked(
                log,
                at + 1,
                Call::GetPred { frame: (frame + 1) as usize, strengthen: false },
            )
            &&& !yes(log, at) && s.options.ic3.ctp ==> (ctp_run(log, at + 1, s, frame) matches Some(
                (c, at3),
            ) && match c {
                Err(_) => false,
                Ok(Ctp::Left) => !equal && s2 == s && at2 == at3,
                Ok(Ctp::Equal) => equal && s2 == s && at2 == at3,
                Ok(Ctp::Excluded) => if tries == 1 {
                    !equal && s2 == s && at2 == at3
                } else {
                    move_run(log, at3, s, frame, lemma, (tries - 1) as nat, true) == Some(
                        (Ok::<bool, Fault>(equal), s2, at2),
                    )
                },
            })
            &&& equal ==> (log[at2 - 1].call matches Call::AddLemma { frame: f, .. } && f == frame)
                && yes(log, at2 - 1)
        },
    decreases tries,
{
    if !yes(log, at) && s.options.ic3.ctp {
        if let Some((Ok(Ctp::Excluded), at2)) = ctp_run(log, at + 1, s, frame) {
            if tries > 1 {
                law_moved(log, at2, s, frame, lemma, (tries - 1) as nat, true);
            }
        }
    }
}

/// A state from which a step leads out of a lemma is excluded, where it can be: it must not be an
/// initial one, and the frame before must exclude it. Then the core is generalized by dropping
/// literals, with no nested attempts, and what is left is added as a lemma.
pub proof fn law_ctp(log: Seq<Event>, at: int, s: StateView, frame: usize)
    ensures
        ctp_run(log, at, s, frame) matches Some((r, at2)) ==> {
            let model = log[at].reply->Pred_0;
            let solver = (frame - 1) as usize;
            let mic = mic_run(
                log,
                at + 4,
                s.setting(),
                s.options.ic3.inn,
                frame,
                log[at + 3].reply->Cube_0,
                seq![],
                MicType::DropVar(DropVarParameter { limit: 0, max: 0, level: 0 }),
            );
            &&& asked(log, at + 1, Call::CubeSubsumeInit { cube: model })
            &&& yes(log, at + 1) ==> r == Ok::<Ctp, Fault>(Ctp::Left) && at2 == at + 2
            &&& !yes(log, at + 1) ==> asked(
                log,
                at + 2,
                Call::Inductive { solver, cube: model, strengthen: true },
            )
            &&& !yes(log, at + 1) && !yes(log, at + 2) ==> r == Ok::<Ctp, Fault>(Ctp::Left) && at2
                == at + 3
            &&& !yes(log, at + 1) && yes(log, at + 2) ==> {
                &&& asked(log, at + 3, Call::InductiveCore { solver })
                &&& mic is Some
                &&& mic matches Some((Err(f), _)) ==> r == Err::<Ctp, Fault>(f)
                &&& mic matches Some((Ok(c), at3)) ==> {
                    &&& at2 == at3 + 1
                    &&& asked(
                        log,
                        at3,
                        Call::AddLemma { frame, cube: c, contained_check: false, owner: None },
                    )
                    &&& r == Ok::<Ctp, Fault>(
                        if yes(log, at3) {
                            Ctp::Equal
                        } else {
                            Ctp::Excluded
                        },
                    )
                }
            }
        },
{
}

/// Whether a lemma of a frame is asked about between two events, and tried where the frame still
/// holds it.
pub open spec fn attended(
    log: Seq<Event>,
    at: int,
    to: int,
    frame: usize,
    cube: Seq<Lit>,
) -> bool {
    exists|p: int| at <= p < to && #[trigger] attends(log, p, frame, cube)
}

/// Whether the event at `p` asks whether a frame still holds a lemma, and, where it does, the next
/// whether the next frame also excludes its cube.
pub open spec fn attends(log: Seq<Event>, p: int, frame: usize, cube: Seq<Lit>) -> bool {
    &&& asked(log, p, Call::FrameHas { frame, cube })
    &&& yes(log, p) ==> asked(
        log,
        p + 1,
        Call::Blocked { frame: (frame + 1) as usize, cube, strengthen: false },
    )
}

/// Moving one lemma takes requests.
proof fn lemma_move_on(
    log: Seq<Event>,
    at: int,
    s: StateView,
    frame: usize,
    lemma: FrameLemmaView,
    tries: nat,
    tried: bool,
)
    requires
        0 <= at <= log.len(),
    ensures
        move_run(log, at, s, frame, lemma, tries, tried) matches Some((Ok(equal), s2, at2)) ==> {
            &&& at <= at2 <= log.len()
            &&& equal ==> log[at2 - 1].call is AddLemma && yes(log, at2 - 1)
            &&& s2.solvers == s.solvers
        },
    decreases tries,
{
    if tries > 0 && move_run(log, at, s, frame, lemma, tries, tried) is Some {
        if !yes(log, at) && s.options.ic3.ctp {
            if let Some((r, at2)) = ctp_run(log, at + 1, s, frame) {
                law_ctp(log, at + 1, s, frame);
                if !yes(log, at + 2) && yes(log, at + 3) {
                    let core = log[at + 4].reply->Cube_0;
                    let p = DropVarParameter { limit: 0, max: 0, level: 0 };
                    let mic = mic_run(
                        log,
                        at + 5,
                        s.setting(),
                        s.options.ic3.inn,
                        frame,
                        core,
                        seq![],
                        MicType::DropVar(p),
                    );
                    if let Some((Ok(c), at3)) = mic {
                        law_mic_needed(
                            log,
                            at + 5,
                            s.setting(),
                            s.options.ic3.inn,
                            frame,
                            core,
                            seq![],
                            p,
                        );
                    }
                }
                if r == Ok::<Ctp, Fault>(Ctp::Excluded) {
                    lemma_move_on(log, at2, s, frame, lemma, (tries - 1) as nat, true);
                }
            }
        }
    }
}

/// All the lemmas from `k` on are attended to, unless two neighbouring frames become equal.
proof fn lemma_moves_all(
    log: Seq<Event>,
    at: int,
    s: StateView,
    frame: usize,
    lemmas: Seq<FrameLemmaView>,
    k: int,
)
    requires
        0 <= at <= log.len(),
        0 <= k,
    ensures
        moves_run(log, at, s, frame, lemmas, k) matches Some((Ok(equal), s2, at2)) ==> {
            &&& at <= at2 <= log.len()
            &&& s2.solvers == s.solvers
            &&& !equal ==> forall|i: int|
                k <= i < lemmas.len() ==> #[trigger] attended(
                    log,
                    at,
                    at2,
                    frame,
                    lemmas[i].cube,
                )
            &&& equal ==> log[at2 - 1].call is AddLemma && yes(log, at2 - 1)
        },
    decreases lemmas.len() - k,
{
    if k < lemmas.len() {
        if let Some((Ok(equal), s2, end)) = moves_run(log, at, s, frame, lemmas, k) {
            let next = if yes(log, at) {
                move_run(log, at + 1, s, frame, lemmas[k], max_tries(), false)
            } else {
                Some((Ok::<bool, Fault>(false), s, at + 1))
            };
            if yes(log, at) {
                lemma_move_on(log, at + 1, s, frame, lemmas[k], max_tries(), false);
            }
            assert(next is Some);
            let (r, s3, at3) = next->0;
            if r == Ok::<bool, Fault>(false) {
                lemma_moves_all(log, at3, s3, frame, lemmas, k + 1);
            }
            if !equal {
                assert(attends(log, at, frame, lemmas[k].cube));
                assert forall|i: int| k <= i < lemmas.len() implies #[trigger] attended(
                    log,
                    at,
                    end,
                    frame,
                    lemmas[i].cube,
                ) by {
                    if i > k {
                        assert(attended(log, at3, end, frame, lemmas[i].cube));
                    }
                }
            }
        }
    }
}

/// Whether a frame is worked through between two events: its lemmas are sorted and taken, each is
/// attended to, and the frame is found not to be empty after that.
pub open spec fn worked_through(log: Seq<Event>, at: int, to: int, frame: usize) -> bool {
    exists|p: int, q: int| at <= p < q < to && #[trigger] works_through(log, p, q, frame)
}

/// The same between the first of these events and the last.
pub open spec fn works_through(log: Seq<Event>, p: int, q: int, frame: usize) -> bool {
    let lemmas = log[p + 1].reply->Lemmas_0;
    &&& asked(log, p, Call::SortFrame { frame })
    &&& asked(log, p + 1, Call::FrameLemmas { frame })
    &&& forall|i: int|
        0 <= i < lemmas.len() ==> #[trigger] attended(log, p + 2, q, frame, lemmas[i].cube)
    &&& asked(log, q, Call::FrameIsEmpty { frame })
    &&& !yes(log, q)
}

/// All frames from one on are worked through, unless two neighbouring ones become equal.
proof fn lemma_frames_all(log: Seq<Event>, at: int, s: StateView, frame: usize)
    requires
        0 <= at <= log.len(),
    ensures
        frames_run(log, at, s, frame) matches Some((Ok(equal), s2, at2)) ==> {
            &&& at < at2 <= log.len()
            &&& s2.solvers == s.solvers
            &&& !equal ==> asked(log, at2 - 1, Call::SetEarly { frame: s.level() })
            &&& !equal ==> forall|f: usize|
                frame <= f < s.level() ==> #[trigger] worked_through(log, at, at2, f)
            &&& equal ==> (log[at2 - 1].call is AddLemma || log[at2 - 1].call is FrameIsEmpty)
                && yes(log, at2 - 1)
        },
    decreases s.level() - frame,
{
    reveal(frames_run);
    if frame < s.level() {
        if let Some((Ok(equal), s2, end)) = frames_run(log, at, s, frame) {
            let lemmas = log[at + 1].reply->Lemmas_0;
            lemma_moves_all(log, at + 2, s, frame, lemmas, 0);
            let (r, s3, at3) = moves_run(log, at + 2, s, frame, lemmas, 0)->0;
            if r == Ok::<bool, Fault>(false) && !yes(log, at3) {
                lemma_frames_all(log, at3 + 1, s3, (frame + 1) as usize);
            }
            if !equal {
                assert(works_through(log, at, at3, frame));
                assert forall|f: usize| frame <= f < s.level() implies #[trigger] worked_through(
                    log,
                    at,
                    end,
                    f,
                ) by {
                    if f > frame {
                        assert(worked_through(log, at3 + 1, end, f));
                    }
                }
            }
        }
    }
}

/// Propagation works through every frame between the initial one and the last, from the one that is
/// given on or from the first that has changed, and then notes that none has changed up to the
/// last. It ends before that only where two neighbouring frames become equal: an added lemma says
/// so, or a frame is left empty.
pub proof fn law_propagated(log: Seq<Event>, at: int, s: StateView, from: Option<usize>)
    requires
        0 <= at <= log.len(),
    ensures
        propagate_run(log, at, s, from) matches Some((Ok(equal), s2, at2)) ==> {
            let first = match from {
                Some(f) => f,
                None => log[at].reply->Size_0,
            };
            &&& from is None ==> asked(log, at, Call::Early)
            &&& !equal ==> asked(log, at2 - 1, Call::SetEarly { frame: s.level() })
            &&& !equal ==> forall|f: usize|
                first <= f < s.level() && f > 0 ==> #[trigger] worked_through(log, at, at2, f)
            &&& equal ==> (log[at2 - 1].call is AddLemma || log[at2 - 1].call is FrameIsEmpty)
                && yes(log, at2 - 1)
            &&& s2.solvers == s.solvers
        },
{
    if let Some((Ok(equal), s2, end)) = propagate_run(log, at, s, from) {
        let first = match from {
            Some(f) => f,
            None => log[at].reply->Size_0,
        };
        let at1 = if from is None {
            at + 1
        } else {
            at
        };
        let start = if first < 1 {
            1
        } else {
            first
        };
        lemma_frames_all(log, at1, s, start);
        if !equal {
            assert forall|f: usize| first <= f < s.level() && f > 0 implies #[trigger]
                worked_through(log, at, end, f) by {
                assert(worked_through(log, at1, end, f));
            }
        }
    }
}

/// A lemma that cannot be moved is tried again after each counterexample that was excluded, but not
/// after the third.
pub proof fn law_tries(
    log: Seq<Event>,
    at: int,
    s: StateView,
    frame: usize,
    lemmas: Seq<FrameLemmaView>,
    k: int,
    at2: int,
    at3: int,
    at4: int,
)
    requires
        0 <= k < lemmas.len(),
        s.options.ic3.ctp,
        moves_run(log, at, s, frame, lemmas, k) is Some,
        yes(log, at),
        !yes(log, at + 1),
        ctp_run(log, at + 2, s, frame) == Some((Ok::<Ctp, Fault>(Ctp::Excluded), at2)),
    ensures
        ({
            let again = Call::Blocked {
                frame: (frame + 1) as usize,
                cube: lemmas[k].cube,
                strengthen: false,
            };
            let second = !yes(log, at2) && ctp_run(log, at2 + 1, s, frame) == Some(
                (Ok::<Ctp, Fault>(Ctp::Excluded), at3),
            );
            let third = second && !yes(log, at3) && ctp_run(log, at3 + 1, s, frame) == Some(
                (Ok::<Ctp, Fault>(Ctp::Excluded), at4),
            );
            &&& asked(log, at + 1, again)
            &&& asked(log, at2, again)
            &&& second ==> asked(log, at3, again)
            &&& third ==> moves_run(log, at, s, frame, lemmas, k) == moves_run(
                log,
                at4,
                s,
                frame,
                lemmas,
                k + 1,
            )
        }),
{
    let lemma = lemmas[k];
    reveal_with_fuel(move_run, 4);
    assert(move_run(log, at + 1, s, frame, lemma, 3, false) is Some);
    assert(move_run(log, at2, s, frame, lemma, 2, true) is Some);
}

/// One more frame is made before lemmas are propagated, from the first frame that has changed on,
/// and the question is settled where propagation says so, after the certificate was verified. No
/// frame is made only where there would be too many to number.
pub proof fn law_advanced(log: Seq<Event>, at: int, s: StateView)
    ensures
        advance_level_run(log, at, s) matches Some((r, s3, at3)) ==> {
            let full = s.solvers >= usize::MAX - 2;
            &&& full ==> r == Err::<bool, Fault>(Fault::TooManyFrames) && s3 == s && at3 == at
            &&& !full ==> (extend_run(log, at, s) matches Some((s2, at2)) && {
                &&& asked(log, at2, Call::Early)
                &&& propagate_run(log, at2, s2, None) == Some(
                    (
                        r,
                        s3,
                        if r == Ok::<bool, Fault>(true) {
                            at3 - 1
                        } else {
                            at3
                        },
                    ),
                )
            })
            &&& r == Ok::<bool, Fault>(true) ==> log[at3 - 1].call == Call::Verify
        },
{
}

} // verus!
