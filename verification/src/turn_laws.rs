//! What working on one obligation does to it and to the others.

use vstd::prelude::*;

use crate::block::{
    all_new, attempt_run, block_run, generalize_core_run, generalize_run, refine_run, turn_run,
    Turn,
};
use crate::effort::strategy_run;
use crate::engine::{advance_level_run, last_obligation, search_run};
use crate::fault::Fault;
use crate::heuristic::{reward_of, Grade};
use crate::lit::{law_sorted, sorts};
use crate::mic::push_run;
use crate::multi::mic_run;
use crate::obligation::ObligationView;
use crate::options::Options;
use crate::param::{DropVarParameter, MicType};
use crate::push_laws::law_pushed;
use crate::session::{asked, yes, Call, Event, Tally};
use crate::state::{linked, StateView};

verus! {

/// Whether a state differs from another only in the frame of one obligation.
pub open spec fn relocated(s: StateView, s2: StateView, id: usize, frame: int) -> bool {
    &&& s2 == (StateView { obligations: s2.obligations, ..s })
    &&& s2.obligations.len() == s.obligations.len()
    &&& s2.obligations[id as int].frame == frame
    &&& s2.obligations[id as int] == (ObligationView {
        frame: s2.obligations[id as int].frame,
        ..s.obligations[id as int]
    })
    &&& forall|i: int|
        0 <= i < s.obligations.len() && i != id ==> #[trigger] s2.obligations[i]
            == s.obligations[i]
}

/// Work on an obligation that is not to be taken for an initial state. Where lemmas already exclude
/// its cube up to some frame, it moves on to the one after that, and nothing more is asked.
/// Otherwise its activity rises, and it is tried to block it. Where that fails, an obligation to
/// exclude the predecessor is added, one frame earlier and one step further from the bad state,
/// with its literals sorted and the inputs of that step, and leads to this one; it is queued first,
/// and this one after it, as it was.
pub proof fn law_attempt(log: Seq<Event>, at: int, s: StateView, id: usize)
    requires
        s.wf(),
        id < s.obligations.len() < usize::MAX,
    ensures
        attempt_run(log, at, s, id) matches Some((r, s2, at2)) ==> {
            let po = s.obligations[id as int];
            let known = log[at].reply->Index_0;
            let fits = 0 < po.frame <= s.level();
            let blocked = Call::Blocked { frame: po.frame, cube: po.lemma, strengthen: false };
            &&& asked(log, at, Call::TrivialContained { frame: po.frame, cube: po.lemma })
            &&& known matches Some(f) ==> {
                &&& f == usize::MAX ==> r == Err::<Turn, Fault>(Fault::FrameOutOfRange) && s2 == s
                &&& f < usize::MAX ==> {
                    &&& r == Ok::<Turn, Fault>(Turn::More)
                    &&& relocated(s, s2, id, f + 1)
                    &&& at2 == at + 3
                    &&& asked(
                        log,
                        at + 1,
                        Call::PushTo { id, from: po.frame, to: (f + 1) as usize },
                    )
                    &&& asked(
                        log,
                        at + 2,
                        Call::AddObligation { id, po: s2.obligations[id as int] },
                    )
                }
            }
            &&& known is None ==> asked(log, at + 1, Call::BumpAct { id })
            &&& known is None && !fits ==> r == Err::<Turn, Fault>(Fault::FrameOutOfRange) && s2
                == s && at2 == at + 2
            &&& known is None && fits ==> asked(log, at + 2, blocked)
            &&& known is None && fits && yes(log, at + 2) ==> (generalize_run(
                log,
                at + 3,
                s,
                id,
            ) matches Some((g, s3, at3)) && s2 == s3 && at2 == at3 && match g {
                Ok(equal) => r == Ok::<Turn, Fault>(
                    if equal {
                        Turn::Proved
                    } else {
                        Turn::More
                    },
                ),
                Err(f) => r == Err::<Turn, Fault>(f),
            })
            &&& known is None && fits && !yes(log, at + 2) ==> {
                let new = s2.obligations.last();
                &&& r == Ok::<Turn, Fault>(Turn::More)
                &&& asked(log, at + 3, Call::GetPred { frame: po.frame, strengthen: true })
                &&& s2 == (StateView { obligations: s.obligations.push(new), ..s })
                &&& new.frame == po.frame - 1
                &&& new.depth == po.depth + 1
                &&& new.next == Some(id)
                &&& new.input == seq![log[at + 3].reply->Pred_1]
                &&& sorts(new.lemma, log[at + 3].reply->Pred_0)
                &&& asked(
                    log,
                    at + 4,
                    Call::AddObligation { id: s.obligations.len() as usize, po: new },
                )
                &&& asked(log, at + 5, Call::AddObligation { id, po })
                &&& at2 == at + 6
            }
        },
{
    assert(linked(s.obligations, id as int));
    law_sorted(log[at + 3].reply->Pred_0);
    if let Some((r, s2, at2)) = attempt_run(log, at, s, id) {
        if log[at].reply->Index_0 is None && 0 < s.obligations[id as int].frame <= s.level() && !yes(
            log,
            at + 2,
        ) {
            assert(s2.obligations == s.obligations.push(s2.obligations.last()));
        }
    }
}

/// The next obligation is the one that the queue gives. Where it gives none, there is nothing left
/// to do; one that was removed is passed over; one whose cube may hold an initial state settles the
/// question at the first frame, once it is queued again, is checked where constraints were left
/// out, and must be refuted by the first solver where internal signals are worked on; and every
/// other is worked on.
pub proof fn law_turn(log: Seq<Event>, at: int, s: StateView)
    ensures
        turn_run(log, at, s) matches Some((r, s2, at2)) ==> {
            &&& asked(log, at, Call::PopObligation { level: s.level() })
            &&& r == Ok::<Turn, Fault>(Turn::Drained) ==> log[at].reply->Index_0 is None && s2 == s
                && at2 == at + 1
            &&& log[at].reply->Index_0 is None ==> r == Ok::<Turn, Fault>(Turn::Drained)
            &&& log[at].reply->Index_0 matches Some(id) ==> if id >= s.obligations.len() {
                r == Err::<Turn, Fault>(Fault::UnknownObligation) && s2 == s
            } else {
                let po = s.obligations[id as int];
                let removed = yes(log, at + 1);
                let initial = yes(log, at + 2);
                let open = s.options.ic3.inn && po.frame > 0;
                &&& asked(log, at + 1, Call::IsRemoved { id })
                &&& removed ==> r == Ok::<Turn, Fault>(Turn::More) && s2 == s && at2 == at + 2
                &&& !removed ==> asked(log, at + 2, Call::CubeSubsumeInit { cube: po.lemma })
                &&& !removed && !initial ==> attempt_run(log, at + 3, s, id) == Some((r, s2, at2))
                &&& !removed && initial && s.options.ic3.abs_cst ==> refine_run(
                    log,
                    at + 3,
                    s,
                    id,
                ) == Some((r, s2, at2))
                &&& !removed && initial && !s.options.ic3.abs_cst && open ==> {
                    &&& asked(log, at + 3, Call::Solve { solver: 0, cube: po.lemma })
                    &&& yes(log, at + 3) ==> r == Err::<Turn, Fault>(Fault::InitialState) && s2 == s
                    &&& !yes(log, at + 3) ==> attempt_run(log, at + 4, s, id) == Some(
                        (r, s2, at2),
                    )
                }
                &&& !removed && initial && !s.options.ic3.abs_cst && !open ==> {
                    &&& asked(log, at + 3, Call::AddObligation { id, po })
                    &&& s2 == s && at2 == at + 4
                    &&& r == if po.frame == 0 {
                        Ok::<Turn, Fault>(Turn::Reached)
                    } else {
                        Err::<Turn, Fault>(Fault::LateInitialState)
                    }
                }
            }
        },
{
}

/// Where constraints were left out, an obligation that may hold an initial state is queued again
/// and its counterexample checked. One that stands settles the question. Otherwise the constraints
/// that it violates come into force, after those that were, each new, and all obligations are
/// dropped, in the queue and with the lemmas.
pub proof fn law_refined(log: Seq<Event>, at: int, s: StateView, id: usize)
    ensures
        refine_run(log, at, s, id) matches Some((r, s2, at2)) ==> {
            &&& asked(log, at, Call::AddObligation { id, po: s.obligations[id as int] })
            &&& asked(log, at + 1, Call::CheckWitnessByBmc { id })
            &&& log[at + 1].reply->MaybeCube_0 is None <==> r == Ok::<Turn, Fault>(Turn::Reached)
            &&& s2 == (StateView { abs_cst: s2.abs_cst, ..s })
            &&& s.abs_cst.is_prefix_of(s2.abs_cst)
            &&& log[at + 1].reply->MaybeCube_0 matches Some(more) ==> {
                let clash = exists|i: int|
                    0 <= i < more.len() && (s.abs_cst.contains(#[trigger] more[i]) || exists|
                        j: int,
                    |
                        0 <= j < i && more[j] == more[i]);
                &&& clash <==> r == Err::<Turn, Fault>(Fault::KnownConstraint)
                &&& clash ==> s2 == s && at2 == at + 2
                &&& !clash ==> {
                    &&& r == Ok::<Turn, Fault>(Turn::More)
                    &&& s2.abs_cst.len() == s.abs_cst.len() + more.len()
                    &&& forall|i: int|
                        0 <= i < more.len() ==> #[trigger] s2.abs_cst[s.abs_cst.len() + i]
                            == more[i]
                    &&& asked(log, at + 2, Call::ClearObligations)
                    &&& asked(log, at + 3, Call::ForgetObligations)
                    &&& at2 == at + 4
                }
            }
        },
{
    if let Some(more) = log[at + 1].reply->MaybeCube_0 {
        assert(all_new(s.abs_cst, more) <==> !(exists|i: int|
            0 <= i < more.len() && (s.abs_cst.contains(#[trigger] more[i]) || exists|j: int|
                0 <= j < i && more[j] == more[i]))) by {
            assert forall|i: int| 0 <= i < more.len() implies ((s.abs_cst + more.take(i)).contains(
                #[trigger] more[i],
            ) <==> s.abs_cst.contains(more[i]) || exists|j: int|
                0 <= j < i && more[j] == more[i]) by {
                let all = s.abs_cst + more.take(i);
                let n = s.abs_cst.len();
                if all.contains(more[i]) {
                    let k = choose|k: int| 0 <= k < all.len() && all[k] == more[i];
                    if k < n {
                        assert(s.abs_cst[k] == more[i]);
                    } else {
                        assert(more[k - n] == more[i]);
                    }
                }
                if s.abs_cst.contains(more[i]) {
                    let k = choose|k: int| 0 <= k < n && s.abs_cst[k] == more[i];
                    assert(all[k] == more[i]);
                }
                if exists|j: int| 0 <= j < i && more[j] == more[i] {
                    let j = choose|j: int| 0 <= j < i && more[j] == more[i];
                    assert(all[n + j] == more[i]);
                }
            }
        }
    }
}

/// A blocked obligation becomes a lemma: the core of the answer is generalized in the way that the
/// options or the arm call for, what is left is pushed, and added to the frame before the first
/// that it does not get past. The obligation moves on to that frame, and is queued there. Where
/// arms are in use, the one that was used is rewarded for that, and for nothing else.
pub proof fn law_generalized(log: Seq<Event>, at: int, s: StateView, id: usize)
    requires
        s.wf(),
        id < s.obligations.len(),
        0 < s.obligations[id as int].frame <= s.level(),
    ensures
        generalize_core_run(log, at, s, id) matches Some((Ok(equal), s2, at2)) ==> {
            let po = s.obligations[id as int];
            let core = log[at].reply->Cube_0;
            &&& asked(log, at, Call::InductiveCore { solver: (po.frame - 1) as usize })
            &&& strategy_run(log, at + 1, s, id) matches Some((arm, mic_type, s1, at3)) && {
                &&& mic_run(
                    log,
                    at3,
                    s.setting(),
                    s.options.ic3.inn,
                    po.frame,
                    core,
                    seq![],
                    mic_type,
                ) matches Some((Ok(mic), at4)) && {
                    &&& push_run(log, at4, s.level(), po.frame + 1, mic) matches Some(
                        (reached, left, at5),
                    ) && {
                        let at6 = if s.options.ic3.enable_ctx_mab {
                            at5 + 2
                        } else {
                            at5
                        };
                        &&& s.options.ic3.enable_ctx_mab ==> asked(
                            log,
                            at5,
                            Call::ObserveContext {
                                id,
                                po: s1.obligations[id as int],
                                level: s1.level(),
                            },
                        ) && asked(
                            log,
                            at5 + 1,
                            Call::Reward {
                                arm,
                                terms: reward_of(
                                    core.len() as usize,
                                    mic.len() as usize,
                                    s1.obligations[id as int].frame,
                                    reached as usize,
                                    s1.level(),
                                ),
                            },
                        )
                        &&& s1.obligations == s.obligations && s1.solvers == s.solvers
                        &&& asked(
                            log,
                            at6,
                            Call::Count { tally: Tally::PoCubeLen(po.lemma.len() as usize) },
                        )
                        &&& asked(
                            log,
                            at6 + 1,
                            Call::PushTo { id, from: po.frame, to: reached as usize },
                        )
                        &&& asked(
                            log,
                            at6 + 2,
                            Call::AddObligation { id, po: s2.obligations[id as int] },
                        )
                        &&& asked(
                            log,
                            at6 + 3,
                            Call::AddLemma {
                                frame: (reached - 1) as usize,
                                cube: left,
                                contained_check: false,
                                owner: Some(id),
                            },
                        )
                        &&& equal == yes(log, at6 + 3)
                        &&& relocated(s1, s2, id, reached)
                        &&& at2 == at6 + 4
                    }
                }
            }
        },
{
    let po = s.obligations[id as int];
    let core = log[at].reply->Cube_0;
    if let Some((arm, mic_type, s1, at3)) = strategy_run(log, at + 1, s, id) {
        if let Some((Ok(mic), at4)) = mic_run(
            log,
            at3,
            s.setting(),
            s.options.ic3.inn,
            po.frame,
            core,
            seq![],
            mic_type,
        ) {
            law_pushed(log, at4, s.level(), po.frame as int, mic);
        }
    }
}

/// Where internal signals are worked on, and the initial values do not exclude the cube of a
/// blocked obligation, the cube itself becomes the lemma, at the frame of the obligation, which
/// moves on by one and is queued before. Otherwise the core is generalized.
pub proof fn law_generalize_whole(log: Seq<Event>, at: int, s: StateView, id: usize)
    requires
        s.wf(),
        id < s.obligations.len(),
        s.obligations[id as int].frame < usize::MAX,
    ensures
        generalize_run(log, at, s, id) matches Some((r, s2, at2)) ==> {
            let po = s.obligations[id as int];
            &&& !s.options.ic3.inn ==> generalize_core_run(log, at, s, id) == Some((r, s2, at2))
            &&& s.options.ic3.inn ==> asked(log, at, Call::CubeSubsumeInit { cube: po.lemma })
            &&& s.options.ic3.inn && !yes(log, at) ==> generalize_core_run(log, at + 1, s, id)
                == Some((r, s2, at2))
            &&& s.options.ic3.inn && yes(log, at) ==> {
                &&& asked(log, at + 1, Call::AddObligation { id, po: s2.obligations[id as int] })
                &&& asked(
                    log,
                    at + 2,
                    Call::AddLemma {
                        frame: po.frame,
                        cube: po.lemma,
                        contained_check: false,
                        owner: Some(id),
                    },
                )
                &&& r == Ok::<bool, Fault>(yes(log, at + 2))
                &&& relocated(s, s2, id, po.frame + 1)
                &&& at2 == at + 3
            }
        },
{
    reveal(generalize_run);
}

/// What an arm is rewarded for: the lengths and frames as they are; whether the lemma moved,
/// whether it got to the last frame, and whether one literal is left. It is a good one where more
/// than half of the literals are gone and the lemma went more than three tenths of the way; and
/// overdone where more than seven tenths are gone and it went less than one tenth.
pub proof fn law_reward(
    length: usize,
    shortened: usize,
    frame: usize,
    reached: usize,
    level: usize,
)
    ensures
        ({
            let terms = reward_of(length, shortened, frame, reached, level);
            let gone = length - shortened;
            let way = reached - frame;
            let all = level - frame + 1;
            &&& terms.length == length && terms.shortened == shortened
            &&& terms.frame == frame && terms.reached == reached && terms.level == level
            &&& terms.pushed <==> way > 0
            &&& terms.frontier <==> reached >= level
            &&& terms.unit <==> shortened == 1
            &&& terms.grade == Grade::Good <==> length > 0 && all > 0 && 2 * gone > length && 10
                * way > 3 * all
            &&& terms.grade == Grade::Overdone <==> length > 0 && 10 * gone > 7 * length && (all
                <= 0 || 10 * way < all)
        }),
{
}

/// The way to generalize that the options alone call for: several cubes where more than one is
/// wanted, and predecessors are blocked, one level deep and within the limits of the options, only
/// where the options ask for it.
pub proof fn law_chosen(options: Options)
    ensures
        match MicType::chosen_by(options) {
            MicType::NoMic => false,
            MicType::DropVar(p) => options.ic3.multi_clauses <= 1 && chosen_effort(options, p),
            MicType::MultiClauses(p, n) => n > 1 && n == options.ic3.multi_clauses && chosen_effort(
                options,
                p,
            ),
        },
{
}

/// Whether an effort is the one that the options ask for.
pub open spec fn chosen_effort(options: Options, p: DropVarParameter) -> bool {
    if options.ic3.ctg {
        p.limit == options.ic3.ctg_limit && p.max == options.ic3.ctg_max && p.level == 1
    } else {
        p.limit == 0 && p.max == 0 && p.level == 0
    }
}

/// Obligations are worked off until there is none, or the question is settled: they are left only
/// where no round is. Each takes one round. A queue that is worked off is found empty by the last
/// request.
pub proof fn law_worked_off(log: Seq<Event>, at: int, s: StateView, rounds: u64)
    ensures
        block_run(log, at, s, rounds) matches Some((r, s2, left, at2)) ==> {
            &&& left <= rounds
            &&& rounds > 0 ==> asked(log, at, Call::PopObligation { level: s.level() })
            &&& rounds > 0 ==> (turn_run(log, at, s) matches Some((t, s1, at1)) && if t == Ok::<
                Turn,
                Fault,
            >(Turn::More) {
                block_run(log, at1, s1, (rounds - 1) as u64) == Some((r, s2, left, at2))
            } else {
                r == t && s2 == s1 && at2 == at1 && left == rounds - 1
            })
            &&& r == Ok::<Turn, Fault>(Turn::More) ==> left == 0
            &&& r == Ok::<Turn, Fault>(Turn::Drained) ==> left < rounds && (
            log[at2 - 1].call is PopObligation) && log[at2 - 1].reply->Index_0 is None
        },
    decreases rounds,
{
    reveal(block_run);
    if rounds > 0 {
        law_turn(log, at, s);
        if let Some((Ok(Turn::More), s2, at2)) = turn_run(log, at, s) {
            law_worked_off(log, at2, s2, (rounds - 1) as u64);
        }
    }
}

/// The search works off obligations first. Where none is left, it asks for a bad state in the last
/// frame. Where there is one, it becomes an obligation of that frame that leads directly to the bad
/// state, with the inputs that were given, and is queued. Where there is none, one more frame is
/// made. It ends without an answer only where the rounds are used up.
pub proof fn law_search(log: Seq<Event>, at: int, s: StateView, rounds: u64)
    requires
        search_run(log, at, s, rounds) is Some,
    ensures
        ({
            let (r, s3, at3) = search_run(log, at, s, rounds)->0;
            &&& block_run(log, at, s, rounds) matches Some((t, s2, left, at2)) && {
                let model = log[at2].reply->BadState_0;
                &&& t matches Err(f) ==> r == Err::<Option<bool>, Fault>(f)
                &&& t == Ok::<Turn, Fault>(Turn::More) ==> r == Ok::<Option<bool>, Fault>(None)
                    && left == 0
                &&& t == Ok::<Turn, Fault>(Turn::Reached) ==> r == Ok::<Option<bool>, Fault>(
                    Some(false),
                ) && s3 == s2 && at3 == at2
                &&& t == Ok::<Turn, Fault>(Turn::Proved) ==> r == Ok::<Option<bool>, Fault>(
                    Some(true),
                ) && s3 == s2 && at3 == at2 + 1 && log[at2].call == Call::Verify
                &&& t == Ok::<Turn, Fault>(Turn::Drained) ==> asked(
                    log,
                    at2,
                    Call::GetBad { level: s2.level() },
                )
                &&& t == Ok::<Turn, Fault>(Turn::Drained) ==> (model matches Some((bad, input)) ==> {
                    &&& log[at2 + 1].call matches Call::AddObligation { id, po } && {
                        &&& id == s2.obligations.len() as usize
                        &&& po.frame == s2.level() && po.depth == 0 && po.next is None
                        &&& po.input == input
                        &&& sorts(po.lemma, bad)
                        &&& search_run(
                            log,
                            at2 + 2,
                            StateView { obligations: s2.obligations.push(po), ..s2 },
                            left,
                        ) == Some((r, s3, at3))
                    }
                })
                &&& t == Ok::<Turn, Fault>(Turn::Drained) && model is None ==> (
                advance_level_run(log, at2 + 1, s2) matches Some((a, s4, at4)) && match a {
                    Err(f) => r == Err::<Option<bool>, Fault>(f),
                    Ok(true) => r == Ok::<Option<bool>, Fault>(Some(true)) && s3 == s4 && at3
                        == at4,
                    Ok(false) => search_run(log, at4, s4, left) == Some((r, s3, at3)),
                })
            }
        }),
{
    reveal(search_run);
    law_worked_off(log, at, s, rounds);
    let (t, s2, left, at2) = block_run(log, at, s, rounds)->0;
    if let Some((bad, input)) = log[at2].reply->BadState_0 {
        law_sorted(bad);
        let po = last_obligation(s2.level(), bad, input);
        assert(s2.with_obligation(po) == StateView { obligations: s2.obligations.push(po), ..s2 });
    }
}

/// Generalization goes by the options and by the number of the last frame: one less than there are
/// solvers, or that of the first where there is none yet.
pub proof fn law_setting(s: StateView)
    ensures
        s.solvers > 0 ==> s.level() == s.solvers - 1,
        s.solvers == 0 ==> s.level() == 0,
        s.setting().level == s.level(),
        s.setting().order.hybrid == s.options.ic3.hybrid_sort,
        s.setting().order.topo == s.options.ic3.topo_sort,
        s.setting().order.reverse == s.options.ic3.reverse_sort,
{
}

} // verus!
