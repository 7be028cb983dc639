//! How the efforts compare, and what chooses the same one.

use vstd::prelude::*;

use crate::effort::{arm_run, best_of, scores_at, strategy_run};
use crate::heuristic::{is_best, Profile, CTX_TOTAL_MIC_ARMS};
use crate::obligation::ObligationView;
use crate::param::{DropVarParameter, MicType};
use crate::session::{asked, Call, Event};
use crate::state::{linked, window_of, StateView};

verus! {

/// Whether one effort allows all that another does.
pub open spec fn allows(more: DropVarParameter, less: DropVarParameter) -> bool {
    more.limit >= less.limit && more.max >= less.max && more.level >= less.level
}

/// The aggressive effort allows all that the balanced one does at the same activity, and some
/// nesting at any. This holds wherever the limits that the two take from a high activity compare
/// in that way: the aggressive one is not zero, and not below the balanced one.
pub proof fn law_aggressive(act: u64, aggressive: usize, balanced: usize)
    requires
        act >= Profile::Aggressive.exctg_from() ==> aggressive > 0,
        act >= Profile::Balanced.exctg_from() ==> aggressive >= balanced,
    ensures
        allows(
            Profile::Aggressive.effort_spec(act, aggressive),
            Profile::Balanced.effort_spec(act, balanced),
        ),
        allows(Profile::Aggressive.idle_spec(), Profile::Balanced.idle_spec()),
        ({
            let p = Profile::Aggressive.effort_spec(act, aggressive);
            p.limit > 0 && p.max > 0 && p.level == 1
        }),
        ({
            let p = Profile::Aggressive.idle_spec();
            p.limit > 0 && p.max > 0 && p.level == 1
        }),
{
}

/// The conservative effort allows nothing that the balanced one does not at the same activity.
/// This holds wherever the limits that the two take from a high activity compare in that way: the
/// balanced one is not zero, and not below the conservative one.
pub proof fn law_conservative(act: u64, conservative: usize, balanced: usize)
    requires
        act >= Profile::Balanced.exctg_from() ==> balanced > 0,
        act >= Profile::Conservative.exctg_from() ==> conservative <= balanced,
    ensures
        allows(
            Profile::Balanced.effort_spec(act, balanced),
            Profile::Conservative.effort_spec(act, conservative),
        ),
        allows(Profile::Balanced.idle_spec(), Profile::Conservative.idle_spec()),
{
}

/// Choosing by activity is what the first arm does: where the answers about the activity are the
/// same, both call for the same effort, after the same requests.
pub proof fn law_dynamic(
    log: Seq<Event>,
    at: int,
    s: StateView,
    other: Seq<Event>,
    start: int,
    chosen: int,
    t: StateView,
    id: usize,
)
    requires
        !s.options.ic3.enable_ctx_mab,
        s.options.ic3.dynamic,
        t.options.ic3.enable_ctx_mab,
        t.obligations == s.obligations,
        asked(
            other,
            start,
            Call::ObserveContext { id, po: t.obligations[id as int], level: t.level() },
        ),
        arm_run(other, start + 1) == Some((0int, chosen)),
        0 <= at <= log.len(),
        0 <= chosen <= other.len(),
        other.skip(chosen) == log.skip(at),
    ensures
        match strategy_run(log, at, s, id) {
            None => strategy_run(other, start, t, id) is None,
            Some((_, mic_type, _, end)) => strategy_run(other, start, t, id) == Some(
                (0usize, mic_type, t.pulled(0), chosen + (end - at)),
            ),
        },
{
    assert(log.skip(at).len() == log.len() - at);
    assert(other.skip(chosen).len() == other.len() - chosen);
    if at < log.len() {
        assert(log.skip(at)[0] == log[at] && other.skip(chosen)[0] == other[chosen]);
    }
    if at + 1 < log.len() {
        assert(log.skip(at)[1] == log[at + 1] && other.skip(chosen)[1] == other[chosen + 1]);
    }
}

/// Whether some numbers are those of the obligations that one leads to, one after the other: the
/// first is the one that it leads to itself, and each leads to the one after it. There are `n` of
/// them, or as many as there are up to the bad state.
pub open spec fn ahead(
    obligations: Seq<ObligationView>,
    id: usize,
    n: nat,
    window: Seq<usize>,
) -> bool {
    let depth = obligations[id as int].depth as nat;
    &&& window.len() == if n < depth {
        n
    } else {
        depth
    }
    &&& window.len() > 0 ==> obligations[id as int].next == Some(window[0])
    &&& forall|j: int|
        0 < j < window.len() ==> obligations[window[j - 1] as int].next == Some(
            #[trigger] window[j],
        )
}

/// The obligations that are looked at ahead of one are those that it leads to, one after the
/// other, `n` of them or as many as there are.
pub proof fn law_window(s: StateView, id: usize, n: nat)
    requires
        s.wf(),
        id < s.obligations.len(),
    ensures
        ahead(s.obligations, id, n, window_of(s.obligations, id, n)),
    decreases n,
{
    assert(linked(s.obligations, id as int));
    if n > 0 {
        if let Some(k) = s.obligations[id as int].next {
            law_window(s, k, (n - 1) as nat);
            let rest = window_of(s.obligations, k, (n - 1) as nat);
            let window = window_of(s.obligations, id, n);
            assert forall|j: int| 0 < j < window.len() implies s.obligations[window[j
                - 1] as int].next == Some(#[trigger] window[j]) by {
                assert(window[j] == rest[j - 1]);
                if j > 1 {
                    assert(window[j - 1] == rest[j - 2]);
                }
            }
        }
    }
}

/// The effort that goes by activity is chosen by the three obligations ahead, or as many as there
/// are: every request about activity names them. Nothing is asked only where there are none, and
/// then the effort is the one for that. Otherwise the activity that is answered decides: below a
/// first bound little is done, from a second on the limit is asked for.
pub proof fn law_activity(log: Seq<Event>, at: int, s: StateView, id: usize)
    requires
        s.wf(),
        id < s.obligations.len(),
        !s.options.ic3.enable_ctx_mab,
        s.options.ic3.dynamic,
    ensures
        strategy_run(log, at, s, id) matches Some((arm, mic_type, s2, at2)) ==> {
            &&& s2 == s
            &&& s.obligations[id as int].next is None ==> {
                &&& at2 == at
                &&& mic_type == MicType::DropVar(DropVarParameter { limit: 0, max: 0, level: 0 })
            }
            &&& s.obligations[id as int].next is Some ==> {
                let act = log[at].reply->Whole_0;
                &&& log[at].call matches Call::PeakAct { window } && ahead(
                    s.obligations,
                    id,
                    3,
                    window,
                )
                &&& act < 10 ==> at2 == at + 1 && mic_type == MicType::DropVar(
                    DropVarParameter { limit: 0, max: 0, level: 0 },
                )
                &&& 10 <= act < 40 ==> at2 == at + 1 && mic_type == MicType::DropVar(
                    DropVarParameter { limit: 1, max: ((act - 10) / 10 + 2) as usize, level: 1 },
                )
                &&& act >= 40 ==> at2 == at + 2 && mic_type == MicType::DropVar(
                    DropVarParameter { limit: log[at + 1].reply->Size_0, max: 5, level: 1 },
                ) && (log[at + 1].call matches Call::ExctgLimit { window, profile } && ahead(
                    s.obligations,
                    id,
                    3,
                    window,
                ) && profile is Balanced)
            }
        },
{
    law_window(s, id, 3);
    assert(linked(s.obligations, id as int));
}

/// The profile of an arm that goes by activity.
pub open spec fn profile_of(arm: usize) -> Profile {
    match arm {
        0 => Profile::Balanced,
        1 => Profile::Aggressive,
        _ => Profile::Conservative,
    }
}

/// The effort of an arm that does not: from none up.
pub open spec fn fixed_effort(arm: usize) -> DropVarParameter {
    match arm {
        3 => DropVarParameter { limit: 0, max: 0, level: 0 },
        4 => DropVarParameter { limit: 1, max: 3, level: 1 },
        5 => DropVarParameter { limit: 2, max: 5, level: 1 },
        _ => DropVarParameter { limit: 8, max: 4, level: 1 },
    }
}

/// Where arms are in use, each is asked for its score, the one that is chosen has the highest, and
/// the first of those is taken. It is counted once more, and nothing else changes. The first three
/// go by the obligations ahead, each with a profile of its own; the others do not look at them.
pub proof fn law_arm(log: Seq<Event>, at: int, s: StateView, id: usize)
    requires
        s.wf(),
        id < s.obligations.len(),
        s.options.ic3.enable_ctx_mab,
    ensures
        strategy_run(log, at, s, id) matches Some((arm, mic_type, s2, at2)) ==> {
            let first = at + 1;
            let next = first + CTX_TOTAL_MIC_ARMS;
            &&& log[at].call == (Call::ObserveContext {
                id,
                po: s.obligations[id as int],
                level: s.level(),
            })
            &&& arm < CTX_TOTAL_MIC_ARMS
            &&& forall|k: int|
                #![trigger log[first + k]]
                0 <= k < CTX_TOTAL_MIC_ARMS ==> {
                    &&& log[first + k].call == (Call::ArmScore { arm: k as usize })
                    &&& log[first + k].reply->Score_0 <= log[first + arm].reply->Score_0
                    &&& k < arm ==> log[first + k].reply->Score_0 < log[first + arm].reply->Score_0
                }
            &&& s2 == (StateView { arm_pulls: s2.arm_pulls, ..s })
            &&& s2.arm_pulls.len() == s.arm_pulls.len()
            &&& forall|k: int|
                0 <= k < s.arm_pulls.len() ==> #[trigger] s2.arm_pulls[k] == if k == arm
                    && s.arm_pulls[k] < usize::MAX {
                    s.arm_pulls[k] + 1
                } else {
                    s.arm_pulls[k] as int
                }
            &&& arm >= 3 || s.obligations[id as int].next is None <==> at2 == next
            &&& at2 > next ==> (log[next].call matches Call::PeakAct { window } && ahead(
                s.obligations,
                id,
                3,
                window,
            ))
            &&& at2 > next + 1 ==> at2 == next + 2 && (log[next + 1].call matches Call::ExctgLimit {
                window,
                profile,
            } && profile == profile_of(arm) && ahead(s.obligations, id, 3, window))
            &&& mic_type == MicType::DropVar(
                if arm >= 3 {
                    fixed_effort(arm)
                } else if at2 == next {
                    profile_of(arm).idle_spec()
                } else {
                    profile_of(arm).effort_spec(
                        log[next].reply->Whole_0,
                        if at2 == next + 1 {
                            0
                        } else {
                            log[next + 1].reply->Size_0
                        },
                    )
                },
            )
            &&& at2 == next + 1 ==> log[next].reply->Whole_0 < profile_of(arm).exctg_from()
            &&& at2 == next + 2 ==> log[next].reply->Whole_0 >= profile_of(arm).exctg_from()
        },
{
    law_window(s, id, 3);
    assert(linked(s.obligations, id as int));
    if strategy_run(log, at, s, id) is Some {
        let scores = scores_at(log, at + 1);
        lemma_some_best(scores, scores.len() as int);
        let best = best_of(scores);
        assert(is_best(scores, best));
        assert forall|k: int|
            #![trigger log[at + 1 + k]]
            0 <= k < CTX_TOTAL_MIC_ARMS implies log[at + 1 + k].call == (Call::ArmScore {
            arm: k as usize,
        }) && log[at + 1 + k].reply->Score_0 <= log[at + 1 + best].reply->Score_0 && (k < best
            ==> log[at + 1 + k].reply->Score_0 < log[at + 1 + best].reply->Score_0) by {
            assert(asked(log, at + 1 + k, Call::ArmScore { arm: k as usize }));
            assert(scores[k] == log[at + 1 + k].reply->Score_0);
            assert(scores[best] == log[at + 1 + best].reply->Score_0);
        }
    }
}

/// Among the first scores there is a best one.
proof fn lemma_some_best(scores: Seq<i64>, n: int)
    requires
        0 < n <= scores.len(),
    ensures
        exists|best: int| is_best(scores.take(n), best),
        n == scores.len() ==> exists|best: int| is_best(scores, best),
    decreases n,
{
    let part = scores.take(n);
    if n == 1 {
        assert(is_best(part, 0));
    } else {
        lemma_some_best(scores, n - 1);
        let before = scores.take(n - 1);
        let best = choose|best: int| is_best(before, best);
        assert forall|k: int| 0 <= k < n - 1 implies #[trigger] part[k] == before[k] by {}
        if part[n - 1] > part[best] {
            assert(is_best(part, n - 1));
        } else {
            assert(is_best(part, best));
        }
    }
    if n == scores.len() {
        assert(part =~= scores);
    }
}

/// How much is done at an activity: nothing below a first bound, except that the aggressive
/// profile does a little at any; from that bound on the more the higher the activity is; and from
/// a second on as much as the limit says, which the conservative profile caps.
pub proof fn law_bounds(act: u64, limit: usize)
    ensures
        ({
            let p = Profile::Balanced.effort_spec(act, limit);
            &&& act < 10 ==> p == (DropVarParameter { limit: 0, max: 0, level: 0 })
            &&& 10 <= act < 40 ==> p.limit == 1 && p.level == 1 && 10 * (p.max - 2) <= act - 10
                < 10 * (p.max - 1)
            &&& act >= 40 ==> p == (DropVarParameter { limit, max: 5, level: 1 })
            &&& Profile::Balanced.exctg_from() == 40
        }),
        ({
            let p = Profile::Aggressive.effort_spec(act, limit);
            &&& act < 5 ==> p == (DropVarParameter { limit: 1, max: 1, level: 1 })
            &&& 5 <= act < 25 ==> p.limit == 2 && p.level == 1 && 8 * (p.max - 3) <= act - 5 < 8 * (
            p.max - 2)
            &&& act >= 25 ==> p == (DropVarParameter { limit, max: 6, level: 1 })
            &&& Profile::Aggressive.exctg_from() == 25
            &&& Profile::Aggressive.idle_spec() == (DropVarParameter { limit: 1, max: 1, level: 1 })
        }),
        ({
            let p = Profile::Conservative.effort_spec(act, limit);
            &&& act < 15 ==> p == (DropVarParameter { limit: 0, max: 0, level: 0 })
            &&& 15 <= act < 39 ==> p.limit == 1 && p.level == 0 && 12 * (p.max - 1) <= act - 15
                < 12 * p.max
            &&& 39 <= act < 50 ==> p == (DropVarParameter { limit: 1, max: 3, level: 0 })
            &&& act >= 50 ==> p.max == 3 && p.level == 1 && p.limit <= 6 && p.limit <= limit && (
            p.limit == 6 || p.limit == limit)
            &&& Profile::Conservative.exctg_from() == 50
        }),
{
}

} // verus!
