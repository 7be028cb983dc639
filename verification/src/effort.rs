//! The choice of how to generalize the cube of an obligation.

use vstd::prelude::*;

use crate::engine::IC3;
use crate::heuristic::{
    arm_of, best_arm, describe_arm, is_best, Arm, Profile, CTX_TOTAL_MIC_ARMS,
};
use crate::multi::may_draw;
use crate::options::Options;
use crate::param::{DropVarParameter, MicType};
use crate::session::{asked, extends, Call, Event, Reasoner, Reply, Session};
use crate::state::{lemma_wf, window_of, StateView};

verus! {

/// The effort that a profile chooses by the activity of the given obligations.
pub open spec fn effort_run(
    log: Seq<Event>,
    at: int,
    profile: Profile,
    window: Seq<usize>,
) -> Option<(DropVarParameter, int)> {
    if window.len() == 0 {
        Some((profile.idle_spec(), at))
    } else if !asked(log, at, Call::PeakAct { window }) {
        None
    } else {
        let act = log[at].reply->Whole_0;
        if act < profile.exctg_from() {
            Some((profile.effort_spec(act, 0), at + 1))
        } else if asked(log, at + 1, Call::ExctgLimit { window, profile }) {
            Some((profile.effort_spec(act, log[at + 1].reply->Size_0), at + 2))
        } else {
            None
        }
    }
}

/// The scores of all arms, as the log from `at` on gives them.
pub open spec fn scores_at(log: Seq<Event>, at: int) -> Seq<i64> {
    Seq::new(CTX_TOTAL_MIC_ARMS as nat, |k: int| log[at + k].reply->Score_0)
}

/// The first of the numbers with the highest score.
pub open spec fn best_of(scores: Seq<i64>) -> int {
    choose|best: int| is_best(scores, best)
}

/// The arm with the best score, all arms being asked for theirs in turn.
pub open spec fn arm_run(log: Seq<Event>, at: int) -> Option<(int, int)> {
    if forall|k: int|
        0 <= k < CTX_TOTAL_MIC_ARMS ==> #[trigger] asked(
            log,
            at + k,
            Call::ArmScore { arm: k as usize },
        ) {
        Some((best_of(scores_at(log, at)), at + CTX_TOTAL_MIC_ARMS))
    } else {
        None
    }
}

/// The arm that is used, the way to generalize that it calls for, and the state after that.
pub open spec fn strategy_run(log: Seq<Event>, at: int, s: StateView, id: usize) -> Option<
    (usize, MicType, StateView, int),
> {
    let window = window_of(s.obligations, id, 3);
    if s.options.ic3.enable_ctx_mab {
        if !asked(
            log,
            at,
            Call::ObserveContext { id, po: s.obligations[id as int], level: s.level() },
        ) {
            None
        } else {
            match arm_run(log, at + 1) {
                None => None,
                Some((arm, at2)) => match arm_of(arm) {
                    Arm::Fixed(p) => Some((
                        arm as usize,
                        MicType::DropVar(p),
                        s.pulled(arm as usize),
                        at2,
                    )),
                    Arm::Heuristic(profile) => match effort_run(log, at2, profile, window) {
                        None => None,
                        Some((p, at3)) => Some((
                            arm as usize,
                            MicType::DropVar(p),
                            s.pulled(arm as usize),
                            at3,
                        )),
                    },
                },
            }
        }
    } else if s.options.ic3.dynamic {
        match effort_run(log, at, Profile::Balanced, window) {
            None => None,
            Some((p, at2)) => Some((0, MicType::DropVar(p), s, at2)),
        }
    } else {
        Some((0, MicType::chosen_by(s.options), s, at))
    }
}

/// Whether words may be drawn while obligations are worked off under some options: only where the
/// options alone choose the way to generalize, and ask for enough cubes.
pub open spec fn tosses(options: Options) -> bool {
    !options.ic3.enable_ctx_mab && !options.ic3.dynamic && may_draw(
        MicType::chosen_by(options),
        options.ic3.inn,
        options.ic3.hybrid_sort,
    )
}

/// There is at most one best score.
pub proof fn lemma_best(scores: Seq<i64>, best: int)
    requires
        is_best(scores, best),
    ensures
        best_of(scores) == best,
{
    let other = best_of(scores);
    assert(is_best(scores, other));
    assert(scores[best] <= scores[other] && scores[other] <= scores[best]);
}

impl<R: Reasoner> Session<R> {
    /// The effort that a profile chooses; see [`effort_run`].
    pub fn heuristic_effort(&mut self, profile: Profile, window: &Vec<usize>) -> (r:
        DropVarParameter)
        ensures
            final(self).asks(*old(self)),
            forall|l: Seq<Event>|
                extends(l, final(self).log()) ==> #[trigger] effort_run(
                    l,
                    old(self).log().len() as int,
                    profile,
                    window@,
                ) == Some((r, final(self).log().len() as int)),
    {
        if window.len() == 0 {
            return profile.idle();
        }
        let act: u64 = self.peak_act(window);
        let limit: usize = if act < profile.exctg_threshold() {
            0
        } else {
            self.exctg_limit(window, profile)
        };
        profile.effort(act, limit)
    }

    /// The arm with the best score; see [`arm_run`].
    pub fn choose_mic_arm_linucb(&mut self) -> (r: usize)
        ensures
            r < CTX_TOTAL_MIC_ARMS,
            final(self).asks(*old(self)),
            forall|l: Seq<Event>|
                extends(l, final(self).log()) ==> #[trigger] arm_run(
                    l,
                    old(self).log().len() as int,
                ) == Some((r as int, final(self).log().len() as int)),
    {
        let ghost start = self.log().len() as int;
        let mut scores: Vec<i64> = Vec::new();
        let mut arm: usize = 0;
        while arm < CTX_TOTAL_MIC_ARMS
            invariant
                arm <= CTX_TOTAL_MIC_ARMS,
                start == old(self).log().len(),
                self.log().len() == start + arm,
                self.asks(*old(self)),
                scores.len() == arm,
                forall|k: int|
                    0 <= k < arm ==> #[trigger] self.log()[start + k] == (Event {
                        call: Call::ArmScore { arm: k as usize },
                        reply: Reply::Score(scores[k]),
                    }),
            decreases CTX_TOTAL_MIC_ARMS - arm,
        {
            let ghost before = self.log();
            let score: i64 = self.arm_score(arm);
            scores.push(score);
            assert forall|k: int| 0 <= k < arm + 1 implies #[trigger] self.log()[start + k] == (
            Event { call: Call::ArmScore { arm: k as usize }, reply: Reply::Score(scores[k]) }) by {
                if k < arm {
                    assert(before[start + k] == self.log()[start + k]);
                }
            }
            arm = arm + 1;
        }
        let best: usize = best_arm(&scores);
        assert forall|l: Seq<Event>| extends(l, self.log()) implies #[trigger] arm_run(l, start)
            == Some((best as int, self.log().len() as int)) by {
            assert forall|k: int| 0 <= k < CTX_TOTAL_MIC_ARMS implies #[trigger] asked(
                l,
                start + k,
                Call::ArmScore { arm: k as usize },
            ) by {
                assert(l[start + k] == self.log()[start + k]);
            }
            assert forall|k: int| 0 <= k < CTX_TOTAL_MIC_ARMS implies (#[trigger] scores_at(
                l,
                start,
            )[k]) == scores@[k] by {
                assert(l[start + k] == self.log()[start + k]);
            }
            assert(scores_at(l, start) =~= scores@);
            lemma_best(scores@, best as int);
        }
        best
    }
}

impl<R: Reasoner> IC3<R> {
    /// The arm that is used for an obligation, and the way to generalize that it calls for; see
    /// [`strategy_run`].
    pub fn strategy(&mut self, id: usize) -> (r: (usize, MicType))
        requires
            old(self).state@.wf(),
            old(self).state@.solvers > 0,
            id < old(self).state@.obligations.len(),
        ensures
            final(self).state@.wf(),
            final(self).state@.obligations == old(self).state@.obligations,
            final(self).state@.solvers == old(self).state@.solvers,
            final(self).state@.options == old(self).state@.options,
            r.1 is NoMic == false,
            may_draw(
                r.1,
                old(self).state@.options.ic3.inn,
                old(self).state@.options.ic3.hybrid_sort,
            ) == tosses(old(self).state@.options),
            final(self).session.asks(old(self).session),
            forall|l: Seq<Event>|
                extends(l, final(self).session.log()) ==> #[trigger] strategy_run(
                    l,
                    old(self).session.log().len() as int,
                    old(self).state@,
                    id,
                ) == Some((r.0, r.1, final(self).state@, final(self).session.log().len() as int)),
    {
        proof {
            lemma_wf(self.state@);
        }
        assert(self.state@.obligations[id as int] == self.state.obligations[id as int]@);
        let window: Vec<usize> = self.state.window(id);
        if self.state.options.ic3.enable_ctx_mab {
            let level: usize = self.state.solvers - 1;
            self.session.observe_context(id, &self.state.obligations[id], level);
            let arm: usize = self.session.choose_mic_arm_linucb();
            self.state.pull(arm);
            let p: DropVarParameter = match describe_arm(arm) {
                Arm::Fixed(p) => p,
                Arm::Heuristic(profile) => self.session.heuristic_effort(profile, &window),
            };
            (arm, MicType::DropVar(p))
        } else if self.state.options.ic3.dynamic {
            let p: DropVarParameter = self.session.heuristic_effort(Profile::Balanced, &window);
            (0, MicType::DropVar(p))
        } else {
            (0, MicType::from_options(&self.state.options))
        }
    }
}

} // verus!
