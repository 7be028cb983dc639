//! The rules that choose how hard to generalize a cube, and those that judge the result.

use vstd::prelude::*;

use crate::param::DropVarParameter;

verus! {

/// How readily an arm spends effort on active obligations.
#[derive(Clone, Copy, PartialEq, Eq, Structural, Debug)]
pub enum Profile {
    Balanced,
    Aggressive,
    Conservative,
}

impl Profile {
    /// The activity from which on counterexamples to generalization are blocked.
    pub open spec fn ctg_from(self) -> u64 {
        match self {
            Profile::Balanced => 10,
            Profile::Aggressive => 5,
            Profile::Conservative => 15,
        }
    }

    /// The activity from which on many nested attempts are allowed.
    pub open spec fn exctg_from(self) -> u64 {
        match self {
            Profile::Balanced => 40,
            Profile::Aggressive => 25,
            Profile::Conservative => 50,
        }
    }

    /// The effort for an obligation that nothing comes after.
    pub open spec fn idle_spec(self) -> DropVarParameter {
        match self {
            Profile::Aggressive => DropVarParameter { limit: 1, max: 1, level: 1 },
            _ => DropVarParameter::zero(),
        }
    }

    /// The effort for an activity with the given whole part, and the limit that a high activity
    /// calls for.
    pub open spec fn effort_spec(self, act: u64, limit: usize) -> DropVarParameter {
        if act >= self.exctg_from() {
            match self {
                Profile::Balanced => DropVarParameter { limit, max: 5, level: 1 },
                Profile::Aggressive => DropVarParameter { limit, max: 6, level: 1 },
                Profile::Conservative => DropVarParameter {
                    limit: if limit < 6 {
                        limit
                    } else {
                        6
                    },
                    max: 3,
                    level: 1,
                },
            }
        } else if act >= self.ctg_from() {
            let above = act - self.ctg_from();
            match self {
                Profile::Balanced => DropVarParameter {
                    limit: 1,
                    max: (above / 10 + 2) as usize,
                    level: 1,
                },
                Profile::Aggressive => DropVarParameter {
                    limit: 2,
                    max: (above / 8 + 3) as usize,
                    level: 1,
                },
                Profile::Conservative => DropVarParameter {
                    limit: 1,
                    max: if above / 12 + 1 < 3 {
                        (above / 12 + 1) as usize
                    } else {
                        3
                    },
                    level: 0,
                },
            }
        } else {
            self.idle_spec()
        }
    }

    /// The activity from which on many nested attempts are allowed.
    pub fn exctg_threshold(self) -> (r: u64)
        ensures
            r == self.exctg_from(),
    {
        match self {
            Profile::Balanced => 40,
            Profile::Aggressive => 25,
            Profile::Conservative => 50,
        }
    }

    /// The effort for an obligation that nothing comes after.
    pub fn idle(self) -> (r: DropVarParameter)
        ensures
            r == self.idle_spec(),
    {
        match self {
            Profile::Aggressive => DropVarParameter::new(1, 1, 1),
            _ => DropVarParameter::default(),
        }
    }

    /// The effort for an activity with the given whole part, and the limit that a high activity
    /// calls for.
    pub fn effort(self, act: u64, limit: usize) -> (r: DropVarParameter)
        ensures
            r == self.effort_spec(act, limit),
    {
        match self {
            Profile::Balanced => calculate_balanced_heuristic_mic_params(act, limit),
            Profile::Aggressive => calculate_aggressive_heuristic_mic_params(act, limit),
            Profile::Conservative => calculate_conservative_heuristic_mic_params(act, limit),
        }
    }
}

/// The balanced effort.
pub fn calculate_balanced_heuristic_mic_params(act: u64, limit: usize) -> (r: DropVarParameter)
    ensures
        r == Profile::Balanced.effort_spec(act, limit),
{
    if act >= 40 {
        DropVarParameter::new(limit, 5, 1)
    } else if act >= 10 {
        let max: usize = ((act - 10) / 10 + 2) as usize;
        DropVarParameter::new(1, max, 1)
    } else {
        DropVarParameter::new(0, 0, 0)
    }
}

/// The aggressive effort: lower thresholds, and nested attempts at any activity.
pub fn calculate_aggressive_heuristic_mic_params(act: u64, limit: usize) -> (r: DropVarParameter)
    ensures
        r == Profile::Aggressive.effort_spec(act, limit),
{
    if act >= 25 {
        DropVarParameter::new(limit, 6, 1)
    } else if act >= 5 {
        let max: usize = ((act - 5) / 8 + 3) as usize;
        DropVarParameter::new(2, max, 1)
    } else {
        DropVarParameter::new(1, 1, 1)
    }
}

/// The conservative effort: higher thresholds, and capped.
pub fn calculate_conservative_heuristic_mic_params(act: u64, limit: usize) -> (r: DropVarParameter)
    ensures
        r == Profile::Conservative.effort_spec(act, limit),
{
    if act >= 50 {
        DropVarParameter::new(
            if limit < 6 {
                limit
            } else {
                6
            },
            3,
            1,
        )
    } else if act >= 15 {
        let above: u64 = (act - 15) / 12 + 1;
        DropVarParameter::new(
            1,
            if above < 3 {
                above as usize
            } else {
                3
            },
            0,
        )
    } else {
        DropVarParameter::new(0, 0, 0)
    }
}

/// The number of arms whose effort depends on activity.
pub const NUM_DYNAMIC_HEURISTIC_ARMS: usize = 3;

/// The number of arms with a fixed effort.
pub const NUM_FIXED_MIC_CONFIG_ARMS: usize = 4;

/// The number of arms.
pub const CTX_TOTAL_MIC_ARMS: usize = NUM_DYNAMIC_HEURISTIC_ARMS + NUM_FIXED_MIC_CONFIG_ARMS;

/// What an arm does.
#[derive(Clone, Copy, PartialEq, Eq, Structural, Debug)]
pub enum Arm {
    /// An effort that depends on activity.
    Heuristic(Profile),
    /// A fixed effort.
    Fixed(DropVarParameter),
}

/// What the arm of a number does: the first three go by activity, and the others are fixed.
pub open spec fn arm_of(arm: int) -> Arm {
    if arm == 0 {
        Arm::Heuristic(Profile::Balanced)
    } else if arm == 1 {
        Arm::Heuristic(Profile::Aggressive)
    } else if arm == 2 {
        Arm::Heuristic(Profile::Conservative)
    } else if arm == 3 {
        Arm::Fixed(DropVarParameter { limit: 0, max: 0, level: 0 })
    } else if arm == 4 {
        Arm::Fixed(DropVarParameter { limit: 1, max: 3, level: 1 })
    } else if arm == 5 {
        Arm::Fixed(DropVarParameter { limit: 2, max: 5, level: 1 })
    } else {
        Arm::Fixed(DropVarParameter { limit: 8, max: 4, level: 1 })
    }
}

/// What the arm of a number does.
pub fn describe_arm(arm: usize) -> (r: Arm)
    requires
        arm < CTX_TOTAL_MIC_ARMS,
    ensures
        r == arm_of(arm as int),
{
    if arm == 0 {
        Arm::Heuristic(Profile::Balanced)
    } else if arm == 1 {
        Arm::Heuristic(Profile::Aggressive)
    } else if arm == 2 {
        Arm::Heuristic(Profile::Conservative)
    } else if arm == 3 {
        Arm::Fixed(DropVarParameter::new(0, 0, 0))
    } else if arm == 4 {
        Arm::Fixed(DropVarParameter::new(1, 3, 1))
    } else if arm == 5 {
        Arm::Fixed(DropVarParameter::new(2, 5, 1))
    } else {
        Arm::Fixed(DropVarParameter::new(8, 4, 1))
    }
}

/// Whether `best` is the first of the highest scores.
pub open spec fn is_best(scores: Seq<i64>, best: int) -> bool {
    &&& 0 <= best < scores.len()
    &&& forall|i: int| 0 <= i < best ==> #[trigger] scores[i] < scores[best]
    &&& forall|i: int| best <= i < scores.len() ==> #[trigger] scores[i] <= scores[best]
}

/// The first arm with the highest score.
pub fn best_arm(scores: &Vec<i64>) -> (r: usize)
    requires
        scores.len() > 0,
    ensures
        is_best(scores@, r as int),
{
    let mut best: usize = 0;
    let mut i: usize = 1;
    while i < scores.len()
        invariant
            best < i <= scores.len(),
            is_best(scores@.take(i as int), best as int),
        decreases scores.len() - i,
    {
        let ghost before = scores@.take(i as int);
        let ghost after = scores@.take(i + 1);
        assert forall|k: int| 0 <= k < i implies #[trigger] after[k] == before[k] by {}
        if scores[i] > scores[best] {
            best = i;
        }
        i = i + 1;
        assert(is_best(scores@.take(i as int), best as int));
    }
    assert(scores@.take(scores@.len() as int) =~= scores@);
    best
}

/// How well the length of a cube and the frame it reached go together.
#[derive(Clone, Copy, PartialEq, Eq, Structural, Debug)]
pub enum Grade {
    /// Less than half as long, and pushed more than three tenths of the way.
    Good,
    /// Less than three tenths as long, but pushed less than a tenth of the way.
    Overdone,
    /// Neither.
    Plain,
}

/// What the reward of an arm is computed from.
#[derive(Clone, Copy, PartialEq, Eq, Structural, Debug)]
pub struct RewardTerms {
    /// The length of the cube before it was generalized.
    pub length: usize,
    /// The length of the cube after it was generalized.
    pub shortened: usize,
    /// The frame of the obligation.
    pub frame: usize,
    /// The first frame that the lemma did not reach.
    pub reached: usize,
    /// The last frame.
    pub level: usize,
    /// Whether the lemma moved past the frame of the obligation.
    pub pushed: bool,
    /// Whether the lemma reached the last frame.
    pub frontier: bool,
    /// Whether a single literal is left.
    pub unit: bool,
    /// How well length and frame go together.
    pub grade: Grade,
}

/// Whether the share `part / whole` exceeds the given number of tenths; the share of nothing is 0.
pub open spec fn exceeds(part: int, whole: int, tenths: int) -> bool {
    if whole > 0 {
        10 * part > tenths * whole
    } else {
        0 > tenths
    }
}

/// Whether the share `part / whole` falls below the given number of tenths; the share of nothing
/// is 0.
pub open spec fn falls_below(part: int, whole: int, tenths: int) -> bool {
    if whole > 0 {
        10 * part < tenths * whole
    } else {
        0 < tenths
    }
}

/// The grade of a generalization.
pub open spec fn grade_of(
    length: usize,
    shortened: usize,
    frame: usize,
    reached: usize,
    level: usize,
) -> Grade {
    let cut = length - shortened;
    let push = reached - frame;
    let room = level - frame + 1;
    if exceeds(cut, length as int, 5) && exceeds(push, room, 3) {
        Grade::Good
    } else if exceeds(cut, length as int, 7) && falls_below(push, room, 1) {
        Grade::Overdone
    } else {
        Grade::Plain
    }
}

/// The terms of the reward for a generalization.
pub open spec fn reward_of(
    length: usize,
    shortened: usize,
    frame: usize,
    reached: usize,
    level: usize,
) -> RewardTerms {
    RewardTerms {
        length,
        shortened,
        frame,
        reached,
        level,
        pushed: reached > frame,
        frontier: reached >= level,
        unit: shortened == 1,
        grade: grade_of(length, shortened, frame, reached, level),
    }
}

/// The terms of the reward for a generalization.
pub fn reward_terms(
    length: usize,
    shortened: usize,
    frame: usize,
    reached: usize,
    level: usize,
) -> (r: RewardTerms)
    ensures
        r == reward_of(length, shortened, frame, reached, level),
{
    let cut: i128 = length as i128 - shortened as i128;
    let push: i128 = reached as i128 - frame as i128;
    let room: i128 = level as i128 - frame as i128 + 1;
    let whole: i128 = length as i128;
    let grade: Grade = if whole > 0 && 10 * cut > 5 * whole && room > 0 && 10 * push > 3 * room {
        Grade::Good
    } else if whole > 0 && 10 * cut > 7 * whole && (room <= 0 || 10 * push < room) {
        Grade::Overdone
    } else {
        Grade::Plain
    };
    RewardTerms {
        length,
        shortened,
        frame,
        reached,
        level,
        pushed: reached > frame,
        frontier: reached >= level,
        unit: shortened == 1,
        grade,
    }
}

} // verus!
