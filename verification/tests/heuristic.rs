use ic3::heuristic::{
    best_arm, calculate_aggressive_heuristic_mic_params, calculate_balanced_heuristic_mic_params,
    calculate_conservative_heuristic_mic_params, describe_arm, reward_terms, Arm, Grade, Profile,
    CTX_TOTAL_MIC_ARMS, NUM_DYNAMIC_HEURISTIC_ARMS, NUM_FIXED_MIC_CONFIG_ARMS,
};
use ic3::param::DropVarParameter;

fn p(limit: usize, max: usize, level: usize) -> DropVarParameter {
    DropVarParameter::new(limit, max, level)
}

#[test]
fn balanced_effort() {
    assert_eq!(calculate_balanced_heuristic_mic_params(0, 9), p(0, 0, 0));
    assert_eq!(calculate_balanced_heuristic_mic_params(9, 9), p(0, 0, 0));
    assert_eq!(calculate_balanced_heuristic_mic_params(10, 9), p(1, 2, 1));
    assert_eq!(calculate_balanced_heuristic_mic_params(19, 9), p(1, 2, 1));
    assert_eq!(calculate_balanced_heuristic_mic_params(20, 9), p(1, 3, 1));
    assert_eq!(calculate_balanced_heuristic_mic_params(39, 9), p(1, 4, 1));
    assert_eq!(calculate_balanced_heuristic_mic_params(40, 9), p(9, 5, 1));
    assert_eq!(calculate_balanced_heuristic_mic_params(u64::MAX, 50), p(50, 5, 1));
}

#[test]
fn aggressive_effort() {
    assert_eq!(calculate_aggressive_heuristic_mic_params(4, 9), p(1, 1, 1));
    assert_eq!(calculate_aggressive_heuristic_mic_params(5, 9), p(2, 3, 1));
    assert_eq!(calculate_aggressive_heuristic_mic_params(13, 9), p(2, 4, 1));
    assert_eq!(calculate_aggressive_heuristic_mic_params(24, 9), p(2, 5, 1));
    assert_eq!(calculate_aggressive_heuristic_mic_params(25, 9), p(9, 6, 1));
}

#[test]
fn conservative_effort() {
    assert_eq!(calculate_conservative_heuristic_mic_params(14, 9), p(0, 0, 0));
    assert_eq!(calculate_conservative_heuristic_mic_params(15, 9), p(1, 1, 0));
    assert_eq!(calculate_conservative_heuristic_mic_params(27, 9), p(1, 2, 0));
    assert_eq!(calculate_conservative_heuristic_mic_params(39, 9), p(1, 3, 0));
    assert_eq!(calculate_conservative_heuristic_mic_params(49, 9), p(1, 3, 0));
    assert_eq!(calculate_conservative_heuristic_mic_params(50, 9), p(6, 3, 1));
    assert_eq!(calculate_conservative_heuristic_mic_params(50, 4), p(4, 3, 1));
}

#[test]
fn idle_effort() {
    assert_eq!(Profile::Balanced.idle(), p(0, 0, 0));
    assert_eq!(Profile::Aggressive.idle(), p(1, 1, 1));
    assert_eq!(Profile::Conservative.idle(), p(0, 0, 0));
    assert_eq!(Profile::Balanced.exctg_threshold(), 40);
    assert_eq!(Profile::Aggressive.exctg_threshold(), 25);
    assert_eq!(Profile::Conservative.exctg_threshold(), 50);
    assert_eq!(Profile::Aggressive.effort(5, 0), p(2, 3, 1));
}

#[test]
fn seven_arms() {
    assert_eq!(NUM_DYNAMIC_HEURISTIC_ARMS, 3);
    assert_eq!(NUM_FIXED_MIC_CONFIG_ARMS, 4);
    let arms: Vec<Arm> = (0..CTX_TOTAL_MIC_ARMS).map(describe_arm).collect();
    assert_eq!(
        arms,
        vec![
            Arm::Heuristic(Profile::Balanced),
            Arm::Heuristic(Profile::Aggressive),
            Arm::Heuristic(Profile::Conservative),
            Arm::Fixed(p(0, 0, 0)),
            Arm::Fixed(p(1, 3, 1)),
            Arm::Fixed(p(2, 5, 1)),
            Arm::Fixed(p(8, 4, 1)),
        ]
    );
}

#[test]
fn first_of_the_best_arms_wins() {
    assert_eq!(best_arm(&vec![3, 5, 1, 5]), 1);
    assert_eq!(best_arm(&vec![i64::MIN, i64::MIN]), 0);
    assert_eq!(best_arm(&vec![-2]), 0);
    assert_eq!(best_arm(&vec![-2, -3, -1]), 2);
}

#[test]
fn grades() {
    // Six of ten literals dropped, two of four frames gained.
    assert_eq!(reward_terms(10, 4, 2, 4, 5).grade, Grade::Good);
    // Half of the literals is not more than half.
    assert_eq!(reward_terms(10, 5, 2, 4, 5).grade, Grade::Plain);
    // Three of ten frames is not more than three tenths.
    assert_eq!(reward_terms(10, 4, 1, 4, 10).grade, Grade::Plain);
    assert_eq!(reward_terms(10, 4, 1, 5, 10).grade, Grade::Good);
    // Eight of ten literals dropped, nothing gained.
    assert_eq!(reward_terms(10, 2, 1, 1, 12).grade, Grade::Overdone);
    assert_eq!(reward_terms(10, 3, 1, 1, 12).grade, Grade::Plain);
    assert_eq!(reward_terms(10, 2, 1, 2, 10).grade, Grade::Plain);
    assert_eq!(reward_terms(10, 2, 1, 2, 12).grade, Grade::Overdone);
    // Nothing to drop.
    assert_eq!(reward_terms(0, 0, 1, 3, 3).grade, Grade::Plain);
}

#[test]
fn reward_flags() {
    let t = reward_terms(4, 1, 2, 3, 3);
    assert!(t.pushed && t.frontier && t.unit);
    assert_eq!((t.length, t.shortened, t.frame, t.reached, t.level), (4, 1, 2, 3, 3));
    let t = reward_terms(4, 2, 2, 2, 3);
    assert!(!t.pushed && !t.frontier && !t.unit);
}

fn allows(more: DropVarParameter, less: DropVarParameter) -> bool {
    more.limit >= less.limit && more.max >= less.max && more.level >= less.level
}

#[test]
fn efforts_compare_at_every_activity() {
    for act in 0..120 {
        for limit in 1..9 {
            let aggressive = Profile::Aggressive.effort(act, limit + 1);
            let balanced = Profile::Balanced.effort(act, limit);
            let conservative = Profile::Conservative.effort(act, limit);
            assert!(allows(aggressive, balanced));
            assert!(allows(balanced, conservative));
            assert!(aggressive.limit > 0 && aggressive.max > 0);
            assert_eq!(aggressive.level, 1);
        }
    }
    assert_eq!(Profile::Aggressive.idle(), p(1, 1, 1));
    assert_eq!(Profile::Balanced.idle(), p(0, 0, 0));
    assert_eq!(Profile::Conservative.idle(), p(0, 0, 0));
}
