//! What blocking makes of true answers.

use vstd::prelude::*;

use crate::block::{
    attempt_run, block_run, generalize_core_run, generalize_run, generalize_whole_run, predecessor,
    refine_run, reward_run, turn_run, Turn,
};
use crate::effort::{arm_run, effort_run, strategy_run};
use crate::fault::Fault;
use crate::heuristic::{arm_of, Arm, Profile, CTX_TOTAL_MIC_ARMS};
use crate::keeping::{
    backed, blockable, clear, lemma_backed_later, lemma_blockable_later, lemma_sound_add,
    lemma_sound_quiet, quiet, sound,
};
use crate::lit::{lemma_sorted, sorted, Lit};
use crate::meaning::{
    admitted, equal_at, equal_below, holds, init_free, last_query, lemma_admitted, lemma_at,
    lemma_same_members, meets_init, no_step, query_of, true_event, truthful, Query, System,
};
use crate::mic::push_run;
use crate::mic_laws::{
    covers, leaves_pending, lemma_conclude, lemma_core, lemma_mic, lemma_push, sound_somehow,
};
use crate::multi::mic_run;
use crate::obligation::ObligationView;
use crate::options::Options;
use crate::param::MicType;
use crate::session::{asked, yes, Call, Event};
use crate::report::chain_inputs;
use crate::state::{window_of, StateView};

verus! {

/// Whether the first frame holds initial states only.
pub open spec fn initialised(sys: System, log: Seq<Event>, n: int) -> bool {
    forall|a: Set<u32>| #[trigger] admitted(log, n, 0, a) ==> sys.starts(a)
}

/// Whether no state of frame `m` is one to look for.
pub open spec fn guarded(sys: System, log: Seq<Event>, n: int, m: int) -> bool {
    forall|a: Set<u32>| #[trigger] admitted(log, n, m, a) ==> !sys.is_goal(a)
}

/// Whether the inputs from an obligation on lead from each state of its cube to a bad state, and
/// an initial state is in the cube where it stands at the first frame.
pub open spec fn earnest(sys: System, obligations: Seq<ObligationView>, i: int) -> bool {
    let po = obligations[i];
    &&& po.input.len() > 0
    &&& forall|a: Set<u32>| #[trigger]
        holds(a, po.lemma) ==> sys.runs(a, chain_inputs(obligations, i))
    &&& po.frame == 0 ==> meets_init(sys, po.lemma)
}

/// Whether that holds of all obligations, as far as predecessors are bound to be true.
pub open spec fn all_earnest(sys: System, obligations: Seq<ObligationView>) -> bool {
    sys.exact ==> forall|i: int|
        0 <= i < obligations.len() ==> #[trigger] earnest(sys, obligations, i)
}

/// Whether the options choose no way to generalize that leaves cubes pending.
pub open spec fn settles(options: Options) -> bool {
    options.ic3.enable_ctx_mab || options.ic3.dynamic || !leaves_pending(
        MicType::chosen_by(options),
        options.ic3.inn,
    )
}

/// What holds between the steps of a search, for a state of the engine.
pub open spec fn standing(
    sys: System,
    log: Seq<Event>,
    n: int,
    s: StateView,
    pend: Seq<(Seq<Lit>, int)>,
) -> bool {
    &&& 0 <= n <= log.len()
    &&& sound(sys, log, n, pend)
    &&& backed(sys, log, n, pend)
    &&& initialised(sys, log, n)
    &&& s.solvers > 1 ==> guarded(sys, log, n, s.solvers - 2)
    &&& all_earnest(sys, s.obligations)
    &&& 0 < s.solvers < usize::MAX - 1
    &&& sys.exact == !s.options.ic3.abs_cst
}

/// Whether a state comes from another in the course of a search on the same frames.
pub open spec fn follows(s2: StateView, s: StateView) -> bool {
    s2.solvers == s.solvers && s2.options == s.options && s2.pre_lemmas == s.pre_lemmas
}

/// More events take states out of frames only.
pub proof fn lemma_later(sys: System, log: Seq<Event>, n: int, m: int, k: int)
    requires
        n <= m,
    ensures
        initialised(sys, log, n) ==> initialised(sys, log, m),
        guarded(sys, log, n, k) ==> guarded(sys, log, m, k),
{
    assert forall|a: Set<u32>|
        initialised(sys, log, n) && #[trigger] admitted(log, m, 0, a) implies sys.starts(a) by {
        lemma_admitted(log, n, m, 0, 0, a);
    }
    assert forall|a: Set<u32>|
        guarded(sys, log, n, k) && #[trigger] admitted(log, m, k, a) implies !sys.is_goal(a) by {
        lemma_admitted(log, n, m, k, k, a);
    }
}

/// What holds between steps still holds after more events on the same obligations, where the
/// invariant does.
pub proof fn lemma_standing(
    sys: System,
    log: Seq<Event>,
    n: int,
    m: int,
    s: StateView,
    s2: StateView,
    pend: Seq<(Seq<Lit>, int)>,
    pend2: Seq<(Seq<Lit>, int)>,
)
    requires
        standing(sys, log, n, s, pend),
        n <= m <= log.len(),
        follows(s2, s),
        all_earnest(sys, s2.obligations),
        sound(sys, log, m, pend2),
        pend2 == pend || backed(sys, log, m, pend2),
    ensures
        standing(sys, log, m, s2, pend2),
{
    lemma_backed_later(sys, log, n, m, pend);
    lemma_later(sys, log, n, m, s.solvers - 2);
}

/// The inputs from an obligation on depend on the obligations up to it only, and not on their
/// frames.
proof fn lemma_chain_inputs(
    obligations: Seq<ObligationView>,
    other: Seq<ObligationView>,
    id: int,
)
    requires
        0 <= id < obligations.len() <= other.len(),
        forall|i: int|
            0 <= i <= id ==> (#[trigger] obligations[i]).input == other[i].input
                && obligations[i].next == other[i].next,
    ensures
        chain_inputs(obligations, id) == chain_inputs(other, id),
    decreases id,
{
    assert(obligations[id].next == other[id].next);
    if let Some(k) = obligations[id].next {
        if k < id {
            lemma_chain_inputs(obligations, other, k as int);
        }
    }
}

/// Moving an obligation to a later frame leaves it what it is.
pub proof fn lemma_earnest_moved(sys: System, s: StateView, id: usize, frame: usize)
    requires
        all_earnest(sys, s.obligations),
        id < s.obligations.len(),
        frame > 0,
    ensures
        all_earnest(sys, s.moved(id, frame).obligations),
        follows(s.moved(id, frame), s),
{
    let t = s.moved(id, frame).obligations;
    if sys.exact {
        assert forall|i: int| 0 <= i < t.len() implies #[trigger] earnest(sys, t, i) by {
            assert(earnest(sys, s.obligations, i));
            lemma_chain_inputs(s.obligations, t, i);
        }
    }
}

/// One more obligation leaves the others what they are.
pub proof fn lemma_earnest_more(sys: System, s: StateView, po: ObligationView)
    requires
        all_earnest(sys, s.obligations),
        sys.exact ==> earnest(
            sys,
            s.with_obligation(po).obligations,
            s.obligations.len() as int,
        ),
    ensures
        all_earnest(sys, s.with_obligation(po).obligations),
        follows(s.with_obligation(po), s),
{
    let t = s.with_obligation(po).obligations;
    if sys.exact {
        assert forall|i: int| 0 <= i < t.len() implies #[trigger] earnest(sys, t, i) by {
            if i < s.obligations.len() {
                assert(earnest(sys, s.obligations, i));
                lemma_chain_inputs(s.obligations, t, i);
            }
        }
    }
}

/// Nothing is added while the effort is chosen.
proof fn lemma_effort(log: Seq<Event>, at: int, profile: Profile, window: Seq<usize>)
    requires
        0 <= at <= log.len(),
        effort_run(log, at, profile, window) is Some,
    ensures
        ({
            let (_, at2) = effort_run(log, at, profile, window)->0;
            at <= at2 <= log.len() && quiet(log, at, at2)
        }),
{
}

/// Nothing is added while the arm is chosen.
proof fn lemma_arm(log: Seq<Event>, at: int)
    requires
        0 <= at <= log.len(),
        arm_run(log, at) is Some,
    ensures
        ({
            let (_, at2) = arm_run(log, at)->0;
            at <= at2 <= log.len() && quiet(log, at, at2)
        }),
{
    let last = CTX_TOTAL_MIC_ARMS - 1;
    assert(asked(log, at + last, Call::ArmScore { arm: last as usize }));
    assert forall|p: int| at <= p < at + CTX_TOTAL_MIC_ARMS implies #[trigger] lemma_at(
        log,
        p,
    ) is None by {
        let k = p - at;
        assert(asked(log, at + k, Call::ArmScore { arm: k as usize }));
    }
}

/// Choosing how to generalize adds nothing, and leaves the obligations as they are.
proof fn lemma_strategy(log: Seq<Event>, at: int, s: StateView, id: usize)
    requires
        0 <= at <= log.len(),
        strategy_run(log, at, s, id) is Some,
    ensures
        ({
            let (_, mic_type, s2, at2) = strategy_run(log, at, s, id)->0;
            &&& at <= at2 <= log.len()
            &&& quiet(log, at, at2)
            &&& follows(s2, s)
            &&& s2.obligations == s.obligations
            &&& settles(s.options) ==> !leaves_pending(mic_type, s.options.ic3.inn)
        }),
{
    let window = window_of(s.obligations, id, 3);
    if s.options.ic3.enable_ctx_mab {
        lemma_arm(log, at + 1);
        let (arm, at2) = arm_run(log, at + 1)->0;
        if let Arm::Heuristic(profile) = arm_of(arm) {
            lemma_effort(log, at2, profile, window);
        }
    } else if s.options.ic3.dynamic {
        lemma_effort(log, at, Profile::Balanced, window);
    }
}

/// Where a lemma is added and two frames below it are equal, two frames below the last are.
pub proof fn lemma_equal(sys: System, log: Seq<Event>, p: int, frame: usize, level: int)
    requires
        truthful(sys, log),
        0 <= p < log.len(),
        lemma_at(log, p) matches Some((j, _)) && j == frame,
        frame <= level,
        yes(log, p),
    ensures
        equal_below(log, p + 1, level),
{
    assert(true_event(sys, log, p));
    let k = choose|k: int| 0 <= k < frame && #[trigger] equal_at(log, p + 1, k);
    assert(equal_at(log, p + 1, k));
}

/// What a step of the search leads to: the invariant holds after it, and an outcome that settles
/// the question is right.
pub open spec fn kept(
    sys: System,
    log: Seq<Event>,
    n: int,
    s: StateView,
    s2: StateView,
    proved: bool,
    reached: bool,
    pend2: Seq<(Seq<Lit>, int)>,
) -> bool {
    &&& standing(sys, log, n, s2, pend2)
    &&& follows(s2, s)
    &&& proved ==> equal_below(log, n, s.level() as int)
    &&& reached ==> sys.unsafe_system()
}

/// Adding the whole cube of a blocked obligation keeps what holds.
pub proof fn lemma_generalize_whole(
    sys: System,
    log: Seq<Event>,
    q: int,
    at: int,
    s: StateView,
    id: usize,
    pend: Seq<(Seq<Lit>, int)>,
)
    requires
        truthful(sys, log),
        standing(sys, log, at, s, pend),
        id < s.obligations.len(),
        0 < s.obligations[id as int].frame <= s.level(),
        init_free(sys, s.obligations[id as int].lemma),
        0 <= q < at,
        log[q].call == (Call::Blocked {
            frame: s.obligations[id as int].frame,
            cube: s.obligations[id as int].lemma,
            strengthen: false,
        }),
        yes(log, q),
        generalize_whole_run(log, at, s, id) is Some,
    ensures
        ({
            let (r, s2, at2) = generalize_whole_run(log, at, s, id)->0;
            &&& at <= at2 <= log.len()
            &&& r matches Ok(equal) && kept(sys, log, at2, s, s2, equal, false, pend)
        }),
{
    let po = s.obligations[id as int];
    let next = (po.frame + 1) as usize;
    lemma_earnest_moved(sys, s, id, next);
    lemma_sound_quiet(sys, log, at, at + 1, pend);
    assert(true_event(sys, log, q));
    let query = Query { cube: po.lemma, strengthen: false, constraint: seq![] };
    assert(query_of(log[q].call, po.frame - 1) == Some(query));
    assert(no_step(sys, log, q, po.frame - 1, query, po.lemma));
    assert(blockable(sys, log, at + 1, po.frame as int, po.lemma, pend)) by {
        assert forall|a: Set<u32>, b: Set<u32>|
            admitted(log, at + 1, po.frame - 1, a) && !holds(a, po.lemma) && clear(
                pend,
                po.frame as int,
                a,
            ) && #[trigger] sys.walks(a, b) implies !holds(b, po.lemma) by {
            lemma_admitted(log, q, at + 1, po.frame - 1, po.frame - 1, a);
        }
    }
    lemma_sound_add(sys, log, at + 1, po.frame, po.lemma, pend);
    lemma_standing(sys, log, at, at + 2, s, s.moved(id, next), pend, pend);
    if yes(log, at + 1) {
        lemma_equal(sys, log, at + 1, po.frame, s.level() as int);
    }
}

/// Generalizing the core of a blocked obligation keeps what holds. What is returned is pending
/// after that.
pub proof fn lemma_generalize_core(
    sys: System,
    log: Seq<Event>,
    q: int,
    at: int,
    s: StateView,
    id: usize,
    pend: Seq<(Seq<Lit>, int)>,
) -> (pend2: Seq<(Seq<Lit>, int)>)
    requires
        truthful(sys, log),
        standing(sys, log, at, s, pend),
        id < s.obligations.len(),
        0 < s.obligations[id as int].frame <= s.level(),
        init_free(sys, s.obligations[id as int].lemma),
        0 <= q < at,
        log[q].call == (Call::Blocked {
            frame: s.obligations[id as int].frame,
            cube: s.obligations[id as int].lemma,
            strengthen: false,
        }),
        yes(log, q),
        last_query(log, at, s.obligations[id as int].frame - 1) == Some(q),
        generalize_core_run(log, at, s, id) is Some,
    ensures
        ({
            let (r, s2, at2) = generalize_core_run(log, at, s, id)->0;
            &&& at <= at2 <= log.len()
            &&& settles(s.options) ==> pend2 == pend
            &&& match r {
                Err(_) => sound_somehow(sys, log, at2),
                Ok(equal) => kept(sys, log, at2, s, s2, equal, false, pend2),
            }
        }),
{
    let po = s.obligations[id as int];
    let core = log[at].reply->Cube_0;
    let query = Query { cube: po.lemma, strengthen: false, constraint: seq![] };
    assert(covers(query.constraint, pend, po.frame as int));
    lemma_core(sys, log, q, at, po.frame, query, pend);
    assert(true_event(sys, log, at));
    lemma_strategy(log, at + 1, s, id);
    let (arm, mic_type, s2, at2) = strategy_run(log, at + 1, s, id)->0;
    assert(quiet(log, at, at2));
    lemma_sound_quiet(sys, log, at, at2, pend);
    lemma_blockable_later(sys, log, at, at2, po.frame as int, core, pend);
    lemma_backed_later(sys, log, at, at2, pend);
    let pend2 = lemma_mic(
        sys,
        log,
        at2,
        s.setting(),
        s.options.ic3.inn,
        po.frame,
        core,
        seq![],
        mic_type,
        pend,
    );
    let (r, at3) = mic_run(
        log,
        at2,
        s.setting(),
        s.options.ic3.inn,
        po.frame,
        core,
        seq![],
        mic_type,
    )->0;
    if let Ok(mic) = r {
        lemma_push(sys, log, at3, s.level(), po.frame + 1, mic, pend2);
        let (reached, pushed, at4) = push_run(log, at3, s.level(), po.frame + 1, mic)->0;
        let at5 = reward_run(
            log,
            at4,
            s2,
            id,
            arm,
            core.len(),
            mic.len(),
            reached as usize,
        )->0;
        assert(quiet(log, at3, at5 + 3));
        lemma_blockable_later(sys, log, at4, at5 + 3, reached - 1, pushed, pend2);
        assert(lemma_at(log, at5 + 3) == Some(((reached - 1) as usize, pushed)));
        lemma_conclude(
            sys,
            log,
            at3,
            at5 + 3,
            po.frame,
            mic,
            reached,
            pushed,
            pend2,
        );
        lemma_earnest_moved(sys, s2, id, reached as usize);
        lemma_backed_later(sys, log, at3, at5 + 4, pend2);
        lemma_standing(
            sys,
            log,
            at,
            at5 + 4,
            s,
            s2.moved(id, reached as usize),
            pend,
            pend2,
        );
        if yes(log, at5 + 3) {
            lemma_equal(sys, log, at5 + 3, (reached - 1) as usize, s.level() as int);
        }
    }
    pend2
}

/// Generalizing a blocked obligation keeps what holds.
proof fn lemma_generalize(
    sys: System,
    log: Seq<Event>,
    at: int,
    s: StateView,
    id: usize,
    pend: Seq<(Seq<Lit>, int)>,
) -> (pend2: Seq<(Seq<Lit>, int)>)
    requires
        truthful(sys, log),
        standing(sys, log, at, s, pend),
        id < s.obligations.len(),
        0 < s.obligations[id as int].frame <= s.level(),
        init_free(sys, s.obligations[id as int].lemma),
        0 < at,
        log[at - 1].call == (Call::Blocked {
            frame: s.obligations[id as int].frame,
            cube: s.obligations[id as int].lemma,
            strengthen: false,
        }),
        yes(log, at - 1),
        generalize_run(log, at, s, id) is Some,
    ensures
        ({
            let (r, s2, at2) = generalize_run(log, at, s, id)->0;
            &&& at <= at2 <= log.len()
            &&& settles(s.options) ==> pend2 == pend
            &&& match r {
                Err(_) => sound_somehow(sys, log, at2),
                Ok(equal) => kept(sys, log, at2, s, s2, equal, false, pend2),
            }
        }),
{
    reveal(generalize_run);
    let solver = s.obligations[id as int].frame - 1;
    assert(last_query(log, at, solver) == Some(at - 1));
    if !s.options.ic3.inn {
        lemma_generalize_core(sys, log, at - 1, at, s, id, pend)
    } else {
        lemma_sound_quiet(sys, log, at, at + 1, pend);
        lemma_standing(sys, log, at, at + 1, s, s, pend, pend);
        if yes(log, at) {
            lemma_generalize_whole(sys, log, at - 1, at + 1, s, id, pend);
            pend
        } else {
            assert(last_query(log, at + 1, solver) == last_query(log, at, solver));
            lemma_generalize_core(sys, log, at - 1, at + 1, s, id, pend)
        }
    }
}

/// A predecessor of the cube of an obligation makes an obligation of the same kind.
proof fn lemma_predecessor(
    sys: System,
    log: Seq<Event>,
    p: int,
    s: StateView,
    id: usize,
    pend: Seq<(Seq<Lit>, int)>,
)
    requires
        truthful(sys, log),
        standing(sys, log, p - 1, s, pend),
        id < s.obligations.len(),
        0 < s.obligations[id as int].frame,
        0 < p < log.len(),
        log[p - 1].call == (Call::Blocked {
            frame: s.obligations[id as int].frame,
            cube: s.obligations[id as int].lemma,
            strengthen: false,
        }),
        !yes(log, p - 1),
        log[p].call == (Call::GetPred {
            frame: s.obligations[id as int].frame,
            strengthen: true,
        }),
    ensures
        ({
            let new = predecessor(s, id, log[p].reply->Pred_0, log[p].reply->Pred_1);
            all_earnest(sys, s.with_obligation(new).obligations)
        }),
{
    let po = s.obligations[id as int];
    let model = log[p].reply->Pred_0;
    let inputs = log[p].reply->Pred_1;
    let new = predecessor(s, id, model, inputs);
    let n = s.obligations.len() as int;
    let t = s.with_obligation(new).obligations;
    if sys.exact {
        lemma_sorted(model);
        lemma_same_members(sys, sorted(model), model);
        assert(true_event(sys, log, p));
        assert(last_query(log, p, po.frame - 1) == Some(p - 1));
        assert(query_of(log[p - 1].call, po.frame - 1)->0.cube == po.lemma);
        assert(earnest(sys, s.obligations, id as int));
        let rest = chain_inputs(s.obligations, id as int);
        lemma_chain_inputs(s.obligations, t, id as int);
        assert(chain_inputs(t, n) == seq![inputs] + rest);
        assert(rest.len() > 0);
        assert((seq![inputs] + rest).drop_first() =~= rest);
        assert forall|a: Set<u32>| #[trigger] holds(a, new.lemma) implies sys.runs(
            a,
            chain_inputs(t, n),
        ) by {
            assert(holds(a, model));
            let b = choose|b: Set<u32>| #[trigger]
                sys.takes(a, inputs, b) && holds(b, po.lemma);
            assert(sys.takes(a, (seq![inputs] + rest)[0], b) && sys.runs(b, rest));
        }
        if new.frame == 0 {
            let a = choose|a: Set<u32>| #[trigger]
                admitted(log, p - 1, po.frame - 1, a) && holds(a, model);
            assert(sys.starts(a) && holds(a, new.lemma));
        }
        assert(earnest(sys, t, n));
    }
    lemma_earnest_more(sys, s, new);
}

/// Trying to block an obligation keeps what holds.
proof fn lemma_attempt(
    sys: System,
    log: Seq<Event>,
    at: int,
    s: StateView,
    id: usize,
    pend: Seq<(Seq<Lit>, int)>,
) -> (pend2: Seq<(Seq<Lit>, int)>)
    requires
        truthful(sys, log),
        standing(sys, log, at, s, pend),
        id < s.obligations.len(),
        init_free(sys, s.obligations[id as int].lemma),
        attempt_run(log, at, s, id) is Some,
    ensures
        ({
            let (r, s2, at2) = attempt_run(log, at, s, id)->0;
            &&& at <= at2 <= log.len()
            &&& settles(s.options) ==> pend2 == pend
            &&& match r {
                Err(_) => sound_somehow(sys, log, at2),
                Ok(turn) => kept(
                    sys,
                    log,
                    at2,
                    s,
                    s2,
                    turn == Turn::Proved,
                    turn == Turn::Reached,
                    pend2,
                ),
            }
        }),
{
    let po = s.obligations[id as int];
    lemma_sound_quiet(sys, log, at, at + 1, pend);
    if let Some(frame) = log[at].reply->Index_0 {
        if frame < usize::MAX {
            lemma_sound_quiet(sys, log, at, at + 3, pend);
            lemma_earnest_moved(sys, s, id, (frame + 1) as usize);
            lemma_standing(
                sys,
                log,
                at,
                at + 3,
                s,
                s.moved(id, (frame + 1) as usize),
                pend,
                pend,
            );
        }
        pend
    } else {
        lemma_sound_quiet(sys, log, at, at + 2, pend);
        if !(0 < po.frame <= s.level()) {
            pend
        } else {
            lemma_standing(sys, log, at, at + 2, s, s, pend, pend);
            lemma_sound_quiet(sys, log, at, at + 3, pend);
            lemma_standing(sys, log, at, at + 3, s, s, pend, pend);
            if yes(log, at + 2) {
                lemma_generalize(sys, log, at + 3, s, id, pend)
            } else {
                lemma_predecessor(sys, log, at + 3, s, id, pend);
                let new = predecessor(s, id, log[at + 3].reply->Pred_0, log[at + 3].reply->Pred_1);
                lemma_sound_quiet(sys, log, at, at + 6, pend);
                lemma_standing(sys, log, at, at + 6, s, s.with_obligation(new), pend, pend);
                pend
            }
        }
    }
}

/// An obligation of the first frame tells that a bad state is reached.
proof fn lemma_counterexample(sys: System, obligations: Seq<ObligationView>, i: int)
    requires
        earnest(sys, obligations, i),
        obligations[i].frame == 0,
    ensures
        sys.unsafe_system(),
{
    let a = choose|a: Set<u32>| #[trigger] sys.starts(a) && holds(a, obligations[i].lemma);
    assert(sys.reaches(a, 0));
    lemma_run(sys, a, 0, chain_inputs(obligations, i));
}

/// Where inputs lead from a state that is reached to a bad state, a bad state is reached.
pub proof fn lemma_run(sys: System, a: Set<u32>, i: nat, inputs: Seq<Seq<Lit>>)
    requires
        sys.reaches(a, i),
        sys.runs(a, inputs),
    ensures
        sys.unsafe_system(),
    decreases inputs.len(),
{
    if inputs.len() > 1 {
        let b = choose|b: Set<u32>| #[trigger]
            sys.takes(a, inputs[0], b) && sys.runs(b, inputs.drop_first());
        assert(sys.moves(a, b));
        assert(sys.reaches(b, i + 1));
        lemma_run(sys, b, i + 1, inputs.drop_first());
    }
}

/// Checking a counterexample keeps what holds.
proof fn lemma_refine(
    sys: System,
    log: Seq<Event>,
    at: int,
    s: StateView,
    id: usize,
    pend: Seq<(Seq<Lit>, int)>,
)
    requires
        truthful(sys, log),
        standing(sys, log, at, s, pend),
        refine_run(log, at, s, id) is Some,
    ensures
        ({
            let (r, s2, at2) = refine_run(log, at, s, id)->0;
            &&& at <= at2 <= log.len()
            &&& match r {
                Err(_) => sound_somehow(sys, log, at2),
                Ok(turn) => kept(
                    sys,
                    log,
                    at2,
                    s,
                    s2,
                    turn == Turn::Proved,
                    turn == Turn::Reached,
                    pend,
                ),
            }
        }),
{
    let (r, s2, at2) = refine_run(log, at, s, id)->0;
    assert(true_event(sys, log, at + 1));
    lemma_sound_quiet(sys, log, at, at2, pend);
    lemma_standing(sys, log, at, at2, s, s2, pend, pend);
}

/// Working on one obligation keeps what holds, and an outcome that settles the question is right.
pub proof fn lemma_turn(
    sys: System,
    log: Seq<Event>,
    at: int,
    s: StateView,
    pend: Seq<(Seq<Lit>, int)>,
) -> (pend2: Seq<(Seq<Lit>, int)>)
    requires
        truthful(sys, log),
        standing(sys, log, at, s, pend),
        turn_run(log, at, s) is Some,
    ensures
        ({
            let (r, s2, at2) = turn_run(log, at, s)->0;
            &&& at <= at2 <= log.len()
            &&& settles(s.options) ==> pend2 == pend
            &&& match r {
                Err(_) => sound_somehow(sys, log, at2),
                Ok(turn) => kept(
                    sys,
                    log,
                    at2,
                    s,
                    s2,
                    turn == Turn::Proved,
                    turn == Turn::Reached,
                    pend2,
                ),
            }
        }),
{
    let (r, s2, at2) = turn_run(log, at, s)->0;
    lemma_sound_quiet(sys, log, at, at + 1, pend);
    lemma_standing(sys, log, at, at + 1, s, s, pend, pend);
    match log[at].reply->Index_0 {
        None => pend,
        Some(id) => {
            let po = s.obligations[id as int];
            if id >= s.obligations.len() {
                pend
            } else {
                lemma_sound_quiet(sys, log, at, at + 2, pend);
                lemma_standing(sys, log, at, at + 2, s, s, pend, pend);
                if yes(log, at + 1) {
                    pend
                } else {
                    lemma_sound_quiet(sys, log, at, at + 3, pend);
                    lemma_standing(sys, log, at, at + 3, s, s, pend, pend);
                    if !yes(log, at + 2) {
                        assert(true_event(sys, log, at + 2));
                        lemma_attempt(sys, log, at + 3, s, id, pend)
                    } else if s.options.ic3.abs_cst {
                        lemma_refine(sys, log, at + 3, s, id, pend);
                        pend
                    } else {
                        lemma_sound_quiet(sys, log, at, at + 4, pend);
                        lemma_standing(sys, log, at, at + 4, s, s, pend, pend);
                        if s.options.ic3.inn && po.frame > 0 {
                            if yes(log, at + 3) {
                                pend
                            } else {
                                assert(true_event(sys, log, at + 3));
                                lemma_attempt(sys, log, at + 4, s, id, pend)
                            }
                        } else {
                            if po.frame == 0 {
                                assert(earnest(sys, s.obligations, id as int));
                                lemma_counterexample(sys, s.obligations, id as int);
                            }
                            pend
                        }
                    }
                }
            }
        },
    }
}

/// Working on obligations keeps what holds, and an outcome that settles the question is right.
pub proof fn lemma_block(
    sys: System,
    log: Seq<Event>,
    at: int,
    s: StateView,
    rounds: u64,
    pend: Seq<(Seq<Lit>, int)>,
) -> (pend2: Seq<(Seq<Lit>, int)>)
    requires
        truthful(sys, log),
        standing(sys, log, at, s, pend),
        block_run(log, at, s, rounds) is Some,
    ensures
        ({
            let (r, s2, _, at2) = block_run(log, at, s, rounds)->0;
            &&& at <= at2 <= log.len()
            &&& settles(s.options) ==> pend2 == pend
            &&& match r {
                Err(_) => sound_somehow(sys, log, at2),
                Ok(turn) => kept(
                    sys,
                    log,
                    at2,
                    s,
                    s2,
                    turn == Turn::Proved,
                    turn == Turn::Reached,
                    pend2,
                ),
            }
        }),
    decreases rounds,
{
    reveal(block_run);
    if rounds == 0 {
        pend
    } else {
        let pend2 = lemma_turn(sys, log, at, s, pend);
        let (r, s2, at2) = turn_run(log, at, s)->0;
        if r == Ok::<Turn, Fault>(Turn::More) {
            lemma_block(sys, log, at2, s2, (rounds - 1) as u64, pend2)
        } else {
            pend2
        }
    }
}

} // verus!
