//! The search does not fail on true answers.

use vstd::prelude::*;

use crate::block::{
    all_new, attempt_run, block_run, generalize_core_run, generalize_run, generalize_whole_run,
    predecessor, refine_run, reward_run, turn_run, Turn,
};
use crate::block_laws::{
    guarded, lemma_block, lemma_generalize_core, lemma_generalize_whole, lemma_later,
    lemma_standing, lemma_turn, standing,
};
use crate::effort::strategy_run;
use crate::engine::{
    advance_level_run, asked_all, base_run, check_run, extend_run, frame_calls, init_calls,
    input_calls, last_obligation, lemma_calls, one_more, search_run, settled_run, units,
};
use crate::fault::Fault;
use crate::heuristic::CTX_TOTAL_MIC_ARMS;
use crate::keeping::{excluded, lemma_reached, lemma_sound_quiet, sound};
use crate::laws::{
    fresh, inductive_clauses, init_safe, lemma_advance_level, lemma_base, lemma_extend, lemma_goal,
};
use crate::lit::{lemma_sorted, sorted, Lit, Var};
use crate::lucid::{adds_for, lucid, lucid_event, place, reported, reports};
use crate::meaning::{
    admitted, holds, init_free, last_query, lemma_admitted, lemma_at, lemma_same_members,
    lemma_within, meets_init, query_of, true_event, truthful, within, Query, System,
};
use crate::mic::push_run;
use crate::multi::mic_run;
use crate::obligation::{FrameLemmaView, ObligationView};
use crate::param::{DropVarParameter, MicType};
use crate::propagate::{
    advance_run, carry_run, core_run, ctp_run, frames_run, max_tries, move_run, moves_run,
    propagate_run, Ctp,
};
use crate::propagate_laws::{lemma_carry, lemma_ctp, lemma_frame_lemmas, lemma_move, lemma_moves};
use crate::session::{asked, yes, Call, Event};
use crate::state::{window_of, StateView};
use crate::steady_laws::{lemma_core_steady, lemma_mic_steady, lemma_push_steady, puts, ran};

verus! {

/// Whether the obligations of a state can be numbered.
pub open spec fn small(s: StateView) -> bool {
    s.obligations.len() <= usize::MAX
}

/// Whether an obligation stands where it should: at the first frame an initial state is in its
/// cube; at a later one no state is that is reached in less steps, as far as predecessors are bound
/// to be true.
pub open spec fn placed(sys: System, po: ObligationView) -> bool {
    &&& po.frame == 0 ==> meets_init(sys, po.lemma)
    &&& po.frame > 0 && sys.exact ==> excluded(sys, po.lemma, po.frame - 1)
}

/// Whether a lemma that the event at `p` adds for an obligation is part of its cube.
pub open spec fn owned(log: Seq<Event>, p: int, obligations: Seq<ObligationView>) -> bool {
    match log[p].call {
        Call::AddLemma { cube, owner, .. } => owner matches Some(id) ==> id < obligations.len()
            && within(cube, obligations[id as int].lemma),
        _ => true,
    }
}

/// Whether an obligation that is in the queue is known, and stands at the frame that the queue has
/// it at.
pub open spec fn seated(
    log: Seq<Event>,
    n: int,
    id: usize,
    obligations: Seq<ObligationView>,
) -> bool {
    match place(log, n, id) {
        None => true,
        Some(f) => id < obligations.len() && obligations[id as int].frame == f,
    }
}

/// What holds of the obligations between the steps of a search: those in the queue are known, and
/// stand at the frame that the queue has them at; lemmas are parts of the cubes that they were added
/// for; all stand where they should; and the constraints in force were reported.
pub open spec fn in_order(sys: System, log: Seq<Event>, n: int, s: StateView) -> bool {
    &&& forall|id: usize| #[trigger] seated(log, n, id, s.obligations)
    &&& forall|p: int| 0 <= p < n ==> #[trigger] owned(log, p, s.obligations)
    &&& forall|i: int| 0 <= i < s.obligations.len() ==> placed(sys, #[trigger] s.obligations[i])
    &&& s.options.ic3.abs_cst ==> forall|l: Lit| #[trigger]
        s.abs_cst.contains(l) ==> reported(log, n, l)
}

/// The same as far as the obligations can be numbered.
pub open spec fn tidy(sys: System, log: Seq<Event>, n: int, s: StateView) -> bool {
    small(s) ==> in_order(sys, log, n, s)
}

/// Whether a state comes from another with no obligation lost.
pub open spec fn grown(s2: StateView, s: StateView) -> bool {
    &&& s2.options == s.options
    &&& s.obligations.len() <= s2.obligations.len()
    &&& forall|i: int|
        0 <= i < s.obligations.len() ==> (#[trigger] s2.obligations[i]).lemma
            == s.obligations[i].lemma
}

/// Where nothing is queued, places stay.
proof fn lemma_place_ran(log: Seq<Event>, n: int, m: int, id: usize)
    requires
        0 <= n,
        ran(log, n, m),
    ensures
        place(log, m, id) == place(log, n, id),
    decreases m - n,
{
    if n < m {
        assert(!puts(log[m - 1].call));
        lemma_place_ran(log, n, m - 1, id);
    }
}

/// Where nothing is queued, what holds of the obligations stays.
pub proof fn lemma_tidy_ran(
    sys: System,
    log: Seq<Event>,
    n: int,
    m: int,
    s: StateView,
    s2: StateView,
)
    requires
        0 <= n,
        ran(log, n, m),
        tidy(sys, log, n, s),
        s2.obligations == s.obligations,
        s2.abs_cst == s.abs_cst,
        s2.options == s.options,
    ensures
        tidy(sys, log, m, s2),
{
    if small(s) {
        assert forall|id: usize| #[trigger] seated(log, m, id, s.obligations) by {
            lemma_place_ran(log, n, m, id);
            assert(seated(log, n, id, s.obligations));
        }
        assert forall|p: int| 0 <= p < m implies #[trigger] owned(log, p, s.obligations) by {
            if p >= n {
                assert(!puts(log[p].call));
            }
        }
        assert forall|l: Lit|
            s.options.ic3.abs_cst && #[trigger] s.abs_cst.contains(l) implies reported(
            log,
            m,
            l,
        ) by {
            let q = choose|q: int| 0 <= q < n && #[trigger] reports(log, q, l);
            assert(reports(log, q, l));
        }
    }
}

/// Whether the event at `n` queues an obligation at a frame.
pub open spec fn queues(log: Seq<Event>, n: int, id: usize, frame: usize) -> bool {
    match log[n].call {
        Call::AddObligation { id: i, po } => i == id && po.frame == frame,
        Call::RequeueObligation { id: i, po } => i == id && po.frame == frame,
        _ => false,
    }
}

/// Queueing an obligation at a frame where it should stand keeps what holds.
pub proof fn lemma_tidy_put(
    sys: System,
    log: Seq<Event>,
    n: int,
    s: StateView,
    id: usize,
    frame: usize,
)
    requires
        0 <= n < log.len(),
        tidy(sys, log, n, s),
        id < s.obligations.len(),
        queues(log, n, id, frame),
        small(s) ==> placed(sys, s.at_frame(id, frame)),
    ensures
        tidy(sys, log, n + 1, s.moved(id, frame)),
        grown(s.moved(id, frame), s),
{
    let t = s.moved(id, frame);
    if small(s) {
        assert forall|i: usize| #[trigger] seated(log, n + 1, i, t.obligations) by {
            if i != id {
                assert(seated(log, n, i, s.obligations));
            }
        }
        assert forall|p: int| 0 <= p < n + 1 implies #[trigger] owned(log, p, t.obligations) by {
            if p < n {
                assert(owned(log, p, s.obligations));
            }
        }
        assert forall|l: Lit|
            t.options.ic3.abs_cst && #[trigger] t.abs_cst.contains(l) implies reported(
            log,
            n + 1,
            l,
        ) by {
            let q = choose|q: int| 0 <= q < n && #[trigger] reports(log, q, l);
            assert(reports(log, q, l));
        }
    }
}

/// Queueing an obligation again where it stands keeps what holds.
pub proof fn lemma_tidy_again(sys: System, log: Seq<Event>, n: int, s: StateView, id: usize)
    requires
        0 <= n < log.len(),
        tidy(sys, log, n, s),
        id < s.obligations.len(),
        queues(log, n, id, s.obligations[id as int].frame),
    ensures
        tidy(sys, log, n + 1, s),
{
    let frame = s.obligations[id as int].frame;
    assert(s.at_frame(id, frame) == s.obligations[id as int]);
    lemma_tidy_put(sys, log, n, s, id, frame);
    assert(s.moved(id, frame).obligations =~= s.obligations);
}

/// One more obligation that stands where it should keeps what holds.
pub proof fn lemma_tidy_new(
    sys: System,
    log: Seq<Event>,
    n: int,
    s: StateView,
    po: ObligationView,
)
    requires
        0 <= n < log.len(),
        tidy(sys, log, n, s),
        log[n].call == (Call::AddObligation { id: s.obligations.len() as usize, po }),
        small(s) ==> placed(sys, po),
    ensures
        tidy(sys, log, n + 1, s.with_obligation(po)),
        grown(s.with_obligation(po), s),
{
    let t = s.with_obligation(po);
    let new = s.obligations.len() as usize;
    if small(t) {
        assert forall|i: usize| #[trigger] seated(log, n + 1, i, t.obligations) by {
            if i != new {
                assert(seated(log, n, i, s.obligations));
            }
        }
        assert forall|p: int| 0 <= p < n + 1 implies #[trigger] owned(log, p, t.obligations) by {
            if p < n {
                assert(owned(log, p, s.obligations));
            }
        }
        assert forall|l: Lit|
            t.options.ic3.abs_cst && #[trigger] t.abs_cst.contains(l) implies reported(
            log,
            n + 1,
            l,
        ) by {
            let q = choose|q: int| 0 <= q < n && #[trigger] reports(log, q, l);
            assert(reports(log, q, l));
        }
    }
}

/// A lemma that is part of the cube of the obligation that it is added for keeps what holds.
pub proof fn lemma_tidy_lemma(sys: System, log: Seq<Event>, n: int, s: StateView)
    requires
        0 <= n < log.len(),
        tidy(sys, log, n, s),
        log[n].call is AddLemma,
        owned(log, n, s.obligations),
    ensures
        tidy(sys, log, n + 1, s),
{
    if small(s) {
        assert forall|i: usize| #[trigger] seated(log, n + 1, i, s.obligations) by {
            assert(seated(log, n, i, s.obligations));
        }
        assert forall|l: Lit|
            s.options.ic3.abs_cst && #[trigger] s.abs_cst.contains(l) implies reported(
            log,
            n + 1,
            l,
        ) by {
            let q = choose|q: int| 0 <= q < n && #[trigger] reports(log, q, l);
            assert(reports(log, q, l));
        }
    }
}

/// A lemma of a frame holds in all states that are reached in as many steps.
pub proof fn lemma_excluded_by(
    sys: System,
    log: Seq<Event>,
    n: int,
    pend: Seq<(Seq<Lit>, int)>,
    p: int,
    cube: Seq<Lit>,
)
    requires
        sound(sys, log, n, pend),
        0 <= p < n,
        lemma_at(log, p) matches Some((_, c)) && within(c, cube),
    ensures
        lemma_at(log, p) matches Some((j, _)) && excluded(sys, cube, j as int),
{
    let (j, c) = lemma_at(log, p)->0;
    assert forall|a: Set<u32>, i: nat| #[trigger] sys.walked(a, i) && i <= j implies !holds(
        a,
        cube,
    ) by {
        lemma_reached(sys, log, n, pend, a, i);
        if holds(a, cube) {
            lemma_within(a, c, cube);
        }
    }
}

/// Choosing how to generalize queues nothing.
proof fn lemma_strategy_ran(log: Seq<Event>, at: int, s: StateView, id: usize)
    requires
        0 <= at <= log.len(),
        strategy_run(log, at, s, id) is Some,
    ensures
        ({
            let (_, _, s2, at2) = strategy_run(log, at, s, id)->0;
            &&& ran(log, at, at2)
            &&& s2.obligations == s.obligations
            &&& s2.abs_cst == s.abs_cst
            &&& s2.options == s.options
        }),
{
    let window = window_of(s.obligations, id, 3);
    if s.options.ic3.enable_ctx_mab {
        let last = CTX_TOTAL_MIC_ARMS - 1;
        assert(asked(log, at + 1 + last, Call::ArmScore { arm: last as usize }));
        assert forall|p: int| at + 1 <= p < at + 1 + CTX_TOTAL_MIC_ARMS implies !puts(
            (#[trigger] log[p]).call,
        ) by {
            let k = p - (at + 1);
            assert(asked(log, at + 1 + k, Call::ArmScore { arm: k as usize }));
        }
    }
}

/// Generalizing the core of a blocked obligation does not fail.
proof fn lemma_core_tidy(
    sys: System,
    log: Seq<Event>,
    q: int,
    at: int,
    s: StateView,
    id: usize,
    pend: Seq<(Seq<Lit>, int)>,
)
    requires
        truthful(sys, log),
        lucid(sys, log, s.options.ic3.inn),
        standing(sys, log, at, s, pend),
        tidy(sys, log, at, s),
        id < s.obligations.len(),
        0 < s.obligations[id as int].frame <= s.level(),
        init_free(sys, s.obligations[id as int].lemma),
        0 <= q < at,
        log[q].call == (Call::Blocked {
            frame: s.obligations[id as int].frame,
            cube: s.obligations[id as int].lemma,
            strengthen: false,
        }),
        yes(log, q),
        last_query(log, at, s.obligations[id as int].frame - 1) == Some(q),
        generalize_core_run(log, at, s, id) is Some,
    ensures
        ({
            let (r, s2, at2) = generalize_core_run(log, at, s, id)->0;
            r is Ok && tidy(sys, log, at2, s2) && grown(s2, s)
        }),
{
    let inn = s.options.ic3.inn;
    let po = s.obligations[id as int];
    let core = log[at].reply->Cube_0;
    let pend2 = lemma_generalize_core(sys, log, q, at, s, id, pend);
    assert(lucid_event(sys, log, at, inn));
    assert(true_event(sys, log, at));
    assert(query_of(log[q].call, po.frame - 1)->0.cube == po.lemma);
    assert(within(core, po.lemma) && core.no_duplicates());
    lemma_strategy_ran(log, at + 1, s, id);
    let (arm, mic_type, s2, at2) = strategy_run(log, at + 1, s, id)->0;
    lemma_mic_steady(sys, log, inn, at2, s.setting(), po.frame, core, seq![], mic_type);
    let (r, at3) = mic_run(log, at2, s.setting(), inn, po.frame, core, seq![], mic_type)->0;
    let mic = r->Ok_0;
    lemma_push_steady(sys, log, inn, at3, s.level(), po.frame + 1, mic);
    let (reached, pushed, at4) = push_run(log, at3, s.level(), po.frame + 1, mic)->0;
    let at5 = reward_run(log, at4, s2, id, arm, core.len(), mic.len(), reached as usize)->0;
    let t = s2.moved(id, reached as usize);
    assert(ran(log, at, at5 + 2));
    lemma_tidy_ran(sys, log, at, at5 + 2, s, s2);
    assert(lemma_at(log, at5 + 3) == Some(((reached - 1) as usize, pushed)));
    assert(within(pushed, po.lemma));
    lemma_excluded_by(sys, log, at5 + 4, pend2, at5 + 3, po.lemma);
    lemma_tidy_put(sys, log, at5 + 2, s2, id, reached as usize);
    assert(owned(log, at5 + 3, t.obligations));
    lemma_tidy_lemma(sys, log, at5 + 3, t);
}

/// Adding the whole cube of a blocked obligation does not fail.
proof fn lemma_whole_tidy(
    sys: System,
    log: Seq<Event>,
    q: int,
    at: int,
    s: StateView,
    id: usize,
    pend: Seq<(Seq<Lit>, int)>,
)
    requires
        truthful(sys, log),
        standing(sys, log, at, s, pend),
        tidy(sys, log, at, s),
        id < s.obligations.len(),
        0 < s.obligations[id as int].frame <= s.level(),
        init_free(sys, s.obligations[id as int].lemma),
        0 <= q < at,
        log[q].call == (Call::Blocked {
            frame: s.obligations[id as int].frame,
            cube: s.obligations[id as int].lemma,
            strengthen: false,
        }),
        yes(log, q),
        generalize_whole_run(log, at, s, id) is Some,
    ensures
        ({
            let (r, s2, at2) = generalize_whole_run(log, at, s, id)->0;
            r is Ok && tidy(sys, log, at2, s2) && grown(s2, s)
        }),
{
    let po = s.obligations[id as int];
    let next = (po.frame + 1) as usize;
    let t = s.moved(id, next);
    lemma_generalize_whole(sys, log, q, at, s, id, pend);
    assert(lemma_at(log, at + 1) == Some((po.frame, po.lemma)));
    lemma_excluded_by(sys, log, at + 2, pend, at + 1, po.lemma);
    lemma_tidy_put(sys, log, at, s, id, next);
    assert(owned(log, at + 1, t.obligations));
    lemma_tidy_lemma(sys, log, at + 1, t);
}

/// Generalizing a blocked obligation does not fail.
proof fn lemma_generalize_tidy(
    sys: System,
    log: Seq<Event>,
    at: int,
    s: StateView,
    id: usize,
    pend: Seq<(Seq<Lit>, int)>,
)
    requires
        truthful(sys, log),
        lucid(sys, log, s.options.ic3.inn),
        standing(sys, log, at, s, pend),
        tidy(sys, log, at, s),
        id < s.obligations.len(),
        0 < s.obligations[id as int].frame <= s.level(),
        init_free(sys, s.obligations[id as int].lemma),
        0 < at,
        log[at - 1].call == (Call::Blocked {
            frame: s.obligations[id as int].frame,
            cube: s.obligations[id as int].lemma,
            strengthen: false,
        }),
        yes(log, at - 1),
        generalize_run(log, at, s, id) is Some,
    ensures
        ({
            let (r, s2, at2) = generalize_run(log, at, s, id)->0;
            r is Ok && tidy(sys, log, at2, s2) && grown(s2, s)
        }),
{
    reveal(generalize_run);
    let solver = s.obligations[id as int].frame - 1;
    assert(last_query(log, at, solver) == Some(at - 1));
    if !s.options.ic3.inn {
        lemma_core_tidy(sys, log, at - 1, at, s, id, pend);
    } else {
        lemma_sound_quiet(sys, log, at, at + 1, pend);
        lemma_standing(sys, log, at, at + 1, s, s, pend, pend);
        lemma_tidy_ran(sys, log, at, at + 1, s, s);
        if yes(log, at) {
            lemma_whole_tidy(sys, log, at - 1, at + 1, s, id, pend);
        } else {
            assert(last_query(log, at + 1, solver) == last_query(log, at, solver));
            lemma_core_tidy(sys, log, at - 1, at + 1, s, id, pend);
        }
    }
}

/// A state that is reached in less steps than there are frames is not bad where the engine looks
/// ahead.
proof fn lemma_not_bad(
    sys: System,
    log: Seq<Event>,
    n: int,
    s: StateView,
    pend: Seq<(Seq<Lit>, int)>,
    a: Set<u32>,
    i: nat,
)
    requires
        standing(sys, log, n, s, pend),
        sys.ahead,
        init_safe(sys),
        sys.walked(a, i),
        i <= s.level(),
    ensures
        !sys.fails(a),
{
    if i > 0 {
        let b = choose|b: Set<u32>| sys.walked(b, (i - 1) as nat) && #[trigger] sys.walks(b, a);
        lemma_reached(sys, log, n, pend, b, (i - 1) as nat);
        lemma_admitted(log, n, n, s.solvers - 2, i - 1, b);
        assert(!sys.is_goal(b));
    } else {
        assert(sys.starts(a));
    }
}

/// A predecessor of the cube of an obligation stands where it should.
proof fn lemma_predecessor_placed(
    sys: System,
    log: Seq<Event>,
    p: int,
    s: StateView,
    id: usize,
    pend: Seq<(Seq<Lit>, int)>,
)
    requires
        truthful(sys, log),
        lucid(sys, log, s.options.ic3.inn),
        standing(sys, log, p - 1, s, pend),
        sys.ahead ==> init_safe(sys),
        id < s.obligations.len(),
        0 < s.obligations[id as int].frame <= s.level(),
        placed(sys, s.obligations[id as int]),
        0 < p < log.len(),
        log[p - 1].call == (Call::Blocked {
            frame: s.obligations[id as int].frame,
            cube: s.obligations[id as int].lemma,
            strengthen: false,
        }),
        !yes(log, p - 1),
        log[p].call == (Call::GetPred {
            frame: s.obligations[id as int].frame,
            strengthen: true,
        }),
    ensures
        placed(sys, predecessor(s, id, log[p].reply->Pred_0, log[p].reply->Pred_1)),
{
    let po = s.obligations[id as int];
    let model = log[p].reply->Pred_0;
    let inputs = log[p].reply->Pred_1;
    let new = predecessor(s, id, model, inputs);
    lemma_sorted(model);
    lemma_same_members(sys, sorted(model), model);
    assert(last_query(log, p, po.frame - 1) == Some(p - 1));
    assert(query_of(log[p - 1].call, po.frame - 1)->0.cube == po.lemma);
    if new.frame == 0 {
        assert(lucid_event(sys, log, p, s.options.ic3.inn));
        let a = choose|a: Set<u32>| #[trigger]
            admitted(log, p - 1, po.frame - 1, a) && holds(a, model);
        assert(sys.starts(a) && holds(a, new.lemma));
    } else if sys.exact {
        assert(true_event(sys, log, p));
        assert forall|a: Set<u32>, i: nat| #[trigger]
            sys.walked(a, i) && i <= new.frame - 1 implies !holds(a, new.lemma) by {
            if holds(a, new.lemma) {
                assert(holds(a, model));
                let b = choose|b: Set<u32>| #[trigger]
                    sys.takes(a, inputs, b) && holds(b, po.lemma);
                if sys.ahead {
                    lemma_not_bad(sys, log, p - 1, s, pend, a, i);
                }
                assert(sys.moves(a, b));
                assert(sys.walks(a, b));
                assert(sys.walked(b, i + 1));
            }
        }
    }
}

/// Trying to block an obligation does not fail.
proof fn lemma_attempt_tidy(
    sys: System,
    log: Seq<Event>,
    at: int,
    s: StateView,
    id: usize,
    pend: Seq<(Seq<Lit>, int)>,
)
    requires
        truthful(sys, log),
        lucid(sys, log, s.options.ic3.inn),
        standing(sys, log, at, s, pend),
        tidy(sys, log, at, s),
        sys.ahead ==> init_safe(sys),
        id < s.obligations.len(),
        small(s) ==> s.obligations[id as int].frame <= s.level(),
        init_free(sys, s.obligations[id as int].lemma),
        attempt_run(log, at, s, id) is Some,
    ensures
        ({
            let (r, s2, at2) = attempt_run(log, at, s, id)->0;
            grown(s2, s) && (small(s2) ==> r is Ok) && tidy(sys, log, at2, s2)
        }),
{
    let inn = s.options.ic3.inn;
    let po = s.obligations[id as int];
    if small(s) {
        assert(placed(sys, s.obligations[id as int]));
        if po.frame == 0 {
            let a = choose|a: Set<u32>| #[trigger] sys.starts(a) && holds(a, po.lemma);
            assert(!holds(a, po.lemma));
        }
    }
    if let Some(k) = log[at].reply->Index_0 {
        assert(lucid_event(sys, log, at, inn));
        let next = (k + 1) as usize;
        assert forall|a: Set<u32>, i: nat| #[trigger] sys.walked(a, i) && i <= k implies !holds(
            a,
            po.lemma,
        ) by {
            lemma_reached(sys, log, at, pend, a, i);
            lemma_admitted(log, at, at, k as int, i as int, a);
        }
        lemma_tidy_ran(sys, log, at, at + 2, s, s);
        lemma_tidy_put(sys, log, at + 2, s, id, next);
    } else if small(s) {
        lemma_tidy_ran(sys, log, at, at + 3, s, s);
        lemma_sound_quiet(sys, log, at, at + 2, pend);
        lemma_standing(sys, log, at, at + 2, s, s, pend, pend);
        lemma_sound_quiet(sys, log, at, at + 3, pend);
        lemma_standing(sys, log, at, at + 3, s, s, pend, pend);
        if yes(log, at + 2) {
            lemma_generalize_tidy(sys, log, at + 3, s, id, pend);
        } else {
            lemma_predecessor_placed(sys, log, at + 3, s, id, pend);
            let new = predecessor(s, id, log[at + 3].reply->Pred_0, log[at + 3].reply->Pred_1);
            lemma_tidy_ran(sys, log, at + 3, at + 4, s, s);
            lemma_tidy_new(sys, log, at + 4, s, new);
            lemma_tidy_again(sys, log, at + 5, s.with_obligation(new), id);
        }
    } else {
        lemma_attempt_grown(log, at, s, id);
    }
}

/// Trying to block an obligation loses none.
proof fn lemma_attempt_grown(log: Seq<Event>, at: int, s: StateView, id: usize)
    requires
        id < s.obligations.len(),
        attempt_run(log, at, s, id) is Some,
    ensures
        ({
            let (_, s2, _) = attempt_run(log, at, s, id)->0;
            grown(s2, s)
        }),
{
    reveal(generalize_run);
}

/// Checking a counterexample does not fail.
proof fn lemma_refine_tidy(sys: System, log: Seq<Event>, at: int, s: StateView, id: usize)
    requires
        lucid(sys, log, s.options.ic3.inn),
        0 <= at,
        s.options.ic3.abs_cst,
        tidy(sys, log, at, s),
        id < s.obligations.len(),
        refine_run(log, at, s, id) is Some,
    ensures
        ({
            let (r, s2, at2) = refine_run(log, at, s, id)->0;
            grown(s2, s) && (small(s2) ==> r is Ok) && tidy(sys, log, at2, s2)
        }),
{
    let (r, s2, at2) = refine_run(log, at, s, id)->0;
    lemma_tidy_again(sys, log, at, s, id);
    lemma_tidy_ran(sys, log, at + 1, at2, s, s);
    if small(s) {
        assert(lucid_event(sys, log, at + 1, s.options.ic3.inn));
        if let Some(more) = log[at + 1].reply->MaybeCube_0 {
            assert(all_new(s.abs_cst, more)) by {
                assert forall|i: int| 0 <= i < more.len() implies !(s.abs_cst + more.take(
                    i,
                )).contains(#[trigger] more[i]) by {
                    assert(more.contains(more[i]));
                    let known = s.abs_cst + more.take(i);
                    if known.contains(more[i]) {
                        let k = known.index_of(more[i]);
                        if k < s.abs_cst.len() {
                            assert(s.abs_cst[k] == more[i]);
                            assert(s.abs_cst.contains(more[i]));
                            assert(in_order(sys, log, at + 1, s));
                        } else {
                            assert(more[k - s.abs_cst.len()] == more[i]);
                        }
                    }
                }
            }
            assert forall|l: Lit| #[trigger] s2.abs_cst.contains(l) implies reported(
                log,
                at2,
                l,
            ) by {
                let k = s2.abs_cst.index_of(l);
                if k < s.abs_cst.len() {
                    assert(s.abs_cst[k] == l);
                    assert(s.abs_cst.contains(l));
                } else {
                    assert(more[k - s.abs_cst.len()] == l);
                    assert(reports(log, at + 1, l));
                }
            }
        }
    }
}

/// Working on one obligation does not fail.
proof fn lemma_turn_tidy(
    sys: System,
    log: Seq<Event>,
    at: int,
    s: StateView,
    pend: Seq<(Seq<Lit>, int)>,
)
    requires
        truthful(sys, log),
        lucid(sys, log, s.options.ic3.inn),
        standing(sys, log, at, s, pend),
        tidy(sys, log, at, s),
        sys.ahead ==> init_safe(sys),
        turn_run(log, at, s) is Some,
    ensures
        ({
            let (r, s2, at2) = turn_run(log, at, s)->0;
            grown(s2, s) && (small(s2) ==> r is Ok) && tidy(sys, log, at2, s2)
        }),
{
    let inn = s.options.ic3.inn;
    lemma_tidy_ran(sys, log, at, at + 1, s, s);
    if let Some(id) = log[at].reply->Index_0 {
        let po = s.obligations[id as int];
        assert(lucid_event(sys, log, at, inn));
        assert(small(s) ==> seated(log, at, id, s.obligations));
        if id < s.obligations.len() {
            lemma_tidy_ran(sys, log, at, at + 2, s, s);
            lemma_sound_quiet(sys, log, at, at + 2, pend);
            lemma_standing(sys, log, at, at + 2, s, s, pend, pend);
            if !yes(log, at + 1) {
                lemma_tidy_ran(sys, log, at, at + 3, s, s);
                lemma_sound_quiet(sys, log, at, at + 3, pend);
                lemma_standing(sys, log, at, at + 3, s, s, pend, pend);
                assert(small(s) ==> placed(sys, s.obligations[id as int]));
                if !yes(log, at + 2) {
                    assert(true_event(sys, log, at + 2));
                    lemma_attempt_tidy(sys, log, at + 3, s, id, pend);
                } else if s.options.ic3.abs_cst {
                    lemma_refine_tidy(sys, log, at + 3, s, id);
                } else {
                    if small(s) && po.frame > 0 {
                        assert(excluded(sys, po.lemma, po.frame - 1));
                        assert(!meets_init(sys, po.lemma)) by {
                            assert forall|a: Set<u32>| #[trigger] sys.starts(a) implies !holds(
                                a,
                                po.lemma,
                            ) by {
                                assert(sys.walked(a, 0));
                            }
                        }
                    }
                    if inn && po.frame > 0 {
                        lemma_tidy_ran(sys, log, at, at + 4, s, s);
                        lemma_sound_quiet(sys, log, at, at + 4, pend);
                        lemma_standing(sys, log, at, at + 4, s, s, pend, pend);
                        assert(lucid_event(sys, log, at + 3, inn));
                        if !yes(log, at + 3) {
                            assert(true_event(sys, log, at + 3));
                            lemma_attempt_tidy(sys, log, at + 4, s, id, pend);
                        }
                    } else {
                        assert(lucid_event(sys, log, at + 2, inn));
                        lemma_tidy_again(sys, log, at + 3, s, id);
                    }
                }
            }
        }
    }
}

/// Working on obligations does not fail.
pub proof fn lemma_block_tidy(
    sys: System,
    log: Seq<Event>,
    at: int,
    s: StateView,
    rounds: u64,
    pend: Seq<(Seq<Lit>, int)>,
)
    requires
        truthful(sys, log),
        lucid(sys, log, s.options.ic3.inn),
        standing(sys, log, at, s, pend),
        tidy(sys, log, at, s),
        sys.ahead ==> init_safe(sys),
        block_run(log, at, s, rounds) is Some,
    ensures
        ({
            let (r, s2, _, at2) = block_run(log, at, s, rounds)->0;
            grown(s2, s) && (small(s2) ==> r is Ok) && tidy(sys, log, at2, s2)
        }),
    decreases rounds,
{
    reveal(block_run);
    if rounds > 0 {
        let pend2 = lemma_turn(sys, log, at, s, pend);
        lemma_turn_tidy(sys, log, at, s, pend);
        let (r, s2, at2) = turn_run(log, at, s)->0;
        if r == Ok::<Turn, Fault>(Turn::More) {
            lemma_block_tidy(sys, log, at2, s2, (rounds - 1) as u64, pend2);
        }
    }
}

/// Whether the obligation that a lemma was added for is known, and the lemma is part of its cube.
spec fn of_known(s: StateView, lemma: FrameLemmaView) -> bool {
    lemma.po matches Some(id) ==> id < s.obligations.len() && within(
        lemma.cube,
        s.obligations[id as int].lemma,
    )
}

/// Moving a lemma to the next frame does not fail.
proof fn lemma_carry_tidy(
    sys: System,
    log: Seq<Event>,
    at: int,
    s: StateView,
    frame: usize,
    lemma: FrameLemmaView,
    tried: bool,
    pend: Seq<(Seq<Lit>, int)>,
)
    requires
        truthful(sys, log),
        lucid(sys, log, s.options.ic3.inn),
        standing(sys, log, at, s, pend),
        tidy(sys, log, at, s),
        of_known(s, lemma),
        frame < s.level(),
        0 < at,
        init_free(sys, lemma.cube),
        log[at - 1].call == (Call::Blocked {
            frame: (frame + 1) as usize,
            cube: lemma.cube,
            strengthen: false,
        }),
        yes(log, at - 1),
        carry_run(log, at, s, frame, lemma, tried) is Some,
    ensures
        ({
            let (r, s2, at2) = carry_run(log, at, s, frame, lemma, tried)->0;
            r is Ok && tidy(sys, log, at2, s2) && grown(s2, s)
        }),
{
    let inn = s.options.ic3.inn;
    let solver = frame as int;
    lemma_carry(sys, log, at, s, frame, lemma, tried, pend);
    let (core, at2) = core_run(log, at, inn, frame, lemma.cube)->0;
    let query = Query { cube: lemma.cube, strengthen: false, constraint: seq![] };
    assert(query_of(log[at - 1].call, solver) == Some(query));
    assert(last_query(log, at, solver) == Some(at - 1));
    assert(within(core, lemma.cube)) by {
        if !inn {
            assert(lucid_event(sys, log, at, inn));
        } else if !yes(log, at) {
            assert(last_query(log, at + 1, solver) == Some(at - 1));
            assert(lucid_event(sys, log, at + 1, inn));
        }
    }
    assert(ran(log, at, at2));
    let (r, s2, at3) = advance_run(log, at2, s, frame, lemma.po)->0;
    assert(r is Ok);
    lemma_tidy_ran(sys, log, at, at2, s, s);
    assert(lemma_at(log, at3) == Some(((frame + 1) as usize, core)));
    if let Some(id) = lemma.po {
        let po = s.obligations[id as int];
        let to = (frame + 2) as usize;
        lemma_excluded_by(sys, log, at3 + 2, pend, at3, po.lemma);
        if po.frame < to {
            if yes(log, at2) {
                lemma_tidy_ran(sys, log, at2, at2 + 2, s, s);
                lemma_tidy_put(sys, log, at2 + 2, s, id, to);
            } else {
                lemma_tidy_ran(sys, log, at2, at2 + 1, s, s);
            }
        }
    }
    assert(tidy(sys, log, at3, s2));
    assert(owned(log, at3, s2.obligations));
    lemma_tidy_lemma(sys, log, at3, s2);
    lemma_tidy_ran(sys, log, at3 + 1, at3 + 2, s2, s2);
}

/// Excluding a counterexample to propagation does not fail.
proof fn lemma_ctp_tidy(sys: System, log: Seq<Event>, at: int, s: StateView, frame: usize)
    requires
        truthful(sys, log),
        lucid(sys, log, s.options.ic3.inn),
        tidy(sys, log, at, s),
        0 <= at,
        0 < frame,
        ctp_run(log, at, s, frame) is Some,
    ensures
        ({
            let (r, at2) = ctp_run(log, at, s, frame)->0;
            r is Ok && tidy(sys, log, at2, s)
        }),
{
    let inn = s.options.ic3.inn;
    let model = log[at].reply->Pred_0;
    lemma_tidy_ran(sys, log, at, at + 2, s, s);
    if !yes(log, at + 1) {
        lemma_tidy_ran(sys, log, at, at + 3, s, s);
        if yes(log, at + 2) {
            let core = log[at + 3].reply->Cube_0;
            let query = Query { cube: model, strengthen: true, constraint: seq![] };
            let mic_type = MicType::DropVar(DropVarParameter::zero());
            assert(query_of(log[at + 2].call, frame - 1) == Some(query));
            lemma_core_steady(sys, log, inn, at + 2, frame - 1, query);
            assert(true_event(sys, log, at + 3));
            lemma_mic_steady(sys, log, inn, at + 4, s.setting(), frame, core, seq![], mic_type);
            let (r, at2) = mic_run(
                log,
                at + 4,
                s.setting(),
                inn,
                frame,
                core,
                seq![],
                mic_type,
            )->0;
            lemma_tidy_ran(sys, log, at, at2, s, s);
            lemma_tidy_ran(sys, log, at2, at2 + 1, s, s);
        }
    }
}

/// Trying to move a lemma does not fail.
proof fn lemma_move_tidy(
    sys: System,
    log: Seq<Event>,
    at: int,
    s: StateView,
    frame: usize,
    lemma: FrameLemmaView,
    tries: nat,
    tried: bool,
    pend: Seq<(Seq<Lit>, int)>,
)
    requires
        truthful(sys, log),
        lucid(sys, log, s.options.ic3.inn),
        standing(sys, log, at, s, pend),
        tidy(sys, log, at, s),
        of_known(s, lemma),
        0 < frame < s.level(),
        init_free(sys, lemma.cube),
        move_run(log, at, s, frame, lemma, tries, tried) is Some,
    ensures
        ({
            let (r, s2, at2) = move_run(log, at, s, frame, lemma, tries, tried)->0;
            r is Ok && tidy(sys, log, at2, s2) && grown(s2, s)
        }),
    decreases tries,
{
    if tries > 0 {
        lemma_sound_quiet(sys, log, at, at + 1, pend);
        lemma_standing(sys, log, at, at + 1, s, s, pend, pend);
        lemma_tidy_ran(sys, log, at, at + 1, s, s);
        if yes(log, at) {
            lemma_carry_tidy(sys, log, at + 1, s, frame, lemma, tried, pend);
        } else if s.options.ic3.ctp {
            lemma_ctp(sys, log, at + 1, s, frame, pend);
            lemma_ctp_tidy(sys, log, at + 1, s, frame);
            let (r, at2) = ctp_run(log, at + 1, s, frame)->0;
            if r == Ok::<Ctp, Fault>(Ctp::Excluded) {
                lemma_move_tidy(sys, log, at2, s, frame, lemma, (tries - 1) as nat, true, pend);
            }
        }
    }
}

/// The same for several lemmas.
proof fn lemma_moves_tidy(
    sys: System,
    log: Seq<Event>,
    at: int,
    s: StateView,
    frame: usize,
    lemmas: Seq<FrameLemmaView>,
    k: int,
    pend: Seq<(Seq<Lit>, int)>,
)
    requires
        truthful(sys, log),
        lucid(sys, log, s.options.ic3.inn),
        standing(sys, log, at, s, pend),
        tidy(sys, log, at, s),
        0 < frame < s.level(),
        0 <= k,
        forall|i: int| 0 <= i < lemmas.len() ==> init_free(sys, (#[trigger] lemmas[i]).cube),
        forall|i: int| 0 <= i < lemmas.len() ==> of_known(s, #[trigger] lemmas[i]),
        moves_run(log, at, s, frame, lemmas, k) is Some,
    ensures
        ({
            let (r, s2, at2) = moves_run(log, at, s, frame, lemmas, k)->0;
            r is Ok && tidy(sys, log, at2, s2) && grown(s2, s)
        }),
    decreases lemmas.len() - k,
{
    if k < lemmas.len() {
        lemma_sound_quiet(sys, log, at, at + 1, pend);
        lemma_standing(sys, log, at, at + 1, s, s, pend, pend);
        lemma_tidy_ran(sys, log, at, at + 1, s, s);
        if !yes(log, at) {
            lemma_moves_tidy(sys, log, at + 1, s, frame, lemmas, k + 1, pend);
        } else {
            lemma_move(sys, log, at + 1, s, frame, lemmas[k], max_tries(), false, pend);
            lemma_move_tidy(sys, log, at + 1, s, frame, lemmas[k], max_tries(), false, pend);
            let (r, s2, at2) = move_run(
                log,
                at + 1,
                s,
                frame,
                lemmas[k],
                max_tries(),
                false,
            )->0;
            if r == Ok::<bool, Fault>(false) {
                assert forall|i: int| 0 <= i < lemmas.len() implies of_known(
                    s2,
                    #[trigger] lemmas[i],
                ) by {
                    assert(of_known(s, lemmas[i]));
                }
                lemma_moves_tidy(sys, log, at2, s2, frame, lemmas, k + 1, pend);
            }
        }
    }
}

/// The same for all lemmas of some frames.
proof fn lemma_frames_tidy(
    sys: System,
    log: Seq<Event>,
    at: int,
    s: StateView,
    frame: usize,
    pend: Seq<(Seq<Lit>, int)>,
)
    requires
        truthful(sys, log),
        lucid(sys, log, s.options.ic3.inn),
        standing(sys, log, at, s, pend),
        tidy(sys, log, at, s),
        small(s),
        0 < frame,
        frames_run(log, at, s, frame) is Some,
    ensures
        ({
            let (r, s2, at2) = frames_run(log, at, s, frame)->0;
            (small(s2) ==> r is Ok) && tidy(sys, log, at2, s2) && grown(s2, s)
        }),
    decreases s.level() - frame,
{
    reveal(frames_run);
    if frame >= s.level() {
        lemma_tidy_ran(sys, log, at, at + 1, s, s);
    } else {
        let inn = s.options.ic3.inn;
        lemma_sound_quiet(sys, log, at, at + 2, pend);
        lemma_standing(sys, log, at, at + 2, s, s, pend, pend);
        lemma_sound_quiet(sys, log, at, at + 1, pend);
        lemma_standing(sys, log, at, at + 1, s, s, pend, pend);
        lemma_tidy_ran(sys, log, at, at + 2, s, s);
        let lemmas = log[at + 1].reply->Lemmas_0;
        lemma_frame_lemmas(sys, log, at + 1, frame, s, pend);
        assert forall|i: int| 0 <= i < lemmas.len() implies of_known(s, #[trigger] lemmas[i]) by {
            assert(lucid_event(sys, log, at + 1, inn));
            let q = choose|q: int| 0 <= q < at + 1 && #[trigger] adds_for(log, q, lemmas[i]);
            assert(owned(log, q, s.obligations));
        }
        lemma_moves(sys, log, at + 2, s, frame, lemmas, 0, pend);
        lemma_moves_tidy(sys, log, at + 2, s, frame, lemmas, 0, pend);
        let (r, s2, at2) = moves_run(log, at + 2, s, frame, lemmas, 0)->0;
        if r == Ok::<bool, Fault>(false) {
            lemma_sound_quiet(sys, log, at2, at2 + 1, pend);
            lemma_standing(sys, log, at2, at2 + 1, s2, s2, pend, pend);
            lemma_tidy_ran(sys, log, at2, at2 + 1, s2, s2);
            if !yes(log, at2) {
                lemma_moves_numbered(log, at + 2, s, frame, lemmas, 0);
                lemma_frames_tidy(sys, log, at2 + 1, s2, (frame + 1) as usize, pend);
            }
        }
    }
}

/// Moving lemmas makes no obligation.
proof fn lemma_moves_numbered(
    log: Seq<Event>,
    at: int,
    s: StateView,
    frame: usize,
    lemmas: Seq<FrameLemmaView>,
    k: int,
)
    requires
        moves_run(log, at, s, frame, lemmas, k) is Some,
    ensures
        ({
            let (_, s2, _) = moves_run(log, at, s, frame, lemmas, k)->0;
            s2.obligations.len() == s.obligations.len()
        }),
    decreases lemmas.len() - k,
{
    if k < lemmas.len() {
        if !yes(log, at) {
            lemma_moves_numbered(log, at + 1, s, frame, lemmas, k + 1);
        } else {
            lemma_move_numbered(log, at + 1, s, frame, lemmas[k], max_tries(), false);
            let (r, s2, at2) = move_run(
                log,
                at + 1,
                s,
                frame,
                lemmas[k],
                max_tries(),
                false,
            )->0;
            if r == Ok::<bool, Fault>(false) {
                lemma_moves_numbered(log, at2, s2, frame, lemmas, k + 1);
            }
        }
    }
}

/// The same for one lemma.
proof fn lemma_move_numbered(
    log: Seq<Event>,
    at: int,
    s: StateView,
    frame: usize,
    lemma: FrameLemmaView,
    tries: nat,
    tried: bool,
)
    requires
        move_run(log, at, s, frame, lemma, tries, tried) is Some,
    ensures
        ({
            let (_, s2, _) = move_run(log, at, s, frame, lemma, tries, tried)->0;
            s2.obligations.len() == s.obligations.len()
        }),
    decreases tries,
{
    if tries > 0 && !yes(log, at) && s.options.ic3.ctp {
        if let Some((Ok(Ctp::Excluded), at2)) = ctp_run(log, at + 1, s, frame) {
            lemma_move_numbered(log, at2, s, frame, lemma, (tries - 1) as nat, true);
        }
    }
}

/// Propagation does not fail.
proof fn lemma_propagate_tidy(
    sys: System,
    log: Seq<Event>,
    at: int,
    s: StateView,
    pend: Seq<(Seq<Lit>, int)>,
)
    requires
        truthful(sys, log),
        lucid(sys, log, s.options.ic3.inn),
        standing(sys, log, at, s, pend),
        tidy(sys, log, at, s),
        small(s),
        propagate_run(log, at, s, None) is Some,
    ensures
        ({
            let (r, s2, at2) = propagate_run(log, at, s, None)->0;
            (small(s2) ==> r is Ok) && tidy(sys, log, at2, s2) && grown(s2, s)
        }),
{
    let first = log[at].reply->Size_0;
    lemma_sound_quiet(sys, log, at, at + 1, pend);
    lemma_standing(sys, log, at, at + 1, s, s, pend, pend);
    lemma_tidy_ran(sys, log, at, at + 1, s, s);
    lemma_frames_tidy(
        sys,
        log,
        at + 1,
        s,
        if first < 1 {
            1
        } else {
            first
        },
        pend,
    );
}

/// Requests that queue nothing.
proof fn lemma_asked_ran(log: Seq<Event>, at: int, calls: Seq<Call>)
    requires
        0 <= at <= log.len(),
        asked_all(log, at, calls),
        forall|k: int| 0 <= k < calls.len() ==> !puts(#[trigger] calls[k]),
    ensures
        ran(log, at, at + calls.len()),
{
    if calls.len() > 0 {
        assert(asked(log, at + (calls.len() - 1), calls[calls.len() - 1]));
    }
    assert forall|p: int| at <= p < at + calls.len() implies !puts((#[trigger] log[p]).call) by {
        assert(asked(log, at + (p - at), calls[p - at]));
    }
}

/// Collecting the values of latches queues nothing.
proof fn lemma_settled_ran(log: Seq<Event>, at: int, latchs: Seq<Var>, k: int, found: Seq<Lit>)
    requires
        0 <= at <= log.len(),
        settled_run(log, at, latchs, k, found) is Some,
    ensures
        ({
            let (_, at2) = settled_run(log, at, latchs, k, found)->0;
            ran(log, at, at2)
        }),
    decreases latchs.len() - k,
{
    if k < latchs.len() {
        if yes(log, at) {
            lemma_settled_ran(log, at + 1, latchs, k + 1, found);
        } else {
            let lit = latchs[k].lit_spec();
            lemma_settled_ran(
                log,
                at + 2,
                latchs,
                k + 1,
                match log[at + 1].reply->Value_0 {
                    None => found,
                    Some(v) => found.push(lit.negation_if(!v)),
                },
            );
        }
    }
}

/// Making a frame queues nothing.
proof fn lemma_extend_ran(log: Seq<Event>, at: int, s: StateView)
    requires
        0 <= at <= log.len(),
        extend_run(log, at, s) is Some,
    ensures
        ({
            let (s2, at2) = extend_run(log, at, s)->0;
            ran(log, at, at2) && s2 == one_more(s)
        }),
{
    reveal(extend_run);
    lemma_asked_ran(log, at, frame_calls(s));
    let at2 = at + frame_calls(s).len();
    if s.solvers == 0 {
        let init = log[at2].reply->Cube_0;
        lemma_asked_ran(log, at2 + 1, lemma_calls(0, units(init)));
        let at3 = at2 + 1 + init.len();
        lemma_settled_ran(log, at3, s.latchs, 0, seq![]);
        let (found, at4) = settled_run(log, at3, s.latchs, 0, seq![])->0;
        lemma_asked_ran(log, at4, init_calls(found));
    } else if s.solvers == 1 {
        lemma_asked_ran(log, at2, lemma_calls(1, s.pre_lemmas));
    }
}

/// A state that is looked for makes an obligation that stands where it should.
proof fn lemma_goal_placed(
    sys: System,
    log: Seq<Event>,
    p: int,
    s: StateView,
    pend: Seq<(Seq<Lit>, int)>,
    model: Seq<Lit>,
    input: Seq<Seq<Lit>>,
)
    requires
        lucid(sys, log, s.options.ic3.inn),
        standing(sys, log, p, s, pend),
        p < log.len(),
        log[p].call == (Call::GetBad { level: s.level() }),
        log[p].reply->BadState_0 == Some((model, input)),
    ensures
        placed(sys, last_obligation(s.level(), model, input)),
{
    let po = last_obligation(s.level(), model, input);
    lemma_sorted(model);
    lemma_same_members(sys, sorted(model), model);
    assert(lucid_event(sys, log, p, s.options.ic3.inn));
    if po.frame == 0 {
        let a = choose|a: Set<u32>| #[trigger]
            admitted(log, p, s.level() as int, a) && holds(a, model);
        assert(sys.starts(a) && holds(a, po.lemma));
    } else if sys.exact {
        assert forall|a: Set<u32>, i: nat| #[trigger]
            sys.walked(a, i) && i <= po.frame - 1 implies !holds(a, po.lemma) by {
            lemma_reached(sys, log, p, pend, a, i);
            lemma_admitted(log, p, p, s.solvers - 2, i as int, a);
            if holds(a, po.lemma) {
                assert(holds(a, model));
            }
        }
    }
}

/// The search does not fail, but for want of numbers.
proof fn lemma_search_tidy(
    sys: System,
    log: Seq<Event>,
    at: int,
    s: StateView,
    rounds: u64,
    pend: Seq<(Seq<Lit>, int)>,
)
    requires
        truthful(sys, log),
        lucid(sys, log, s.options.ic3.inn),
        standing(sys, log, at, s, pend),
        tidy(sys, log, at, s),
        inductive_clauses(sys, s.pre_lemmas),
        sys.ahead ==> init_safe(sys),
        search_run(log, at, s, rounds) is Some,
    ensures
        ({
            let (r, s2, _) = search_run(log, at, s, rounds)->0;
            &&& s.obligations.len() <= s2.obligations.len()
            &&& small(s2) ==> (r matches Err(f) ==> f == Fault::TooManyFrames)
        }),
    decreases rounds,
{
    reveal(search_run);
    let pend2 = lemma_block(sys, log, at, s, rounds, pend);
    lemma_block_tidy(sys, log, at, s, rounds, pend);
    let (r, s2, left, at2) = block_run(log, at, s, rounds)->0;
    if r == Ok::<Turn, Fault>(Turn::Drained) {
        lemma_sound_quiet(sys, log, at2, at2 + 1, pend2);
        lemma_standing(sys, log, at2, at2 + 1, s2, s2, pend2, pend2);
        lemma_tidy_ran(sys, log, at2, at2 + 1, s2, s2);
        assert(true_event(sys, log, at2));
        match log[at2].reply->BadState_0 {
            Some((model, input)) => {
                let po = last_obligation(s2.level(), model, input);
                lemma_goal(sys, log, at2, s2, pend2, model, input);
                lemma_goal_placed(sys, log, at2, s2, pend2, model, input);
                lemma_tidy_new(sys, log, at2 + 1, s2, po);
                lemma_sound_quiet(sys, log, at2, at2 + 2, pend2);
                let t = s2.with_obligation(po);
                lemma_standing(sys, log, at2, at2 + 2, s2, t, pend2, pend2);
                lemma_search_tidy(sys, log, at2 + 2, t, left, pend2);
            },
            None => {
                assert(guarded(sys, log, at2, s2.solvers - 1));
                lemma_later(sys, log, at2, at2 + 1, s2.solvers - 1);
                lemma_advance_level(sys, log, at2 + 1, s2, pend2);
                let (r3, s3, at3) = advance_level_run(log, at2 + 1, s2)->0;
                if s2.solvers < usize::MAX - 2 {
                    lemma_extend(sys, log, at2 + 1, s2, pend2);
                    lemma_extend_ran(log, at2 + 1, s2);
                    let (t, at4) = extend_run(log, at2 + 1, s2)->0;
                    lemma_tidy_ran(sys, log, at2 + 1, at4, s2, t);
                    lemma_frames_numbered(log, at4, t, None);
                    if small(t) {
                        lemma_propagate_tidy(sys, log, at4, t, pend2);
                        let (r5, s5, at5) = propagate_run(log, at4, t, None)->0;
                        if r5 == Ok::<bool, Fault>(false) {
                            lemma_search_tidy(sys, log, at3, s3, left, pend2);
                        }
                    } else if r3 == Ok::<bool, Fault>(false) {
                        lemma_search_tidy(sys, log, at3, s3, left, pend2);
                    }
                }
            },
        }
    }
}

/// Propagation makes no obligation.
proof fn lemma_frames_numbered(log: Seq<Event>, at: int, s: StateView, from: Option<usize>)
    requires
        propagate_run(log, at, s, from) is Some,
    ensures
        ({
            let (_, s2, _) = propagate_run(log, at, s, from)->0;
            s2.obligations.len() == s.obligations.len()
        }),
{
    let first = match from {
        Some(f) => f,
        None => log[at].reply->Size_0,
    };
    lemma_frames_from(
        log,
        if from is None {
            at + 1
        } else {
            at
        },
        s,
        if first < 1 {
            1
        } else {
            first
        },
    );
}

/// The same from a frame on.
proof fn lemma_frames_from(log: Seq<Event>, at: int, s: StateView, frame: usize)
    requires
        frames_run(log, at, s, frame) is Some,
    ensures
        ({
            let (_, s2, _) = frames_run(log, at, s, frame)->0;
            s2.obligations.len() == s.obligations.len()
        }),
    decreases s.level() - frame,
{
    reveal(frames_run);
    if frame < s.level() {
        let lemmas = log[at + 1].reply->Lemmas_0;
        lemma_moves_numbered(log, at + 2, s, frame, lemmas, 0);
        let (r, s2, at2) = moves_run(log, at + 2, s, frame, lemmas, 0)->0;
        if r == Ok::<bool, Fault>(false) && !yes(log, at2) {
            lemma_frames_from(log, at2 + 1, s2, (frame + 1) as usize);
        }
    }
}

/// Whether nothing has been queued, and no constraint is in force where they are left out, as with a
/// new engine.
pub open spec fn orderly(log: Seq<Event>, s: StateView) -> bool {
    ran(log, 0, log.len() as int) && (s.options.ic3.abs_cst ==> s.abs_cst.len() == 0)
}

/// A new engine has queued nothing.
pub proof fn law_new_orderly(log: Seq<Event>, inputs: Seq<Var>, s: StateView)
    requires
        asked_all(log, 0, input_calls(inputs)),
        log.len() == inputs.len(),
        s.options.ic3.abs_cst ==> s.abs_cst.len() == 0,
    ensures
        orderly(log, s),
{
    lemma_asked_ran(log, 0, input_calls(inputs));
}

/// True answers do not make the engine fail: where all answers hold good of the system, those about
/// models, the shape of cubes and the queue among them, a search that starts afresh ends in no fault
/// but that there are too many frames to number.
pub proof fn law_no_fault(
    sys: System,
    log: Seq<Event>,
    at: int,
    s: StateView,
    rounds: u64,
    r: Result<Option<bool>, Fault>,
    s2: StateView,
    at2: int,
)
    requires
        truthful(sys, log),
        lucid(sys, log, s.options.ic3.inn),
        fresh(sys, log, at, s),
        ran(log, 0, at),
        s.options.ic3.abs_cst ==> s.abs_cst.len() == 0,
        check_run(log, at, s, rounds) == Some((r, s2, at2)),
        s2.obligations.len() <= usize::MAX,
    ensures
        r matches Err(f) ==> f == Fault::TooManyFrames,
{
    lemma_base(sys, log, at, s);
    let (more, s1, at1) = base_run(log, at, s)->0;
    if more {
        lemma_extend_ran(log, at, s);
        let (t, at3) = extend_run(log, at, s)->0;
        assert(in_order(sys, log, 0, s));
        lemma_tidy_ran(sys, log, 0, at, s, s);
        lemma_tidy_ran(sys, log, at, at3, s, t);
        assert(s1 == t);
        lemma_tidy_ran(sys, log, at3, at1, t, t);
        lemma_search_tidy(sys, log, at1, s1, rounds, seq![]);
    }
}

} // verus!
