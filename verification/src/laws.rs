//! The laws of the engine: what its verdicts, its frames and its certificates mean for a system
//! of which all answers hold good.

use vstd::prelude::*;

use crate::block::{block_run, Turn};
use crate::block_laws::{
    all_earnest, earnest, guarded, initialised, lemma_block, lemma_earnest_more, lemma_later,
    lemma_standing, settles, standing,
};
use crate::engine::{
    advance_level_run, asked_all, base_run, check_run, extend_run, first_frame_run, frame_calls,
    init_calls, input_calls, last_obligation, lemma_calls, one_more, search_run, settled_run, units,
};
use crate::fault::Fault;
use crate::keeping::{
    blockable, clear, excluded, kept_out, lemma_backed_later, lemma_clear_less, lemma_quiet,
    lemma_reached, lemma_settle, lemma_sound_add, lemma_sound_pending, lemma_sound_quiet, quiet,
    sound,
};
use crate::lit::{lemma_sorted, negated, sorted, Lit, Var};
use crate::meaning::{
    admitted, clause_holds, clauses_hold, equal_at, equal_below, holds, init_free, lemma_admitted,
    lemma_at, lemma_negated, lemma_negation, lemma_same_members, lit_holds, true_base, true_event,
    truthful, within, System,
};
use crate::mic_laws::sound_somehow;
use crate::propagate::propagate_run;
use crate::propagate_laws::lemma_propagate;
use crate::report::{certify_run, chain_inputs};
use crate::report_laws::{all_true, law_certificate, one_cube, true_gates};
use crate::session::{asked, yes, Call, Event};
use crate::state::StateView;

verus! {

/// Whether some clauses hold initially, and steps that the solvers are asked about keep them.
pub open spec fn inductive_clauses(sys: System, clauses: Seq<Seq<Lit>>) -> bool {
    &&& forall|a: Set<u32>| #[trigger] sys.starts(a) ==> clauses_hold(a, clauses)
    &&& forall|a: Set<u32>, b: Set<u32>|
        clauses_hold(a, clauses) && #[trigger] sys.walks(a, b) ==> clauses_hold(b, clauses)
}

/// Whether no initial state is bad.
pub open spec fn init_safe(sys: System) -> bool {
    forall|a: Set<u32>| #[trigger] sys.starts(a) ==> !sys.fails(a)
}

/// Requests that add no lemma.
proof fn lemma_asked_quiet(log: Seq<Event>, at: int, calls: Seq<Call>)
    requires
        0 <= at <= log.len(),
        asked_all(log, at, calls),
        forall|k: int| 0 <= k < calls.len() ==> !((#[trigger] calls[k]) is AddLemma),
    ensures
        at + calls.len() <= log.len(),
        quiet(log, at, at + calls.len()),
{
    if calls.len() > 0 {
        assert(asked(log, at + (calls.len() - 1), calls[calls.len() - 1]));
    }
    assert forall|p: int| at <= p < at + calls.len() implies #[trigger] lemma_at(
        log,
        p,
    ) is None by {
        assert(asked(log, at + (p - at), calls[p - at]));
    }
}

/// The requests that make a frame add no lemma.
proof fn lemma_frame_calls(s: StateView)
    ensures
        forall|k: int|
            0 <= k < frame_calls(s).len() ==> !((#[trigger] frame_calls(s)[k]) is AddLemma),
{
}

/// Nothing is added while the values of latches are collected.
proof fn lemma_settled(log: Seq<Event>, at: int, latchs: Seq<Var>, k: int, found: Seq<Lit>)
    requires
        0 <= at <= log.len(),
        settled_run(log, at, latchs, k, found) is Some,
    ensures
        ({
            let (_, at2) = settled_run(log, at, latchs, k, found)->0;
            at <= at2 <= log.len() && quiet(log, at, at2)
        }),
    decreases latchs.len() - k,
{
    if k < latchs.len() {
        if yes(log, at) {
            lemma_settled(log, at + 1, latchs, k + 1, found);
        } else {
            let lit = latchs[k].lit_spec();
            lemma_settled(
                log,
                at + 2,
                latchs,
                k + 1,
                match log[at + 1].reply->Value_0 {
                    None => found,
                    Some(v) => found.push(lit.negation_if(!v)),
                },
            );
        }
    }
}

/// A unit clause is violated where its literal does not hold.
proof fn lemma_unit(a: Set<u32>, l: Lit)
    ensures
        holds(a, negated(seq![l])) == !lit_holds(a, l),
{
    let c = negated(seq![l]);
    lemma_negation(a, l);
    assert(c[0] == l.negation());
    assert(c.contains(l.negation()));
    assert forall|m: Lit| #[trigger] c.contains(m) implies m == l.negation() by {}
}

/// The clauses of the first frame keep the invariant.
proof fn lemma_first_lemmas(sys: System, log: Seq<Event>, at: int, init: Seq<Lit>, k: int)
    requires
        0 <= at <= log.len(),
        0 <= k <= init.len(),
        sound(sys, log, at, seq![]),
        asked_all(log, at, lemma_calls(0, units(init))),
        forall|a: Set<u32>| #[trigger] sys.starts(a) <==> holds(a, init),
    ensures
        at + k <= log.len(),
        sound(sys, log, at + k, seq![]),
    decreases k,
{
    if k > 0 {
        lemma_first_lemmas(sys, log, at, init, k - 1);
        let calls = lemma_calls(0, units(init));
        let c = negated(seq![init[k - 1]]);
        assert(asked(log, at + (k - 1), calls[k - 1]));
        assert(init_free(sys, c)) by {
            assert forall|a: Set<u32>| #[trigger] sys.starts(a) implies !holds(a, c) by {
                lemma_unit(a, init[k - 1]);
                assert(init.contains(init[k - 1]));
            }
        }
        assert(units(init)[k - 1] == seq![init[k - 1]]);
        lemma_sound_add(sys, log, at + (k - 1), 0, c, seq![]);
    }
}

/// The first frame holds the initial states, and what it takes to make it adds no other lemma.
proof fn lemma_first_frame(sys: System, log: Seq<Event>, at: int, latchs: Seq<Var>)
    requires
        truthful(sys, log),
        0 <= at <= log.len(),
        sound(sys, log, at, seq![]),
        first_frame_run(log, at, latchs) is Some,
    ensures
        ({
            let at2 = first_frame_run(log, at, latchs)->0;
            &&& at <= at2 <= log.len()
            &&& sound(sys, log, at2, seq![])
            &&& initialised(sys, log, at2)
        }),
{
    let init = log[at].reply->Cube_0;
    let calls = lemma_calls(0, units(init));
    let at2 = at + 1 + init.len();
    assert(true_event(sys, log, at));
    lemma_sound_quiet(sys, log, at, at + 1, seq![]);
    lemma_first_lemmas(sys, log, at + 1, init, init.len() as int);
    assert(initialised(sys, log, at2)) by {
        assert forall|a: Set<u32>| #[trigger] admitted(log, at2, 0, a) implies sys.starts(a) by {
            assert forall|l: Lit| #[trigger] init.contains(l) implies lit_holds(a, l) by {
                let k = init.index_of(l);
                assert(units(init)[k] == seq![l]);
                assert(asked(log, at + 1 + k, calls[k]));
                assert(lemma_at(log, at + 1 + k) == Some((0usize, negated(seq![l]))));
                lemma_unit(a, l);
            }
        }
    }
    lemma_settled(log, at2, latchs, 0, seq![]);
    let (found, at3) = settled_run(log, at2, latchs, 0, seq![])->0;
    lemma_asked_quiet(log, at3, init_calls(found));
    let at4 = at3 + found.len();
    assert(quiet(log, at2, at4));
    lemma_sound_quiet(sys, log, at2, at4, seq![]);
    lemma_later(sys, log, at2, at4, 0);
}

/// The pending cubes with the negations of the first `k` clauses after them.
pub open spec fn with_clauses(
    pend: Seq<(Seq<Lit>, int)>,
    clauses: Seq<Seq<Lit>>,
    k: int,
) -> Seq<(Seq<Lit>, int)>
    decreases k,
{
    if k <= 0 {
        pend
    } else {
        with_clauses(pend, clauses, k - 1).push((negated(clauses[k - 1]), 1))
    }
}

/// The negation of a clause holds where the clause does not.
proof fn lemma_clause(a: Set<u32>, clause: Seq<Lit>)
    ensures
        holds(a, negated(clause)) == !clause_holds(a, clause),
{
    lemma_negated(a, negated(clause));
    assert(negated(negated(clause)) =~= clause);
}

/// A state is outside of pending cubes and of the negations of some clauses exactly where it is
/// outside of the former and the clauses hold.
proof fn lemma_with_clauses(
    pend: Seq<(Seq<Lit>, int)>,
    clauses: Seq<Seq<Lit>>,
    k: int,
    j: int,
    a: Set<u32>,
)
    requires
        0 <= k <= clauses.len(),
        clear(with_clauses(pend, clauses, k), j, a),
    ensures
        clear(pend, j, a),
        j <= 1 ==> forall|i: int| 0 <= i < k ==> clause_holds(a, #[trigger] clauses[i]),
    decreases k,
{
    if k > 0 {
        lemma_clear_less(
            with_clauses(pend, clauses, k - 1),
            (negated(clauses[k - 1]), 1),
            j,
            a,
        );
        lemma_with_clauses(pend, clauses, k - 1, j, a);
        lemma_clause(a, clauses[k - 1]);
    }
}

/// Inductive clauses hold in all states that are reached.
proof fn lemma_clauses_reached(sys: System, clauses: Seq<Seq<Lit>>, a: Set<u32>, k: nat)
    requires
        inductive_clauses(sys, clauses),
        sys.walked(a, k),
    ensures
        clauses_hold(a, clauses),
    decreases k,
{
    if k > 0 {
        let b = choose|b: Set<u32>| sys.walked(b, (k - 1) as nat) && #[trigger] sys.walks(b, a);
        lemma_clauses_reached(sys, clauses, b, (k - 1) as nat);
    }
}

/// The negations of inductive clauses may be pending.
proof fn lemma_pend_clauses(
    sys: System,
    log: Seq<Event>,
    n: int,
    pend: Seq<(Seq<Lit>, int)>,
    clauses: Seq<Seq<Lit>>,
    k: int,
)
    requires
        0 <= k <= clauses.len(),
        sound(sys, log, n, pend),
        inductive_clauses(sys, clauses),
    ensures
        sound(sys, log, n, with_clauses(pend, clauses, k)),
    decreases k,
{
    if k > 0 {
        lemma_pend_clauses(sys, log, n, pend, clauses, k - 1);
        let before = with_clauses(pend, clauses, k - 1);
        let one = (negated(clauses[k - 1]), 1int);
        let after = before.push(one);
        assert forall|j: int, a: Set<u32>| #[trigger] clear(after, j, a) implies clear(
            before,
            j,
            a,
        ) by {
            lemma_clear_less(before, one, j, a);
        }
        assert(excluded(sys, one.0, 1)) by {
            assert forall|a: Set<u32>, i: nat| #[trigger]
                sys.walked(a, i) && i <= 1 implies !holds(a, one.0) by {
                lemma_clauses_reached(sys, clauses, a, i);
                lemma_clause(a, clauses[k - 1]);
            }
        }
        assert forall|i: int| 0 <= i < after.len() implies excluded(
            sys,
            (#[trigger] after[i]).0,
            after[i].1,
        ) by {
            if i < before.len() {
                assert(after[i] == before[i]);
            }
        }
        lemma_sound_pending(sys, log, n, before, after);
    }
}

/// Adding the negations of inductive clauses to the second frame keeps the invariant, as long as
/// they are all pending.
proof fn lemma_add_clauses(
    sys: System,
    log: Seq<Event>,
    at: int,
    pend: Seq<(Seq<Lit>, int)>,
    clauses: Seq<Seq<Lit>>,
    k: int,
)
    requires
        0 <= at <= log.len(),
        0 <= k <= clauses.len(),
        sound(sys, log, at, with_clauses(pend, clauses, clauses.len() as int)),
        inductive_clauses(sys, clauses),
        asked_all(log, at, lemma_calls(1, clauses)),
    ensures
        at + k <= log.len(),
        sound(sys, log, at + k, with_clauses(pend, clauses, clauses.len() as int)),
    decreases k,
{
    let all = with_clauses(pend, clauses, clauses.len() as int);
    if k > 0 {
        lemma_add_clauses(sys, log, at, pend, clauses, k - 1);
        let c = negated(clauses[k - 1]);
        let n = at + (k - 1);
        assert(asked(log, n, lemma_calls(1, clauses)[k - 1]));
        assert(init_free(sys, c)) by {
            assert forall|a: Set<u32>| #[trigger] sys.starts(a) implies !holds(a, c) by {
                lemma_clause(a, clauses[k - 1]);
            }
        }
        assert(blockable(sys, log, n, 1, c, all)) by {
            assert forall|a: Set<u32>, b: Set<u32>|
                admitted(log, n, 0, a) && !holds(a, c) && clear(all, 1, a) && #[trigger] sys.walks(
                    a,
                    b,
                ) implies !holds(b, c) by {
                lemma_with_clauses(pend, clauses, clauses.len() as int, 1, a);
                assert(clauses_hold(a, clauses));
                lemma_clause(b, clauses[k - 1]);
            }
        }
        lemma_sound_add(sys, log, n, 1, c, all);
    }
}

/// Once the negations of clauses are all added, none is pending.
proof fn lemma_settle_clauses(
    sys: System,
    log: Seq<Event>,
    at: int,
    n: int,
    pend: Seq<(Seq<Lit>, int)>,
    clauses: Seq<Seq<Lit>>,
    k: int,
)
    requires
        0 <= at,
        0 <= k <= clauses.len(),
        at + clauses.len() <= n,
        sound(sys, log, n, with_clauses(pend, clauses, k)),
        asked_all(log, at, lemma_calls(1, clauses)),
    ensures
        sound(sys, log, n, pend),
    decreases k,
{
    if k > 0 {
        let c = negated(clauses[k - 1]);
        assert(asked(log, at + (k - 1), lemma_calls(1, clauses)[k - 1]));
        assert(lemma_at(log, at + (k - 1)) == Some((1usize, c)));
        lemma_settle(
            sys,
            log,
            n,
            with_clauses(pend, clauses, k - 1),
            c,
            1,
            at + (k - 1),
        );
        lemma_settle_clauses(sys, log, at, n, pend, clauses, k - 1);
    }
}

/// Making a frame after the first keeps what holds.
pub proof fn lemma_extend(
    sys: System,
    log: Seq<Event>,
    at: int,
    s: StateView,
    pend: Seq<(Seq<Lit>, int)>,
)
    requires
        truthful(sys, log),
        standing(sys, log, at, s, pend),
        s.solvers < usize::MAX - 2,
        guarded(sys, log, at, s.solvers - 1),
        inductive_clauses(sys, s.pre_lemmas),
        extend_run(log, at, s) is Some,
    ensures
        ({
            let (s2, at2) = extend_run(log, at, s)->0;
            &&& at <= at2 <= log.len()
            &&& s2 == one_more(s)
            &&& standing(sys, log, at2, s2, pend)
        }),
{
    reveal(extend_run);
    lemma_frame_calls(s);
    lemma_asked_quiet(log, at, frame_calls(s));
    let at2 = at + frame_calls(s).len();
    lemma_sound_quiet(sys, log, at, at2, pend);
    if s.solvers == 1 {
        let n = s.pre_lemmas.len() as int;
        lemma_pend_clauses(sys, log, at2, pend, s.pre_lemmas, n);
        lemma_add_clauses(sys, log, at2, pend, s.pre_lemmas, n);
        lemma_settle_clauses(sys, log, at2, at2 + n, pend, s.pre_lemmas, n);
        lemma_later(sys, log, at, at2 + n, s.solvers - 1);
        lemma_backed_later(sys, log, at, at2 + n, pend);
    } else {
        lemma_later(sys, log, at, at2, s.solvers - 1);
        lemma_backed_later(sys, log, at, at2, pend);
    }
}

/// A system and a state of the engine at the start of a search on it: no lemma was added, there is
/// no frame and no obligation, clauses that are given are inductive, and the engine looks ahead
/// and starts with all constraints as the system has it.
pub open spec fn fresh(sys: System, log: Seq<Event>, at: int, s: StateView) -> bool {
    &&& 0 <= at <= log.len()
    &&& quiet(log, 0, at)
    &&& s.solvers == 0
    &&& s.obligations.len() == 0
    &&& inductive_clauses(sys, s.pre_lemmas)
    &&& sys.ahead == !s.options.ic3.no_pred_prop
    &&& sys.exact == !s.options.ic3.abs_cst
}

/// The first frame sets up what holds between steps.
pub proof fn lemma_base(sys: System, log: Seq<Event>, at: int, s: StateView)
    requires
        truthful(sys, log),
        fresh(sys, log, at, s),
        base_run(log, at, s) is Some,
    ensures
        ({
            let (r, s2, at2) = base_run(log, at, s)->0;
            &&& at <= at2 <= log.len()
            &&& sound(sys, log, at2, seq![])
            &&& s2.options == s.options
            &&& s2.pre_lemmas == s.pre_lemmas
            &&& if r {
                standing(sys, log, at2, s2, seq![]) && (sys.ahead ==> init_safe(sys))
            } else {
                sys.unsafe_system() && all_earnest(sys, s2.obligations)
            }
        }),
{
    let (s2, at2) = extend_run(log, at, s)->0;
    assert(at <= at2 <= log.len() && s2 == one_more(s) && sound(sys, log, at2, seq![])
        && initialised(sys, log, at2)) by {
        reveal(extend_run);
        lemma_frame_calls(s);
        lemma_asked_quiet(log, at, frame_calls(s));
        let at1 = at + frame_calls(s).len();
        assert(sound(sys, log, 0, seq![]));
        assert(quiet(log, 0, at1));
        lemma_sound_quiet(sys, log, 0, at1, seq![]);
        lemma_first_frame(sys, log, at1, s.latchs);
    }
    assert(standing(sys, log, at2, s2, seq![]));
    if !s.options.ic3.no_pred_prop {
        assert(true_base(sys, log, at2 + 1));
        lemma_sound_quiet(sys, log, at2, at2 + 4, seq![]);
        lemma_standing(sys, log, at2, at2 + 4, s2, s2, seq![], seq![]);
        if yes(log, at2 + 1) {
            let model = log[at2 + 2].reply->Pred_0;
            let input = seq![log[at2 + 2].reply->Pred_1];
            let po = last_obligation(0, model, input);
            let n = s2.obligations.len() as int;
            let t = s2.with_obligation(po).obligations;
            let a = choose|a: Set<u32>| #[trigger]
                sys.starts(a) && sys.fails(a) && holds(a, model);
            assert(sys.reaches(a, 0));
            lemma_sorted(model);
            lemma_same_members(sys, sorted(model), model);
            assert(holds(a, po.lemma));
            assert(chain_inputs(t, n) == input);
            if sys.exact {
                assert forall|b: Set<u32>| #[trigger] holds(b, po.lemma) implies sys.runs(
                    b,
                    chain_inputs(t, n),
                ) by {
                    assert(holds(b, model));
                }
                assert(earnest(sys, t, n));
            }
            lemma_earnest_more(sys, s2, po);
        }
    }
}

/// Whether frame `k` is an inductive invariant that no state to look for is in: the initial states
/// are in it, and steps that the solvers are asked about lead to its states only.
pub open spec fn invariant_at(sys: System, log: Seq<Event>, n: int, k: int) -> bool {
    &&& forall|a: Set<u32>| #[trigger] sys.starts(a) ==> admitted(log, n, k, a)
    &&& forall|a: Set<u32>, b: Set<u32>|
        admitted(log, n, k, a) && #[trigger] sys.walks(a, b) ==> admitted(log, n, k, b)
    &&& guarded(sys, log, n, k)
}

/// A frame below the last that is equal to the next one is an invariant, where all lemmas stand by
/// themselves.
proof fn lemma_invariant(sys: System, log: Seq<Event>, n: int, s: StateView, k: int)
    requires
        standing(sys, log, n, s, seq![]),
        0 <= k < s.level(),
        equal_at(log, n, k),
    ensures
        invariant_at(sys, log, n, k),
{
    assert(guarded(sys, log, n, k)) by {
        assert forall|a: Set<u32>| #[trigger] admitted(log, n, k, a) implies !sys.is_goal(a) by {
            lemma_admitted(log, n, n, s.solvers - 2, k, a);
        }
    }
    assert forall|a: Set<u32>| #[trigger] sys.starts(a) implies admitted(log, n, k, a) by {
        assert forall|p: int| 0 <= p < n implies match #[trigger] lemma_at(log, p) {
            Some((j, c)) => j >= k ==> !holds(a, c),
            None => true,
        } by {}
    }
    assert forall|a: Set<u32>, b: Set<u32>|
        admitted(log, n, k, a) && #[trigger] sys.walks(a, b) implies admitted(log, n, k, b) by {
        assert(admitted(log, n, k + 1, b)) by {
            assert forall|p: int| 0 <= p < n implies match #[trigger] lemma_at(log, p) {
                Some((j, c)) => j >= k + 1 ==> !holds(b, c),
                None => true,
            } by {
                if let Some((j, c)) = lemma_at(log, p) {
                    if j >= k + 1 {
                        assert(kept_out(sys, log, n, j as int, c, seq![]));
                        lemma_admitted(log, n, n, j - 1, k, a);
                        assert(clear(seq![], j as int, a));
                    }
                }
            }
        }
    }
}

/// Two equal frames below the last keep bad states out, also where lemmas rest on pending cubes:
/// the states of the frames outside of the pending cubes are an inductive invariant.
proof fn lemma_equal_safe(
    sys: System,
    log: Seq<Event>,
    n: int,
    s: StateView,
    pend: Seq<(Seq<Lit>, int)>,
)
    requires
        standing(sys, log, n, s, pend),
        equal_below(log, n, s.level() as int),
        sys.ahead ==> init_safe(sys),
    ensures
        !sys.unsafe_system(),
{
    let k = choose|k: int| 0 <= k < s.level() && #[trigger] equal_at(log, n, k);
    assert forall|a: Set<u32>, i: nat| #[trigger] sys.reaches(a, i) implies !sys.fails(a) by {
        lemma_equal_state(sys, log, n, s, pend, k, a, i);
    }
}

/// The same for one state, which is in the frame and outside of the pending cubes besides.
proof fn lemma_equal_state(
    sys: System,
    log: Seq<Event>,
    n: int,
    s: StateView,
    pend: Seq<(Seq<Lit>, int)>,
    k: int,
    a: Set<u32>,
    i: nat,
)
    requires
        standing(sys, log, n, s, pend),
        0 <= k < s.level(),
        equal_at(log, n, k),
        sys.ahead ==> init_safe(sys),
        sys.reaches(a, i),
    ensures
        admitted(log, n, k, a),
        clear(pend, k + 1, a),
        !sys.fails(a),
    decreases i,
{
    if i == 0 {
        assert(sys.starts(a));
        assert forall|p: int| 0 <= p < n implies match #[trigger] lemma_at(log, p) {
            Some((j, c)) => j >= k ==> !holds(a, c),
            None => true,
        } by {}
    } else {
        let b = choose|b: Set<u32>| sys.reaches(b, (i - 1) as nat) && #[trigger] sys.moves(b, a);
        lemma_equal_state(sys, log, n, s, pend, k, b, (i - 1) as nat);
        assert(sys.walks(b, a));
        assert(admitted(log, n, k + 1, a)) by {
            assert forall|p: int| 0 <= p < n implies match #[trigger] lemma_at(log, p) {
                Some((j, c)) => j >= k + 1 ==> !holds(a, c),
                None => true,
            } by {
                if let Some((j, c)) = lemma_at(log, p) {
                    if j >= k + 1 {
                        assert(kept_out(sys, log, n, j as int, c, pend));
                        lemma_admitted(log, n, n, j - 1, k, b);
                        assert(clear(pend, j as int, b));
                    }
                }
            }
        }
        assert forall|m: int| 0 <= m < pend.len() && k + 1 <= (#[trigger] pend[m]).1 implies !holds(
            a,
            pend[m].0,
        ) by {
            let j = pend[m].1 + 1;
            assert(blockable(sys, log, n, j, pend[m].0, pend));
            lemma_admitted(log, n, n, j - 1, k, b);
            assert(clear(pend, j, b));
        }
        lemma_admitted(log, n, n, s.solvers - 2, k, b);
        assert(!sys.is_goal(b));
    }
    lemma_admitted(log, n, n, s.solvers - 2, k, a);
    assert(!sys.is_goal(a));
}

/// More events that add no lemma leave equal frames equal, and others not.
proof fn lemma_equal_quiet(log: Seq<Event>, n: int, m: int, k: int)
    requires
        0 <= n <= m,
        quiet(log, n, m),
    ensures
        equal_at(log, n, k) == equal_at(log, m, k),
{
    assert forall|a: Set<u32>, i: int| #[trigger] admitted(log, m, i, a) == admitted(
        log,
        n,
        i,
        a,
    ) by {
        lemma_quiet(log, n, m, i, a);
    }
    if equal_at(log, n, k) {
        assert forall|a: Set<u32>| #[trigger] admitted(log, m, k + 1, a) implies admitted(
            log,
            m,
            k,
            a,
        ) by {
            assert(admitted(log, n, k + 1, a));
        }
    }
    if equal_at(log, m, k) {
        assert forall|a: Set<u32>| #[trigger] admitted(log, n, k + 1, a) implies admitted(
            log,
            n,
            k,
            a,
        ) by {
            assert(admitted(log, m, k + 1, a));
        }
    }
}

/// The same for one of the frames below a given one.
proof fn lemma_below_quiet(log: Seq<Event>, n: int, m: int, frame: int)
    requires
        0 <= n <= m,
        quiet(log, n, m),
        equal_below(log, n, frame),
    ensures
        equal_below(log, m, frame),
{
    let k = choose|k: int| 0 <= k < frame && #[trigger] equal_at(log, n, k);
    lemma_equal_quiet(log, n, m, k);
}

/// Making one more frame and propagating keeps what holds, and where the question is said to be
/// settled it is.
pub proof fn lemma_advance_level(
    sys: System,
    log: Seq<Event>,
    at: int,
    s: StateView,
    pend: Seq<(Seq<Lit>, int)>,
)
    requires
        truthful(sys, log),
        standing(sys, log, at, s, pend),
        guarded(sys, log, at, s.solvers - 1),
        inductive_clauses(sys, s.pre_lemmas),
        sys.ahead ==> init_safe(sys),
        advance_level_run(log, at, s) is Some,
    ensures
        ({
            let (r, s2, at2) = advance_level_run(log, at, s)->0;
            &&& at <= at2 <= log.len()
            &&& match r {
                Err(_) => sound_somehow(sys, log, at2),
                Ok(proved) => {
                    &&& standing(sys, log, at2, s2, pend)
                    &&& s2.options == s.options
                    &&& s2.pre_lemmas == s.pre_lemmas
                    &&& proved ==> !sys.unsafe_system()
                    &&& proved ==> equal_below(log, at2, s2.level() as int)
                },
            }
        }),
{
    if s.solvers < usize::MAX - 2 {
        lemma_extend(sys, log, at, s, pend);
        let (s2, at2) = extend_run(log, at, s)->0;
        lemma_propagate(sys, log, at2, s2, None, pend);
        let (r, s3, at3) = propagate_run(log, at2, s2, None)->0;
        if r == Ok::<bool, Fault>(true) {
            lemma_sound_quiet(sys, log, at3, at3 + 1, pend);
            lemma_standing(sys, log, at3, at3 + 1, s3, s3, pend, pend);
            lemma_equal_safe(sys, log, at3, s3, pend);
            lemma_below_quiet(log, at3, at3 + 1, s3.level() as int);
        }
    }
}

/// A state that is looked for makes an obligation to a bad state.
pub proof fn lemma_goal(
    sys: System,
    log: Seq<Event>,
    p: int,
    s: StateView,
    pend: Seq<(Seq<Lit>, int)>,
    model: Seq<Lit>,
    input: Seq<Seq<Lit>>,
)
    requires
        truthful(sys, log),
        standing(sys, log, p, s, pend),
        p < log.len(),
        log[p].call == (Call::GetBad { level: s.level() }),
        log[p].reply->BadState_0 == Some((model, input)),
    ensures
        all_earnest(
            sys,
            s.with_obligation(last_obligation(s.level(), model, input)).obligations,
        ),
{
    let po = last_obligation(s.level(), model, input);
    let n = s.obligations.len() as int;
    let t = s.with_obligation(po).obligations;
    if sys.exact {
        assert(true_event(sys, log, p));
        lemma_sorted(model);
        lemma_same_members(sys, sorted(model), model);
        assert(chain_inputs(t, n) == input);
        assert forall|a: Set<u32>| #[trigger] holds(a, po.lemma) implies sys.runs(
            a,
            chain_inputs(t, n),
        ) by {
            assert(holds(a, model));
        }
        if po.frame == 0 {
            let a = choose|a: Set<u32>| #[trigger]
                admitted(log, p, s.level() as int, a) && holds(a, model);
            assert(sys.starts(a) && holds(a, po.lemma));
        }
        assert(earnest(sys, t, n));
    }
    lemma_earnest_more(sys, s, po);
}

/// Whether what holds between steps does so on the strength of some pending cubes.
pub open spec fn stands(sys: System, log: Seq<Event>, n: int, s: StateView) -> bool {
    exists|pend: Seq<(Seq<Lit>, int)>| #[trigger] standing(sys, log, n, s, pend)
}

/// The outcome of a search is right, and the invariant holds after it.
proof fn lemma_search(
    sys: System,
    log: Seq<Event>,
    at: int,
    s: StateView,
    rounds: u64,
    pend: Seq<(Seq<Lit>, int)>,
)
    requires
        truthful(sys, log),
        standing(sys, log, at, s, pend),
        inductive_clauses(sys, s.pre_lemmas),
        sys.ahead ==> init_safe(sys),
        search_run(log, at, s, rounds) is Some,
    ensures
        ({
            let (r, s2, at2) = search_run(log, at, s, rounds)->0;
            &&& at <= at2 <= log.len()
            &&& sound_somehow(sys, log, at2)
            &&& r == Ok::<Option<bool>, Fault>(None) ==> stands(sys, log, at2, s2)
            &&& r == Ok::<Option<bool>, Fault>(Some(false)) ==> sys.unsafe_system() && all_earnest(
                sys,
                s2.obligations,
            )
            &&& r == Ok::<Option<bool>, Fault>(Some(true)) ==> !sys.unsafe_system()
            &&& r == Ok::<Option<bool>, Fault>(Some(true)) ==> equal_below(
                log,
                at2,
                s2.level() as int,
            )
            &&& r == Ok::<Option<bool>, Fault>(Some(true)) && settles(s.options) ==> standing(
                sys,
                log,
                at2,
                s2,
                pend,
            )
        }),
    decreases rounds,
{
    reveal(search_run);
    let pend2 = lemma_block(sys, log, at, s, rounds, pend);
    let (r, s2, left, at2) = block_run(log, at, s, rounds)->0;
    match r {
        Err(_) => {},
        Ok(Turn::More) => {},
        Ok(Turn::Reached) => {},
        Ok(Turn::Proved) => {
            lemma_equal_safe(sys, log, at2, s2, pend2);
            lemma_sound_quiet(sys, log, at2, at2 + 1, pend2);
            lemma_below_quiet(log, at2, at2 + 1, s2.level() as int);
            lemma_standing(sys, log, at2, at2 + 1, s2, s2, pend2, pend2);
        },
        Ok(Turn::Drained) => {
            lemma_sound_quiet(sys, log, at2, at2 + 1, pend2);
            lemma_standing(sys, log, at2, at2 + 1, s2, s2, pend2, pend2);
            assert(true_event(sys, log, at2));
            match log[at2].reply->BadState_0 {
                Some((model, input)) => {
                    let po = last_obligation(s2.level(), model, input);
                    lemma_goal(sys, log, at2, s2, pend2, model, input);
                    lemma_sound_quiet(sys, log, at2, at2 + 2, pend2);
                    lemma_standing(
                        sys,
                        log,
                        at2,
                        at2 + 2,
                        s2,
                        s2.with_obligation(po),
                        pend2,
                        pend2,
                    );
                    lemma_search(
                        sys,
                        log,
                        at2 + 2,
                        s2.with_obligation(po),
                        left,
                        pend2,
                    );
                },
                None => {
                    assert(guarded(sys, log, at2, s2.solvers - 1));
                    lemma_later(sys, log, at2, at2 + 1, s2.solvers - 1);
                    lemma_advance_level(sys, log, at2 + 1, s2, pend2);
                    let (r3, s3, at3) = advance_level_run(log, at2 + 1, s2)->0;
                    if r3 == Ok::<bool, Fault>(false) {
                        lemma_search(sys, log, at3, s3, left, pend2);
                    }
                },
            }
        },
    }
}

/// A verdict against a system is right: where all answers hold good of the system and the search
/// says so, a bad state can be reached.
pub proof fn law_counterexample(
    sys: System,
    log: Seq<Event>,
    at: int,
    s: StateView,
    rounds: u64,
    s2: StateView,
    at2: int,
)
    requires
        truthful(sys, log),
        fresh(sys, log, at, s),
        check_run(log, at, s, rounds) == Some((Ok::<Option<bool>, Fault>(Some(false)), s2, at2)),
    ensures
        sys.unsafe_system(),
{
    lemma_base(sys, log, at, s);
    let (r, s1, at1) = base_run(log, at, s)->0;
    if r {
        lemma_search(sys, log, at1, s1, rounds, seq![]);
    }
}

/// A verdict for a system is right: where all answers hold good of the system and the search says
/// so, no bad state can be reached.
pub proof fn law_proof(
    sys: System,
    log: Seq<Event>,
    at: int,
    s: StateView,
    rounds: u64,
    s2: StateView,
    at2: int,
)
    requires
        truthful(sys, log),
        fresh(sys, log, at, s),
        check_run(log, at, s, rounds) == Some((Ok::<Option<bool>, Fault>(Some(true)), s2, at2)),
    ensures
        !sys.unsafe_system(),
{
    lemma_base(sys, log, at, s);
    let (r, s1, at1) = base_run(log, at, s)->0;
    lemma_search(sys, log, at1, s1, rounds, seq![]);
}

/// After such a verdict two frames are equal, and each frame that is equal to the next one is an
/// inductive invariant that shows the verdict, where the way to generalize leaves no cubes pending.
pub proof fn law_certified(
    sys: System,
    log: Seq<Event>,
    at: int,
    s: StateView,
    rounds: u64,
    s2: StateView,
    at2: int,
)
    requires
        truthful(sys, log),
        fresh(sys, log, at, s),
        settles(s.options),
        check_run(log, at, s, rounds) == Some((Ok::<Option<bool>, Fault>(Some(true)), s2, at2)),
    ensures
        equal_below(log, at2, s2.level() as int),
        forall|k: int|
            0 <= k < s2.level() && equal_at(log, at2, k) ==> #[trigger] invariant_at(
                sys,
                log,
                at2,
                k,
            ),
{
    lemma_base(sys, log, at, s);
    let (r, s1, at1) = base_run(log, at, s)->0;
    lemma_search(sys, log, at1, s1, rounds, seq![]);
    assert forall|k: int| 0 <= k < s2.level() && equal_at(log, at2, k) implies #[trigger] invariant_at(
        sys,
        log,
        at2,
        k,
    ) by {
        lemma_invariant(sys, log, at2, s2, k);
    }
}

/// Whether some cubes are what a frame excludes.
pub open spec fn frame_cubes(log: Seq<Event>, n: int, k: int, all: Seq<Seq<Lit>>) -> bool {
    forall|a: Set<u32>| #[trigger] admitted(log, n, k, a) <==> outside(a, all)
}

/// Whether a state is in none of some cubes.
pub open spec fn outside(a: Set<u32>, all: Seq<Seq<Lit>>) -> bool {
    forall|i: int| 0 <= i < all.len() ==> !holds(a, #[trigger] all[i])
}

/// Whether the answer at `p` for the cubes of the invariant is true: they are those of a frame
/// below the last that is equal to the next one, if there is such a frame.
pub open spec fn true_invariant(log: Seq<Event>, p: int, level: int) -> bool {
    equal_below(log, p, level) ==> exists|k: int|
        0 <= k < level && equal_at(log, p, k) && #[trigger] frame_cubes(
            log,
            p,
            k,
            log[p].reply->Cubes_0,
        )
}

/// Whether the literals of the certificate have the values that they are made for in every state:
/// `v` gives the values in the system as it was given, in which `bad` holds in the bad states, and
/// `w` those in the system that the engine works on.
pub open spec fn valued(
    sys: System,
    log: Seq<Event>,
    bad: Lit,
    v: spec_fn(Set<u32>, Lit) -> bool,
    w: spec_fn(Set<u32>, Lit) -> bool,
) -> bool {
    forall|a: Set<u32>| #[trigger] valued_at(sys, log, bad, v, w, a)
}

/// The same for one state.
pub open spec fn valued_at(
    sys: System,
    log: Seq<Event>,
    bad: Lit,
    v: spec_fn(Set<u32>, Lit) -> bool,
    w: spec_fn(Set<u32>, Lit) -> bool,
    a: Set<u32>,
) -> bool {
    &&& true_gates(log, |l: Lit| v(a, l), |l: Lit| w(a, l))
    &&& forall|l: Lit| v(a, #[trigger] l.negation()) == !v(a, l)
    &&& forall|l: Lit| #[trigger] w(a, l) == lit_holds(a, l)
    &&& v(a, bad) == sys.fails(a)
}

/// Where a certificate is not violated, its constraints hold, and the state is not bad and in none
/// of the cubes.
proof fn lemma_unviolated(
    sys: System,
    log: Seq<Event>,
    n: int,
    constraints: Seq<Lit>,
    bad: Lit,
    r: Lit,
    end: int,
    v: spec_fn(Set<u32>, Lit) -> bool,
    w: spec_fn(Set<u32>, Lit) -> bool,
    a: Set<u32>,
)
    requires
        valued(sys, log, bad, v, w),
        certify_run(log, n, constraints, bad) == Some((r, end)),
    ensures
        !v(a, r) <==> outside(a, log[n].reply->Cubes_0) && !sys.fails(a) && all_true(
            |l: Lit| v(a, l),
            constraints,
        ),
{
    let all = log[n].reply->Cubes_0;
    let va = |l: Lit| v(a, l);
    let wa = |l: Lit| w(a, l);
    assert(valued_at(sys, log, bad, v, w, a));
    assert forall|l: Lit| va(#[trigger] l.negation()) == !va(l) by {}
    law_certificate(log, va, wa, n, constraints, bad, r, end);
    assert forall|c: Seq<Lit>| #[trigger] all_true(wa, c) == holds(a, c) by {
        if all_true(wa, c) {
            assert forall|l: Lit| #[trigger] c.contains(l) implies lit_holds(a, l) by {
                let i = c.index_of(l);
                assert(wa(c[i]));
            }
        }
        if holds(a, c) {
            assert forall|i: int| 0 <= i < c.len() implies wa(#[trigger] c[i]) by {
                assert(c.contains(c[i]));
            }
        }
    }
    if !outside(a, all) {
        let i = choose|i: int| 0 <= i < all.len() && holds(a, #[trigger] all[i]);
        assert(all_true(wa, all[i]));
    }
    if one_cube(wa, all) {
        let i = choose|i: int| 0 <= i < all.len() && all_true(wa, #[trigger] all[i]);
        assert(holds(a, all[i]));
    }
}

/// A certificate shows that a system is safe: after the search says so, where all answers hold good
/// of the system and the way to generalize leaves no cubes pending, the literal that the certificate
/// adds is false in the initial states, steps lead from states where it is false to such states,
/// and in none of them the bad literal holds. All of that is said of states in which the
/// constraints hold.
pub proof fn law_certificate_holds(
    sys: System,
    log: Seq<Event>,
    at: int,
    s: StateView,
    rounds: u64,
    s2: StateView,
    at2: int,
    n: int,
    constraints: Seq<Lit>,
    bad: Lit,
    r: Lit,
    end: int,
    v: spec_fn(Set<u32>, Lit) -> bool,
    w: spec_fn(Set<u32>, Lit) -> bool,
)
    requires
        truthful(sys, log),
        fresh(sys, log, at, s),
        settles(s.options),
        check_run(log, at, s, rounds) == Some((Ok::<Option<bool>, Fault>(Some(true)), s2, at2)),
        at2 <= n,
        quiet(log, at2, n),
        certify_run(log, n, constraints, bad) == Some((r, end)),
        true_invariant(log, n, s2.level() as int),
        valued(sys, log, bad, v, w),
    ensures
        forall|a: Set<u32>| #[trigger]
            sys.starts(a) && all_true(|l: Lit| v(a, l), constraints) ==> !v(a, r),
        forall|a: Set<u32>, b: Set<u32>|
            !v(a, r) && #[trigger] sys.moves(a, b) && all_true(|l: Lit| v(b, l), constraints)
                ==> !v(b, r),
        forall|a: Set<u32>| !#[trigger] v(a, r) ==> !sys.fails(a),
{
    law_certified(sys, log, at, s, rounds, s2, at2);
    lemma_base(sys, log, at, s);
    let level = s2.level() as int;
    let all = log[n].reply->Cubes_0;
    lemma_check_ends(sys, log, at, s, rounds);
    lemma_below_quiet(log, at2, n, level);
    let k = choose|k: int|
        0 <= k < level && equal_at(log, n, k) && #[trigger] frame_cubes(log, n, k, all);
    lemma_equal_quiet(log, at2, n, k);
    assert(invariant_at(sys, log, at2, k));
    assert forall|a: Set<u32>| #[trigger] admitted(log, at2, k, a) == outside(a, all) by {
        lemma_quiet(log, at2, n, k, a);
        assert(admitted(log, n, k, a) <==> outside(a, all));
    }
    assert forall|a: Set<u32>| #[trigger]
        sys.starts(a) && all_true(|l: Lit| v(a, l), constraints) implies !v(a, r) by {
        lemma_unviolated(sys, log, n, constraints, bad, r, end, v, w, a);
        assert(admitted(log, at2, k, a));
        assert(!sys.is_goal(a));
    }
    assert forall|a: Set<u32>, b: Set<u32>|
        !v(a, r) && #[trigger] sys.moves(a, b) && all_true(
            |l: Lit| v(b, l),
            constraints,
        ) implies !v(b, r) by {
        lemma_unviolated(sys, log, n, constraints, bad, r, end, v, w, a);
        lemma_unviolated(sys, log, n, constraints, bad, r, end, v, w, b);
        assert(sys.walks(a, b));
        assert(admitted(log, at2, k, a));
        assert(admitted(log, at2, k, b));
        assert(!sys.is_goal(a) && !sys.is_goal(b));
    }
    assert forall|a: Set<u32>| !#[trigger] v(a, r) implies !sys.fails(a) by {
        lemma_unviolated(sys, log, n, constraints, bad, r, end, v, w, a);
    }
}

/// Where a search ends.
proof fn lemma_check_ends(sys: System, log: Seq<Event>, at: int, s: StateView, rounds: u64)
    requires
        truthful(sys, log),
        fresh(sys, log, at, s),
        check_run(log, at, s, rounds) is Some,
    ensures
        ({
            let (_, _, at2) = check_run(log, at, s, rounds)->0;
            at <= at2 <= log.len()
        }),
{
    lemma_base(sys, log, at, s);
    let (r, s1, at1) = base_run(log, at, s)->0;
    if r {
        lemma_search(sys, log, at1, s1, rounds, seq![]);
    }
}

/// Frames hold what is reached: whatever the outcome of a search, where all answers so far hold
/// good of the system, a state that is reached within `k` steps that the solvers are asked about
/// is excluded by no lemma of frame `k` or a later one.
pub proof fn law_frames(
    sys: System,
    log: Seq<Event>,
    at: int,
    s: StateView,
    rounds: u64,
    a: Set<u32>,
    k: nat,
)
    requires
        truthful(sys, log),
        fresh(sys, log, at, s),
        check_run(log, at, s, rounds) is Some,
        sys.walked(a, k),
    ensures
        ({
            let (_, _, at2) = check_run(log, at, s, rounds)->0;
            admitted(log, at2, k as int, a)
        }),
{
    lemma_base(sys, log, at, s);
    let (r, s1, at1) = base_run(log, at, s)->0;
    let (_, _, at2) = check_run(log, at, s, rounds)->0;
    if r {
        lemma_search(sys, log, at1, s1, rounds, seq![]);
    }
    assert(sound_somehow(sys, log, at2));
    let pend = choose|pend: Seq<(Seq<Lit>, int)>| #[trigger] sound(sys, log, at2, pend);
    lemma_reached(sys, log, at2, pend, a, k);
}

/// A state that is reached without passing a bad one is reached by steps that the solvers are
/// asked about.
proof fn lemma_first_bad(sys: System, level: int, a: Set<u32>, i: nat)
    requires
        sys.reaches(a, i),
        i <= level,
        forall|b: Set<u32>, j: nat| #[trigger]
            sys.walked(b, j) && j < level ==> !sys.is_goal(b),
        sys.ahead ==> init_safe(sys),
    ensures
        sys.walked(a, i),
        sys.ahead ==> !sys.fails(a),
    decreases i,
{
    if i > 0 {
        let b = choose|b: Set<u32>| sys.reaches(b, (i - 1) as nat) && #[trigger] sys.moves(b, a);
        lemma_first_bad(sys, level, b, (i - 1) as nat);
        assert(sys.walks(b, a));
        assert(!sys.is_goal(b));
    }
}

/// A search that ends without a verdict rules out short counterexamples: where all answers hold
/// good of the system and the rounds are used up with `n` frames after the first, no bad state is
/// reached in less than `n` steps, nor in `n` where the engine looks ahead.
pub proof fn law_bound(
    sys: System,
    log: Seq<Event>,
    at: int,
    s: StateView,
    rounds: u64,
    s2: StateView,
    at2: int,
    a: Set<u32>,
    i: nat,
)
    requires
        truthful(sys, log),
        fresh(sys, log, at, s),
        check_run(log, at, s, rounds) == Some((Ok::<Option<bool>, Fault>(None), s2, at2)),
        sys.reaches(a, i),
        i < s2.level() || sys.ahead && i == s2.level(),
    ensures
        !sys.fails(a),
{
    lemma_base(sys, log, at, s);
    let (r, s1, at1) = base_run(log, at, s)->0;
    lemma_search(sys, log, at1, s1, rounds, seq![]);
    let pend = choose|pend: Seq<(Seq<Lit>, int)>| #[trigger] standing(sys, log, at2, s2, pend);
    let level = s2.level() as int;
    assert forall|b: Set<u32>, j: nat| #[trigger] sys.walked(b, j) && j < level implies !sys.is_goal(
        b,
    ) by {
        lemma_reached(sys, log, at2, pend, b, j);
        lemma_admitted(log, at2, at2, s2.solvers - 2, j as int, b);
    }
    lemma_first_bad(sys, level, a, i);
}

/// Making a frame adds one to their number and changes nothing else of the state. The first frame
/// is given the cube of the negation of each initial literal, the second the negation of each clause
/// that is known to hold, and a later one nothing; other lemmas are not added.
pub proof fn law_extend(log: Seq<Event>, at: int, s: StateView)
    requires
        0 <= at <= log.len(),
        s.solvers < usize::MAX,
        extend_run(log, at, s) is Some,
    ensures
        ({
            let (s2, at2) = extend_run(log, at, s)->0;
            let start = at + frame_calls(s).len();
            let init = log[start].reply->Cube_0;
            let n = s.pre_lemmas.len();
            &&& s2 == (StateView { solvers: (s.solvers + 1) as usize, ..s })
            &&& quiet(log, at, start)
            &&& s.solvers == 0 ==> {
                &&& log[start].call is Init
                &&& forall|k: int|
                    0 <= k < init.len() ==> #[trigger] lemma_at(log, start + 1 + k) == Some(
                        (0usize, negated(seq![init[k]])),
                    )
                &&& quiet(log, start + 1 + init.len(), at2)
            }
            &&& s.solvers == 1 ==> {
                &&& at2 == start + n
                &&& forall|k: int|
                    0 <= k < n ==> #[trigger] lemma_at(log, start + k) == Some(
                        (1usize, negated(s.pre_lemmas[k])),
                    )
            }
            &&& s.solvers > 1 ==> at2 == start
        }),
{
    reveal(extend_run);
    lemma_frame_calls(s);
    lemma_asked_quiet(log, at, frame_calls(s));
    let start = at + frame_calls(s).len();
    if s.solvers == 0 {
        let init = log[start].reply->Cube_0;
        let calls = lemma_calls(0, units(init));
        assert forall|k: int| 0 <= k < init.len() implies #[trigger] lemma_at(log, start + 1 + k)
            == Some((0usize, negated(seq![init[k]]))) by {
            assert(asked(log, start + 1 + k, calls[k]));
            assert(units(init)[k] == seq![init[k]]);
        }
        let at2 = start + 1 + init.len();
        if init.len() > 0 {
            assert(asked(log, start + 1 + (init.len() - 1), calls[init.len() - 1]));
        }
        lemma_settled(log, at2, s.latchs, 0, seq![]);
        let (found, at3) = settled_run(log, at2, s.latchs, 0, seq![])->0;
        lemma_asked_quiet(log, at3, init_calls(found));
    } else if s.solvers == 1 {
        let calls = lemma_calls(1, s.pre_lemmas);
        assert forall|k: int| 0 <= k < s.pre_lemmas.len() implies #[trigger] lemma_at(
            log,
            start + k,
        ) == Some((1usize, negated(s.pre_lemmas[k]))) by {
            assert(asked(log, start + k, calls[k]));
        }
    }
}

/// A new engine has asked nothing that would add a lemma.
pub proof fn law_new(log: Seq<Event>, inputs: Seq<Var>)
    requires
        asked_all(log, 0, input_calls(inputs)),
        log.len() == inputs.len(),
    ensures
        quiet(log, 0, log.len() as int),
{
    lemma_asked_quiet(log, 0, input_calls(inputs));
}

/// A counterexample is one: where all answers hold good of the system, all constraints are in force
/// from the start, and the search found against the system, the inputs along the obligations from
/// any of the first frame on lead from an initial state in its cube to a bad state.
pub proof fn law_witness(
    sys: System,
    log: Seq<Event>,
    at: int,
    s: StateView,
    rounds: u64,
    s2: StateView,
    at2: int,
    id: int,
)
    requires
        truthful(sys, log),
        fresh(sys, log, at, s),
        !s.options.ic3.abs_cst,
        check_run(log, at, s, rounds) == Some((Ok::<Option<bool>, Fault>(Some(false)), s2, at2)),
        0 <= id < s2.obligations.len(),
        s2.obligations[id].frame == 0,
    ensures
        exists|a: Set<u32>| #[trigger]
            sys.starts(a) && holds(a, s2.obligations[id].lemma) && sys.runs(
                a,
                chain_inputs(s2.obligations, id),
            ),
{
    lemma_base(sys, log, at, s);
    let (r, s1, at1) = base_run(log, at, s)->0;
    if r {
        lemma_search(sys, log, at1, s1, rounds, seq![]);
    }
    assert(earnest(sys, s2.obligations, id));
    let a = choose|a: Set<u32>| #[trigger]
        sys.starts(a) && holds(a, s2.obligations[id].lemma);
    assert(sys.runs(a, chain_inputs(s2.obligations, id)));
}

} // verus!
