//! What certificates and counterexamples say.

use vstd::prelude::*;

use crate::fault::Fault;
use crate::lit::{negated, Lit, Var};
use crate::obligation::ObligationView;
use crate::report::{
    bmc_init_run, bmc_step_run, bmc_steps_run, certify_run, chain_inputs, dnf_run, restore_run,
    restores_run, witness_run, WitnessView,
};
use crate::session::{asked, Call, Event};
use crate::state::{linked, StateView};

verus! {

/// Whether the literals of a certificate have the values that they are made for, under an
/// assignment `v` of the system as it was given, and `w` of the system that the engine works on:
/// a gate is the conjunction or disjunction of its literals, and a restored literal has the value
/// of the one it stands for.
pub open spec fn true_gates(
    log: Seq<Event>,
    v: spec_fn(Lit) -> bool,
    w: spec_fn(Lit) -> bool,
) -> bool {
    forall|p: int|
        #![trigger log[p]]
        0 <= p < log.len() ==> match log[p].call {
            Call::NewAnd { lits } => v(log[p].reply->Literal_0) == all_true(v, lits),
            Call::NewOr { lits } => v(log[p].reply->Literal_0) == one_true(v, lits),
            Call::Restore { lit } => v(log[p].reply->Literal_0) == w(lit),
            _ => true,
        }
}

/// Whether all literals are true.
pub open spec fn all_true(v: spec_fn(Lit) -> bool, lits: Seq<Lit>) -> bool {
    forall|i: int| 0 <= i < lits.len() ==> v(#[trigger] lits[i])
}

/// Whether one of some literals is true.
pub open spec fn one_true(v: spec_fn(Lit) -> bool, lits: Seq<Lit>) -> bool {
    exists|i: int| 0 <= i < lits.len() && v(#[trigger] lits[i])
}

/// Whether one of some cubes is true.
pub open spec fn one_cube(w: spec_fn(Lit) -> bool, all: Seq<Seq<Lit>>) -> bool {
    exists|i: int| 0 <= i < all.len() && all_true(w, #[trigger] all[i])
}

/// Restored literals have the values of those they stand for.
proof fn lemma_restore(
    log: Seq<Event>,
    v: spec_fn(Lit) -> bool,
    w: spec_fn(Lit) -> bool,
    at: int,
    lits: Seq<Lit>,
    k: int,
    done: Seq<Lit>,
)
    requires
        true_gates(log, v, w),
        done.len() == k,
        k <= lits.len(),
        forall|i: int| 0 <= i < k ==> v(#[trigger] done[i]) == w(lits[i]),
        restore_run(log, at, lits, k, done) is Some,
    ensures
        ({
            let (all, _) = restore_run(log, at, lits, k, done)->0;
            all.len() == lits.len() && forall|i: int|
                0 <= i < lits.len() ==> v(#[trigger] all[i]) == w(lits[i])
        }),
    decreases lits.len() - k,
{
    if k < lits.len() {
        lemma_restore(
            log,
            v,
            w,
            at + 1,
            lits,
            k + 1,
            done.push(log[at].reply->Literal_0),
        );
    }
}

/// The literals that are made for cubes have the values of the cubes.
proof fn lemma_dnf(
    log: Seq<Event>,
    v: spec_fn(Lit) -> bool,
    w: spec_fn(Lit) -> bool,
    at: int,
    all: Seq<Seq<Lit>>,
    k: int,
    done: Seq<Lit>,
)
    requires
        true_gates(log, v, w),
        done.len() == k,
        k <= all.len(),
        forall|i: int| 0 <= i < k ==> v(#[trigger] done[i]) == all_true(w, all[i]),
        dnf_run(log, at, all, k, done) is Some,
    ensures
        ({
            let (gates, _) = dnf_run(log, at, all, k, done)->0;
            gates.len() == all.len() && forall|i: int|
                0 <= i < all.len() ==> v(#[trigger] gates[i]) == all_true(w, all[i])
        }),
    decreases all.len() - k,
{
    if k < all.len() {
        lemma_restore(log, v, w, at, all[k], 0, seq![]);
        let (lits, at2) = restore_run(log, at, all[k], 0, seq![])->0;
        assert(all_true(v, lits) == all_true(w, all[k])) by {
            if all_true(v, lits) {
                assert forall|i: int| 0 <= i < all[k].len() implies w(#[trigger] all[k][i]) by {
                    assert(v(lits[i]) == w(all[k][i]));
                }
            }
        }
        lemma_dnf(log, v, w, at2 + 1, all, k + 1, done.push(log[at2].reply->Literal_0));
    }
}

/// A certificate is violated where it should be: its literal is true exactly where one of the
/// cubes that the invariant excludes is, a constraint does not hold, or the bad literal is true.
pub proof fn law_certificate(
    log: Seq<Event>,
    v: spec_fn(Lit) -> bool,
    w: spec_fn(Lit) -> bool,
    at: int,
    constraints: Seq<Lit>,
    bad: Lit,
    r: Lit,
    at2: int,
)
    requires
        true_gates(log, v, w),
        forall|l: Lit| v(#[trigger] l.negation()) == !v(l),
        certify_run(log, at, constraints, bad) == Some((r, at2)),
    ensures
        v(r) == (one_cube(w, log[at].reply->Cubes_0) || !all_true(v, constraints) || v(bad)),
{
    let all = log[at].reply->Cubes_0;
    lemma_dnf(log, v, w, at + 1, all, 0, seq![]);
    let (dnf, at3) = dnf_run(log, at + 1, all, 0, seq![])->0;
    let inv = log[at3].reply->Literal_0;
    let rest = log[at3 + 1].reply->Literal_0;
    let violated = negated(constraints).push(bad);
    assert(v(inv) == one_cube(w, all)) by {
        if one_cube(w, all) {
            let i = choose|i: int| 0 <= i < all.len() && all_true(w, #[trigger] all[i]);
            assert(v(dnf[i]));
        }
        if one_true(v, dnf) {
            let i = choose|i: int| 0 <= i < dnf.len() && v(#[trigger] dnf[i]);
            assert(all_true(w, all[i]));
        }
    }
    assert(one_true(v, violated) == (!all_true(v, constraints) || v(bad))) by {
        if !all_true(v, constraints) {
            let i = choose|i: int| 0 <= i < constraints.len() && !v(#[trigger] constraints[i]);
            assert(violated[i] == constraints[i].negation());
            assert(v(violated[i]));
        }
        if v(bad) {
            assert(v(violated[constraints.len() as int]));
        }
        if one_true(v, violated) {
            let i = choose|i: int| 0 <= i < violated.len() && v(#[trigger] violated[i]);
            if i < constraints.len() {
                assert(violated[i] == constraints[i].negation());
                assert(!v(constraints[i]));
            }
        }
    }
    let both = seq![inv, rest];
    assert(both[0] == inv && both[1] == rest);
    if v(inv) {
        assert(v(both[0]));
    }
    if v(rest) {
        assert(v(both[1]));
    }
    assert(log[at3 + 2].reply->Literal_0 == r);
}

/// The obligations from one on, each leading to the next.
pub open spec fn chain(obligations: Seq<ObligationView>, id: usize) -> Seq<usize>
    decreases id,
{
    match obligations[id as int].next {
        None => seq![id],
        Some(k) => if k < id {
            seq![id] + chain(obligations, k)
        } else {
            seq![id]
        },
    }
}

/// From an obligation of depth `d` a chain of `d + 1` obligations leads to the bad state, and a
/// counterexample has the inputs of one after the other.
pub proof fn law_chain(s: StateView, id: usize)
    requires
        s.wf(),
        id < s.obligations.len(),
    ensures
        chain(s.obligations, id).len() == s.obligations[id as int].depth + 1,
        chain_inputs(s.obligations, id as int) == chain(s.obligations, id).map_values(
            |k: usize| s.obligations[k as int].input,
        ).flatten(),
    decreases id,
{
    assert(linked(s.obligations, id as int));
    let inputs = |k: usize| s.obligations[k as int].input;
    let steps = chain(s.obligations, id).map_values(inputs);
    match s.obligations[id as int].next {
        None => {
            assert(steps =~= seq![s.obligations[id as int].input]);
            steps.lemma_flatten_one_element();
        },
        Some(k) => {
            law_chain(s, k);
            let rest = chain(s.obligations, k).map_values(inputs);
            assert(steps.first() == s.obligations[id as int].input);
            assert(steps.drop_first() =~= rest);
            assert(steps.flatten() =~= s.obligations[id as int].input + rest.flatten());
        },
    }
}

/// Whether the answers about the bounded search are true of a model `m` of it: the values that are
/// told are those in the model, the literal that stands for another in a step has the value that
/// the other has in that step, by `w`, and a restored literal has in each step, by `v`, the value
/// of the one that it stands for.
pub open spec fn true_steps(
    log: Seq<Event>,
    m: spec_fn(Lit) -> bool,
    v: spec_fn(int, Lit) -> bool,
    w: spec_fn(int, Lit) -> bool,
) -> bool {
    forall|p: int| 0 <= p < log.len() ==> #[trigger] true_step(log, p, m, v, w)
}

/// The same of one answer.
pub open spec fn true_step(
    log: Seq<Event>,
    p: int,
    m: spec_fn(Lit) -> bool,
    v: spec_fn(int, Lit) -> bool,
    w: spec_fn(int, Lit) -> bool,
) -> bool {
    match log[p].call {
        Call::BmcValue { lit } => log[p].reply->Value_0 matches Some(x) ==> m(lit) == x,
        Call::LitNext { lit, step } => m(log[p].reply->Literal_0) == w(step as int, lit),
        Call::Restore { lit } => forall|k: int| #[trigger]
            v(k, log[p].reply->Literal_0) == w(k, lit),
        _ => true,
    }
}

/// Whether negating a literal negates its value in every step.
pub open spec fn negates(w: spec_fn(int, Lit) -> bool) -> bool {
    forall|k: int, l: Lit| #[trigger] w(k, l.negation()) == !w(k, l)
}

/// Whether the event at `q` asks for the value of a literal in the model; where there is one, the
/// next event restores the literal that has it, and the restored literal is among some.
pub open spec fn reports(log: Seq<Event>, q: int, lit: Lit, asks: Lit, lits: Seq<Lit>) -> bool {
    &&& log[q].call == Call::BmcValue { lit: asks }
    &&& match log[q].reply->Value_0 {
        None => true,
        Some(x) => q + 1 < log.len() && log[q + 1].call == (Call::Restore {
            lit: lit.negation_if(!x),
        }) && lits.contains(log[q + 1].reply->Literal_0),
    }
}

/// Whether a latch is reported so.
pub open spec fn latch_reported(log: Seq<Event>, lit: Lit, lits: Seq<Lit>) -> bool {
    exists|q: int| 0 <= q < log.len() && #[trigger] reports(log, q, lit, lit, lits)
}

/// Whether an input is reported so in a step.
pub open spec fn input_reported(log: Seq<Event>, lit: Lit, step: usize, lits: Seq<Lit>) -> bool {
    exists|q: int|
        0 < q < log.len() && log[q - 1].call == (Call::LitNext { lit, step }) && #[trigger] reports(
            log,
            q,
            lit,
            log[q - 1].reply->Literal_0,
            lits,
        )
}

/// The latches that are reported have the values of the model.
proof fn lemma_bmc_init(
    log: Seq<Event>,
    m: spec_fn(Lit) -> bool,
    v: spec_fn(int, Lit) -> bool,
    w: spec_fn(int, Lit) -> bool,
    at: int,
    latchs: Seq<Var>,
    k: int,
    done: Seq<Lit>,
)
    requires
        true_steps(log, m, v, w),
        negates(w),
        forall|l: Lit| m(l) == #[trigger] w(0, l),
        0 <= k,
        bmc_init_run(log, at, latchs, k, done) is Some,
    ensures
        ({
            let (all, _) = bmc_init_run(log, at, latchs, k, done)->0;
            &&& done.is_prefix_of(all)
            &&& forall|j: int| done.len() <= j < all.len() ==> v(0, #[trigger] all[j])
            &&& forall|i: int|
                k <= i < latchs.len() ==> #[trigger] latch_reported(
                    log,
                    latchs[i].lit_spec(),
                    all,
                )
        }),
    decreases latchs.len() - k,
{
    if k < latchs.len() {
        let lit = latchs[k].lit_spec();
        let (all, _) = bmc_init_run(log, at, latchs, k, done)->0;
        assert(true_step(log, at, m, v, w));
        match log[at].reply->Value_0 {
            None => {
                lemma_bmc_init(log, m, v, w, at + 1, latchs, k + 1, done);
            },
            Some(x) => {
                let more = done.push(log[at + 1].reply->Literal_0);
                assert(true_step(log, at + 1, m, v, w));
                lemma_bmc_init(log, m, v, w, at + 2, latchs, k + 1, more);
                assert(w(0, lit.negation_if(!x)));
                assert(v(0, log[at + 1].reply->Literal_0));
                assert(all[done.len() as int] == more[done.len() as int]);
                assert forall|j: int| done.len() <= j < all.len() implies v(
                    0,
                    #[trigger] all[j],
                ) by {}
                assert(all.contains(log[at + 1].reply->Literal_0));
            },
        }
        assert(reports(log, at, lit, lit, all));
    }
}

/// The inputs that are reported of a step have the values of the model there.
proof fn lemma_bmc_step(
    log: Seq<Event>,
    m: spec_fn(Lit) -> bool,
    v: spec_fn(int, Lit) -> bool,
    w: spec_fn(int, Lit) -> bool,
    at: int,
    inputs: Seq<Var>,
    step: usize,
    k: int,
    done: Seq<Lit>,
)
    requires
        true_steps(log, m, v, w),
        negates(w),
        0 <= k,
        bmc_step_run(log, at, inputs, step, k, done) is Some,
    ensures
        ({
            let (all, _) = bmc_step_run(log, at, inputs, step, k, done)->0;
            &&& done.is_prefix_of(all)
            &&& forall|j: int| done.len() <= j < all.len() ==> v(step as int, #[trigger] all[j])
            &&& forall|i: int|
                k <= i < inputs.len() ==> #[trigger] input_reported(
                    log,
                    inputs[i].lit_spec(),
                    step,
                    all,
                )
        }),
    decreases inputs.len() - k,
{
    if k < inputs.len() {
        let lit = inputs[k].lit_spec();
        let (all, _) = bmc_step_run(log, at, inputs, step, k, done)->0;
        assert(true_step(log, at, m, v, w));
        assert(true_step(log, at + 1, m, v, w));
        match log[at + 1].reply->Value_0 {
            None => {
                lemma_bmc_step(log, m, v, w, at + 2, inputs, step, k + 1, done);
            },
            Some(x) => {
                let more = done.push(log[at + 2].reply->Literal_0);
                assert(true_step(log, at + 2, m, v, w));
                lemma_bmc_step(log, m, v, w, at + 3, inputs, step, k + 1, more);
                assert(w(step as int, lit.negation_if(!x)));
                assert(v(step as int, log[at + 2].reply->Literal_0));
                assert(all[done.len() as int] == more[done.len() as int]);
                assert(all.contains(log[at + 2].reply->Literal_0));
            },
        }
        assert(reports(log, at + 1, lit, log[at].reply->Literal_0, all));
        assert(log[at + 1 - 1] == log[at]);
    }
}

/// What is reported of one step.
pub open spec fn true_report(
    log: Seq<Event>,
    v: spec_fn(int, Lit) -> bool,
    inputs: Seq<Var>,
    wit: Seq<Seq<Lit>>,
    k: int,
) -> bool {
    &&& forall|j: int| 0 <= j < wit[k].len() ==> v(k, #[trigger] wit[k][j])
    &&& forall|i: int|
        0 <= i < inputs.len() ==> #[trigger] input_reported(
            log,
            inputs[i].lit_spec(),
            k as usize,
            wit[k],
        )
}

/// The steps that are reported have the values of the model.
proof fn lemma_bmc_steps(
    log: Seq<Event>,
    m: spec_fn(Lit) -> bool,
    v: spec_fn(int, Lit) -> bool,
    w: spec_fn(int, Lit) -> bool,
    at: int,
    inputs: Seq<Var>,
    step: int,
    last: usize,
    done: Seq<Seq<Lit>>,
)
    requires
        true_steps(log, m, v, w),
        negates(w),
        done.len() == step,
        step <= last + 1,
        forall|k: int| 0 <= k < step ==> #[trigger] true_report(log, v, inputs, done, k),
        bmc_steps_run(log, at, inputs, step, last, done) is Some,
    ensures
        ({
            let (all, _) = bmc_steps_run(log, at, inputs, step, last, done)->0;
            &&& all.len() == last + 1
            &&& forall|k: int| 0 <= k <= last ==> #[trigger] true_report(log, v, inputs, all, k)
        }),
    decreases last + 1 - step,
{
    if step <= last {
        let (lits, at2) = bmc_step_run(log, at, inputs, step as usize, 0, seq![])->0;
        lemma_bmc_step(log, m, v, w, at, inputs, step as usize, 0, seq![]);
        let more = done.push(lits);
        assert forall|k: int| 0 <= k < step + 1 implies #[trigger] true_report(
            log,
            v,
            inputs,
            more,
            k,
        ) by {
            if k < step {
                assert(true_report(log, v, inputs, done, k));
                assert(more[k] == done[k]);
            } else {
                assert(more[k] == lits);
            }
        }
        lemma_bmc_steps(log, m, v, w, at2, inputs, step + 1, last, more);
    }
}

/// A counterexample of the bounded search says what its model does: under a model that the answers
/// are true of, each literal that is reported of the start is true there, each literal that is
/// reported of a step is true in that step, and there is a report of every step. Every latch and
/// every input that the model fixes is reported.
pub proof fn law_model(
    log: Seq<Event>,
    m: spec_fn(Lit) -> bool,
    v: spec_fn(int, Lit) -> bool,
    w: spec_fn(int, Lit) -> bool,
    at: int,
    s: StateView,
)
    requires
        true_steps(log, m, v, w),
        negates(w),
        forall|l: Lit| m(l) == #[trigger] w(0, l),
    ensures
        witness_run(log, at, s) matches Some((Ok(r), _)) ==> (log[at].reply->Index_0 matches Some(
            last,
        ) ==> {
            &&& forall|j: int| 0 <= j < r.init.len() ==> v(0, #[trigger] r.init[j])
            &&& forall|i: int|
                0 <= i < s.latchs.len() ==> #[trigger] latch_reported(
                    log,
                    s.latchs[i].lit_spec(),
                    r.init,
                )
            &&& r.wit.len() == last + 1
            &&& forall|k: int| 0 <= k <= last ==> #[trigger] true_report(log, v, s.inputs, r.wit, k)
        }),
{
    if let Some((Ok(r), _)) = witness_run(log, at, s) {
        if let Some(last) = log[at].reply->Index_0 {
            let (init, at2) = bmc_init_run(log, at + 1, s.latchs, 0, seq![])->0;
            lemma_bmc_init(log, m, v, w, at + 1, s.latchs, 0, seq![]);
            lemma_bmc_steps(log, m, v, w, at2, s.inputs, 0, last, seq![]);
        }
    }
}

/// Whether two sequences have the same values, one after the other.
pub open spec fn same_values(
    v: spec_fn(Lit) -> bool,
    lits: Seq<Lit>,
    w: spec_fn(Lit) -> bool,
    other: Seq<Lit>,
) -> bool {
    &&& lits.len() == other.len()
    &&& forall|i: int| 0 <= i < lits.len() ==> v(#[trigger] lits[i]) == w(other[i])
}

/// Restored cubes have the values of those they stand for.
proof fn lemma_restores(
    log: Seq<Event>,
    v: spec_fn(Lit) -> bool,
    w: spec_fn(Lit) -> bool,
    at: int,
    all: Seq<Seq<Lit>>,
    k: int,
    done: Seq<Seq<Lit>>,
)
    requires
        true_gates(log, v, w),
        done.len() == k,
        k <= all.len(),
        forall|i: int| 0 <= i < k ==> same_values(v, #[trigger] done[i], w, all[i]),
        restores_run(log, at, all, k, done) is Some,
    ensures
        ({
            let (r, _) = restores_run(log, at, all, k, done)->0;
            r.len() == all.len() && forall|i: int|
                0 <= i < all.len() ==> same_values(v, #[trigger] r[i], w, all[i])
        }),
    decreases all.len() - k,
{
    if k < all.len() {
        lemma_restore(log, v, w, at, all[k], 0, seq![]);
        let (lits, at2) = restore_run(log, at, all[k], 0, seq![])->0;
        lemma_restores(log, v, w, at2, all, k + 1, done.push(lits));
    }
}

/// A counterexample that starts from an obligation is that of the first of the queue, which must be
/// at the first frame. It says of the system as it was given what the obligation says of the start,
/// and what the obligations along the way say of the inputs, step by step, in the same order.
pub proof fn law_told(
    log: Seq<Event>,
    v: spec_fn(Lit) -> bool,
    w: spec_fn(Lit) -> bool,
    at: int,
    s: StateView,
)
    requires
        s.wf(),
        true_gates(log, v, w),
        log[at].reply->Index_0 is None,
    ensures
        witness_run(log, at, s) matches Some((Ok(r), _)) ==> {
            &&& log[at + 1].call == Call::PeakObligation
            &&& log[at + 1].reply->Index_0 matches Some(id) && {
                let steps = chain(s.obligations, id).map_values(
                    |k: usize| s.obligations[k as int].input,
                ).flatten();
                &&& id < s.obligations.len()
                &&& s.obligations[id as int].frame == 0
                &&& same_values(v, r.init, w, s.obligations[id as int].lemma)
                &&& r.wit.len() == steps.len()
                &&& forall|k: int|
                    0 <= k < steps.len() ==> same_values(v, #[trigger] r.wit[k], w, steps[k])
            }
        },
{
    if let Some((Ok(r), _)) = witness_run(log, at, s) {
        let id = log[at + 1].reply->Index_0->0;
        let lemma = s.obligations[id as int].lemma;
        let (init, at2) = restore_run(log, at + 2, lemma, 0, seq![])->0;
        lemma_restore(log, v, w, at + 2, lemma, 0, seq![]);
        lemma_restores(log, v, w, at2, chain_inputs(s.obligations, id as int), 0, seq![]);
        law_chain(s, id);
    }
}

/// There is no counterexample to tell only where the bounded search did not run, and the queue has
/// no obligation, names one that is not known, or names one that is not at the first frame.
pub proof fn law_untold(log: Seq<Event>, at: int, s: StateView)
    ensures
        witness_run(log, at, s) matches Some((r, at2)) ==> {
            let first = log[at + 1].reply->Index_0;
            let chained = log[at].reply->Index_0 is None;
            &&& asked(log, at, Call::BmcUnrolled)
            &&& chained ==> asked(log, at + 1, Call::PeakObligation)
            &&& r == Err::<WitnessView, Fault>(Fault::NoObligation) <==> chained && first is None
            &&& r == Err::<WitnessView, Fault>(Fault::UnknownObligation) <==> chained && (
            first matches Some(id) && id >= s.obligations.len())
            &&& r == Err::<WitnessView, Fault>(Fault::LateInitialState) <==> chained && (
            first matches Some(id) && id < s.obligations.len() && s.obligations[id as int].frame
                != 0)
            &&& r is Err ==> chained && at2 == at + 2 && (first matches Some(id) ==> id
                >= s.obligations.len() || s.obligations[id as int].frame != 0)
        },
{
}

/// The literals that were restored between two events, in order.
pub open spec fn restored(log: Seq<Event>, from: int, to: int) -> Seq<Lit>
    decreases to - from,
{
    if to <= from {
        seq![]
    } else {
        let before = restored(log, from, to - 1);
        if log[to - 1].call is Restore {
            before.push(log[to - 1].reply->Literal_0)
        } else {
            before
        }
    }
}

/// What was restored before an event and what was after it make up all.
proof fn lemma_restored(log: Seq<Event>, from: int, mid: int, to: int)
    requires
        from <= mid <= to,
    ensures
        restored(log, from, to) == restored(log, from, mid) + restored(log, mid, to),
    decreases to - mid,
{
    if mid < to {
        lemma_restored(log, from, mid, to - 1);
    }
    assert(restored(log, from, to) =~= restored(log, from, mid) + restored(log, mid, to));
}

/// The first event of a stretch is restored first, or nothing.
proof fn lemma_restored_first(log: Seq<Event>, from: int, to: int)
    requires
        from < to,
    ensures
        restored(log, from, to) == if log[from].call is Restore {
            seq![log[from].reply->Literal_0] + restored(log, from + 1, to)
        } else {
            restored(log, from + 1, to)
        },
{
    lemma_restored(log, from, from + 1, to);
    assert(restored(log, from, from) =~= seq![]);
    assert(restored(log, from, from + 1) =~= if log[from].call is Restore {
        seq![log[from].reply->Literal_0]
    } else {
        seq![]
    });
    assert(restored(log, from, to) =~= if log[from].call is Restore {
        seq![log[from].reply->Literal_0] + restored(log, from + 1, to)
    } else {
        restored(log, from + 1, to)
    });
}

/// The literals of a cube that is restored are those that were.
proof fn lemma_restore_told(log: Seq<Event>, at: int, lits: Seq<Lit>, k: int, done: Seq<Lit>)
    ensures
        restore_run(log, at, lits, k, done) matches Some((all, at2)) ==> at <= at2 && all == done
            + restored(log, at, at2),
    decreases lits.len() - k,
{
    if k < lits.len() {
        if let Some((all, at2)) = restore_run(log, at, lits, k, done) {
            lemma_restore_told(log, at + 1, lits, k + 1, done.push(log[at].reply->Literal_0));
            lemma_restored_first(log, at, at2);
            assert(all =~= done + restored(log, at, at2));
        }
    } else {
        assert(done + restored(log, at, at) =~= done);
    }
}

/// One more sequence at the end comes last.
proof fn lemma_flat(all: Seq<Seq<Lit>>, last: Seq<Lit>)
    ensures
        all.push(last).flatten() == all.flatten() + last,
{
    let more = all.push(last);
    more.lemma_flatten_and_flatten_alt_are_equivalent();
    all.lemma_flatten_and_flatten_alt_are_equivalent();
    assert(more.drop_last() =~= all);
}

/// The literals of cubes that are restored are those that were.
proof fn lemma_restores_told(
    log: Seq<Event>,
    at: int,
    all: Seq<Seq<Lit>>,
    k: int,
    done: Seq<Seq<Lit>>,
)
    ensures
        restores_run(log, at, all, k, done) matches Some((r, at2)) ==> at <= at2 && r.flatten()
            == done.flatten() + restored(log, at, at2),
    decreases all.len() - k,
{
    if k < all.len() {
        if let Some((r, end)) = restores_run(log, at, all, k, done) {
            lemma_restore_told(log, at, all[k], 0, seq![]);
            let (lits, at2) = restore_run(log, at, all[k], 0, seq![])->0;
            lemma_restores_told(log, at2, all, k + 1, done.push(lits));
            lemma_flat(done, lits);
            lemma_restored(log, at, at2, end);
            assert(lits =~= restored(log, at, at2));
            assert(r.flatten() =~= done.flatten() + restored(log, at, end));
        }
    } else {
        assert(done.flatten() + restored(log, at, at) =~= done.flatten());
    }
}

/// The latches that are reported are those that were restored.
proof fn lemma_bmc_init_told(log: Seq<Event>, at: int, latchs: Seq<Var>, k: int, done: Seq<Lit>)
    ensures
        bmc_init_run(log, at, latchs, k, done) matches Some((all, at2)) ==> at <= at2 && all == done
            + restored(log, at, at2),
    decreases latchs.len() - k,
{
    if k < latchs.len() {
        if let Some((all, at2)) = bmc_init_run(log, at, latchs, k, done) {
            match log[at].reply->Value_0 {
                None => {
                    lemma_bmc_init_told(log, at + 1, latchs, k + 1, done);
                    lemma_restored_first(log, at, at2);
                },
                Some(_) => {
                    let more = done.push(log[at + 1].reply->Literal_0);
                    lemma_bmc_init_told(log, at + 2, latchs, k + 1, more);
                    lemma_restored_first(log, at, at2);
                    lemma_restored_first(log, at + 1, at2);
                    assert(all =~= done + restored(log, at, at2));
                },
            }
        }
    } else {
        assert(done + restored(log, at, at) =~= done);
    }
}

/// The inputs that are reported of a step are those that were restored.
proof fn lemma_bmc_step_told(
    log: Seq<Event>,
    at: int,
    inputs: Seq<Var>,
    step: usize,
    k: int,
    done: Seq<Lit>,
)
    ensures
        bmc_step_run(log, at, inputs, step, k, done) matches Some((all, at2)) ==> at <= at2 && all
            == done + restored(log, at, at2),
    decreases inputs.len() - k,
{
    if k < inputs.len() {
        if let Some((all, at2)) = bmc_step_run(log, at, inputs, step, k, done) {
            match log[at + 1].reply->Value_0 {
                None => {
                    lemma_bmc_step_told(log, at + 2, inputs, step, k + 1, done);
                    lemma_restored_first(log, at, at2);
                    lemma_restored_first(log, at + 1, at2);
                },
                Some(_) => {
                    let more = done.push(log[at + 2].reply->Literal_0);
                    lemma_bmc_step_told(log, at + 3, inputs, step, k + 1, more);
                    lemma_restored_first(log, at, at2);
                    lemma_restored_first(log, at + 1, at2);
                    lemma_restored_first(log, at + 2, at2);
                    assert(all =~= done + restored(log, at, at2));
                },
            }
        }
    } else {
        assert(done + restored(log, at, at) =~= done);
    }
}

/// The same of all steps.
proof fn lemma_bmc_steps_told(
    log: Seq<Event>,
    at: int,
    inputs: Seq<Var>,
    step: int,
    last: usize,
    done: Seq<Seq<Lit>>,
)
    ensures
        bmc_steps_run(log, at, inputs, step, last, done) matches Some((r, at2)) ==> at <= at2
            && r.flatten() == done.flatten() + restored(log, at, at2),
    decreases last + 1 - step,
{
    if step <= last {
        if let Some((r, end)) = bmc_steps_run(log, at, inputs, step, last, done) {
            lemma_bmc_step_told(log, at, inputs, step as usize, 0, seq![]);
            let (lits, at2) = bmc_step_run(log, at, inputs, step as usize, 0, seq![])->0;
            lemma_bmc_steps_told(log, at2, inputs, step + 1, last, done.push(lits));
            lemma_flat(done, lits);
            lemma_restored(log, at, at2, end);
            assert(lits =~= restored(log, at, at2));
            assert(r.flatten() =~= done.flatten() + restored(log, at, end));
        }
    } else {
        assert(done.flatten() + restored(log, at, at) =~= done.flatten());
    }
}

/// A counterexample has the literals that were restored for it, all of them and in that order:
/// those of the start first, and then those of one step after the other.
pub proof fn law_restored(log: Seq<Event>, at: int, s: StateView)
    ensures
        witness_run(log, at, s) matches Some((Ok(r), at2)) ==> r.init + r.wit.flatten()
            == restored(log, at, at2),
{
    if let Some((Ok(r), end)) = witness_run(log, at, s) {
        let none: Seq<Seq<Lit>> = seq![];
        assert(none.flatten() =~= seq![]);
        let (first, mid) = match log[at].reply->Index_0 {
            None => {
                let id = log[at + 1].reply->Index_0->0;
                let lemma = s.obligations[id as int].lemma;
                lemma_restore_told(log, at + 2, lemma, 0, seq![]);
                let (init, at2) = restore_run(log, at + 2, lemma, 0, seq![])->0;
                lemma_restores_told(log, at2, chain_inputs(s.obligations, id as int), 0, none);
                lemma_restored_first(log, at + 1, end);
                (at + 2, at2)
            },
            Some(last) => {
                lemma_bmc_init_told(log, at + 1, s.latchs, 0, seq![]);
                let (init, at2) = bmc_init_run(log, at + 1, s.latchs, 0, seq![])->0;
                lemma_bmc_steps_told(log, at2, s.inputs, 0, last, none);
                (at + 1, at2)
            },
        };
        lemma_restored_first(log, at, end);
        lemma_restored(log, first, mid, end);
        assert(r.init =~= restored(log, first, mid));
        assert(r.wit.flatten() =~= restored(log, mid, end));
    }
}

} // verus!
