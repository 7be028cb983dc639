//! What making the frames and the first look at them ask for.

use vstd::prelude::*;

use crate::engine::{
    asked_all, base_run, check_run, effective, extend_run, frame_calls, init_calls, input_calls,
    input_map, lemma_calls, search_run, settled_run, units,
};
use crate::fault::Fault;
use crate::lit::{law_sorted, negated, sorts, Lit, Var, MAX_VAR};
use crate::options::{IC3Options, Options};
use crate::session::{asked, yes, Call, Event};
use crate::state::StateView;

verus! {

/// Whether the event at `q` tells the value of a latch in the first solver, where the event before
/// it says that the latch has no initial value.
pub open spec fn tells(log: Seq<Event>, q: int, var: Var, value: bool) -> bool {
    &&& 0 < q < log.len()
    &&& log[q - 1].call == Call::HasInit { var }
    &&& !yes(log, q - 1)
    &&& log[q].call == Call::SatValue { solver: 0, lit: var.lit_spec() }
    &&& log[q].reply->Value_0 == Some(value)
}

/// Whether the event at `q` asks for the initial value of a latch, and, where there is none, the
/// next one for its value in the first solver.
pub open spec fn looks(log: Seq<Event>, q: int, var: Var) -> bool {
    &&& log[q].call == Call::HasInit { var }
    &&& !yes(log, q) ==> q + 1 < log.len() && log[q + 1].call == (Call::SatValue {
        solver: 0,
        lit: var.lit_spec(),
    })
}

/// Whether a latch is asked about so between two events.
pub open spec fn looked(log: Seq<Event>, at: int, end: int, var: Var) -> bool {
    exists|q: int| at <= q < end && #[trigger] looks(log, q, var)
}

/// Whether the value that makes a literal true is told so between two events.
pub open spec fn told(log: Seq<Event>, at: int, end: int, lit: Lit) -> bool {
    exists|q: int| at < q < end && #[trigger] tells(log, q, lit.var_spec(), lit.positive())
}

/// Whether the event at `p` gives a latch an initial value.
pub open spec fn gives(log: Seq<Event>, p: int, var: Var, value: bool) -> bool {
    log[p].call == Call::AddInit { var, value }
}

/// The values that are collected are those that the first solver tells, each the value of a latch
/// that has no initial value, and every latch is looked at.
proof fn lemma_tells(log: Seq<Event>, at: int, latchs: Seq<Var>, k: int, found: Seq<Lit>)
    requires
        0 <= at <= log.len(),
        0 <= k <= latchs.len(),
        forall|i: int| 0 <= i < latchs.len() ==> (#[trigger] latchs[i]).0 <= MAX_VAR,
        settled_run(log, at, latchs, k, found) is Some,
    ensures
        ({
            let (all, at2) = settled_run(log, at, latchs, k, found)->0;
            &&& at <= at2 <= log.len()
            &&& found.is_prefix_of(all)
            &&& forall|j: int|
                found.len() <= j < all.len() ==> #[trigger] told(log, at, at2, all[j])
            &&& forall|q: int, var: Var, value: bool|
                at < q < at2 && #[trigger] tells(log, q, var, value) ==> exists|j: int|
                    found.len() <= j < all.len() && (#[trigger] all[j]).var_spec() == var
                        && all[j].positive() == value
            &&& forall|j: int|
                k <= j < latchs.len() ==> #[trigger] looked(log, at, at2, latchs[j])
            &&& forall|p: int|
                at <= p < at2 ==> (#[trigger] log[p]).call is HasInit || log[p].call is SatValue
        }),
    decreases latchs.len() - k,
{
    if k < latchs.len() {
        let var = latchs[k];
        let lit = var.lit_spec();
        let (all, at2) = settled_run(log, at, latchs, k, found)->0;
        let from = if yes(log, at) {
            at + 1
        } else {
            at + 2
        };
        if yes(log, at) {
            lemma_tells(log, at + 1, latchs, k + 1, found);
            assert(looks(log, at, latchs[k]));
            assert forall|j: int| found.len() <= j < all.len() implies #[trigger] told(
                log,
                at,
                at2,
                all[j],
            ) by {
                assert(told(log, at + 1, at2, all[j]));
            }
            assert forall|q: int, v: Var, value: bool|
                at < q < at2 && #[trigger] tells(log, q, v, value) implies exists|j: int|
                found.len() <= j < all.len() && (#[trigger] all[j]).var_spec() == v
                    && all[j].positive() == value by {
                if q == at + 1 {
                    assert(false);
                }
            }
        } else {
            let found2 = match log[at + 1].reply->Value_0 {
                None => found,
                Some(v) => found.push(lit.negation_if(!v)),
            };
            lemma_tells(log, at + 2, latchs, k + 1, found2);
            assert(looks(log, at, latchs[k]));
            assert forall|j: int| found.len() <= j < all.len() implies #[trigger] told(
                log,
                at,
                at2,
                all[j],
            ) by {
                if j < found2.len() {
                    assert(all[j] == found2[j]);
                    assert(tells(log, at + 1, all[j].var_spec(), all[j].positive()));
                } else {
                    assert(told(log, at + 2, at2, all[j]));
                }
            }
            assert forall|q: int, v: Var, value: bool|
                at < q < at2 && #[trigger] tells(log, q, v, value) implies exists|j: int|
                found.len() <= j < all.len() && (#[trigger] all[j]).var_spec() == v
                    && all[j].positive() == value by {
                if q == at + 1 {
                    assert(v == var);
                    assert(all[found.len() as int] == found2[found.len() as int]);
                } else if q == at + 2 {
                    assert(false);
                }
            }
        }
        assert forall|j: int| k <= j < latchs.len() implies #[trigger] looked(
            log,
            at,
            at2,
            latchs[j],
        ) by {
            if j > k {
                assert(looked(log, from, at2, latchs[j]));
            }
        }
    }
}

/// The requests in a row that a log holds.
proof fn lemma_asked_row(log: Seq<Event>, at: int, calls: Seq<Call>)
    requires
        0 <= at <= log.len(),
        asked_all(log, at, calls),
    ensures
        at + calls.len() <= log.len(),
        forall|p: int|
            at <= p < at + calls.len() ==> (#[trigger] log[p]).call == calls[p - at],
{
    if calls.len() > 0 {
        assert(asked(log, at + (calls.len() - 1), calls[calls.len() - 1]));
    }
    assert forall|p: int| at <= p < at + calls.len() implies (#[trigger] log[p]).call == calls[p
        - at] by {
        assert(asked(log, at + (p - at), calls[p - at]));
    }
}

/// What the requests that make a frame are: at most one to renew the solver for bad states, then
/// one for a new solver, one for each variable that every solver may decide on, and one to put the
/// solver in place.
proof fn lemma_frame_row(s: StateView)
    ensures
        ({
            let calls = frame_calls(s);
            let bad = if s.options.ic3.no_pred_prop {
                0int
            } else {
                1int
            };
            let n = s.auxiliary_var.len();
            &&& calls.len() == bad + n + 2
            &&& bad == 1 ==> calls[0] == Call::RenewBadSolver
            &&& calls[bad] == (Call::NewSolver { frame: s.solvers })
            &&& forall|k: int|
                0 <= k < n ==> #[trigger] calls[bad + 1 + k] == (Call::AddDomain {
                    var: s.auxiliary_var[k],
                    permanent: true,
                })
            &&& calls[bad + 1 + n] == Call::InstallSolver
            &&& forall|i: int|
                0 <= i < calls.len() ==> !((#[trigger] calls[i]) is AddInit) && !(
                calls[i] is SatValue)
        }),
{
}

/// Where the first frame is made, a latch is given an initial value only where it had none and the
/// first solver told that value before; every value that is told so is given; and all latches are
/// asked about. No latch is given a value where another frame is made.
pub proof fn law_inits(log: Seq<Event>, at: int, s: StateView)
    requires
        s.wf(),
        0 <= at <= log.len(),
        extend_run(log, at, s) is Some,
    ensures
        ({
            let (_, at2) = extend_run(log, at, s)->0;
            &&& forall|p: int, var: Var, value: bool|
                at <= p < at2 && #[trigger] gives(log, p, var, value) ==> s.solvers == 0 && exists|
                    q: int,
                |
                    at < q < p && #[trigger] tells(log, q, var, value)
            &&& s.solvers == 0 ==> forall|q: int, var: Var, value: bool|
                at < q < at2 && #[trigger] tells(log, q, var, value) ==> exists|p: int|
                    q < p < at2 && #[trigger] gives(log, p, var, value)
            &&& s.solvers == 0 ==> forall|j: int|
                0 <= j < s.latchs.len() ==> #[trigger] looked(log, at, at2, s.latchs[j])
        }),
{
    reveal(extend_run);
    let (_, end) = extend_run(log, at, s)->0;
    let at2 = at + frame_calls(s).len();
    lemma_frame_row(s);
    lemma_asked_row(log, at, frame_calls(s));
    if s.solvers == 0 {
        let init = log[at2].reply->Cube_0;
        let first = lemma_calls(0, units(init));
        let at3 = at2 + 1 + init.len();
        lemma_asked_row(log, at2 + 1, first);
        lemma_tells(log, at3, s.latchs, 0, seq![]);
        let (found, at4) = settled_run(log, at3, s.latchs, 0, seq![])->0;
        let last = init_calls(found);
        assert forall|j: int| 0 <= j < s.latchs.len() implies #[trigger] looked(
            log,
            at,
            end,
            s.latchs[j],
        ) by {
            assert(looked(log, at3, at4, s.latchs[j]));
        }
        lemma_asked_row(log, at4, last);
        assert forall|p: int| at <= p < at3 implies !((#[trigger] log[p]).call is AddInit) && !(
        log[p].call is SatValue) by {
            if p < at2 {
                assert(log[p].call == frame_calls(s)[p - at]);
            } else if p > at2 {
                assert(log[p].call == first[p - (at2 + 1)]);
            }
        }
        assert forall|p: int, var: Var, value: bool|
            at <= p < end && #[trigger] gives(log, p, var, value) implies exists|q: int|
            at < q < p && #[trigger] tells(log, q, var, value) by {
            assert(p >= at4);
            let j = p - at4;
            assert(log[p].call == last[j]);
            assert(found[j].var_spec() == var && found[j].positive() == value);
            assert(told(log, at3, at4, found[j]));
        }
        assert forall|q: int, var: Var, value: bool|
            at < q < end && #[trigger] tells(log, q, var, value) implies exists|p: int|
            q < p < end && #[trigger] gives(log, p, var, value) by {
            if q >= at4 {
                assert(log[q].call == last[q - at4]);
            }
            assert(at3 <= q < at4);
            if q == at3 {
                assert(log[at3].call is HasInit);
            }
            let j = choose|j: int|
                0 <= j < found.len() && (#[trigger] found[j]).var_spec() == var
                    && found[j].positive() == value;
            assert(log[at4 + j].call == last[j]);
            assert(gives(log, at4 + j, var, value));
        }
    } else if s.solvers == 1 {
        let calls = lemma_calls(1, s.pre_lemmas);
        lemma_asked_row(log, at2, calls);
    }
}

/// A frame is made with a solver of its own, numbered as the frame is, that may decide on all the
/// variables that every solver may; the solver for bad states is renewed first, unless the options
/// do without it.
pub proof fn law_frame(log: Seq<Event>, at: int, s: StateView)
    requires
        0 <= at <= log.len(),
        extend_run(log, at, s) is Some,
    ensures
        ({
            let first = if s.options.ic3.no_pred_prop {
                at
            } else {
                at + 1
            };
            let n = s.auxiliary_var.len();
            &&& !s.options.ic3.no_pred_prop ==> log[at].call == Call::RenewBadSolver
            &&& log[first].call == (Call::NewSolver { frame: s.solvers })
            &&& forall|k: int|
                0 <= k < n ==> #[trigger] asked(
                    log,
                    first + 1 + k,
                    Call::AddDomain { var: s.auxiliary_var[k], permanent: true },
                )
            &&& log[first + 1 + n].call == Call::InstallSolver
        }),
{
    reveal(extend_run);
    lemma_frame_row(s);
    let calls = frame_calls(s);
    lemma_asked_row(log, at, calls);
    let first = if s.options.ic3.no_pred_prop {
        at
    } else {
        at + 1
    };
    assert(log[first].call == calls[first - at]);
    assert(log[first + 1 + s.auxiliary_var.len()].call == calls[first - at + 1
        + s.auxiliary_var.len()]);
    assert forall|k: int| 0 <= k < s.auxiliary_var.len() implies #[trigger] asked(
        log,
        first + 1 + k,
        Call::AddDomain { var: s.auxiliary_var[k], permanent: true },
    ) by {
        assert(log[first + 1 + k].call == calls[first - at + 1 + k]);
    }
}

/// The first look at the first frame: unless the options do without it, the bad literal is asked
/// for, and whether it can hold there. Where it can, the state that is read off is kept as the
/// obligation of a bad state, and nothing more is asked. Where it cannot, its negation becomes a
/// constraint, and the solver that lifts predecessors is renewed with it.
pub proof fn law_base(log: Seq<Event>, at: int, s: StateView)
    requires
        0 <= at <= log.len(),
        s.solvers == 0,
        s.obligations.len() < usize::MAX,
    ensures
        base_run(log, at, s) matches Some((safe, s2, at2)) ==> {
            let bad = log[at2 - 4].reply->Literal_0;
            &&& s.options.ic3.no_pred_prop ==> safe && s2.obligations == s.obligations
            &&& !s.options.ic3.no_pred_prop ==> {
                &&& log[at2 - 4].call == Call::Bad
                &&& log[at2 - 3].call == (Call::SolveWithoutBucket { solver: 0, cube: seq![bad] })
                &&& safe == !yes(log, at2 - 3)
            }
            &&& !s.options.ic3.no_pred_prop && safe ==> {
                &&& s2.obligations == s.obligations
                &&& log[at2 - 2].call == (Call::AddConstraint { lit: bad.negation() })
                &&& log[at2 - 1].call == Call::RenewLift
            }
            &&& !safe ==> {
                let po = s2.obligations.last();
                &&& s2.obligations == s.obligations.push(po)
                &&& log[at2 - 2].call == (Call::GetPred { frame: 1, strengthen: true })
                &&& sorts(po.lemma, log[at2 - 2].reply->Pred_0)
                &&& po.input == seq![log[at2 - 2].reply->Pred_1]
                &&& po.frame == 0 && po.depth == 0 && po.next is None
                &&& log[at2 - 1].call == (Call::AddObligation {
                    id: s.obligations.len() as usize,
                    po,
                })
            }
        },
{
    reveal(extend_run);
    if let Some((safe, s2, at2)) = base_run(log, at, s) {
        if !safe {
            law_sorted(log[at2 - 2].reply->Pred_0);
            assert(s2.obligations.drop_last() =~= s.obligations);
        }
    }
}

/// The map that a new engine starts with leads back from the variable that stands for an input one
/// step later to that input, where these variables differ, and has no other entries.
pub proof fn law_inputs(log: Seq<Event>, inputs: Seq<Var>, n: int)
    requires
        0 <= n <= inputs.len(),
        asked_all(log, 0, input_calls(inputs)),
    ensures
        forall|k: int| 0 <= k < n ==> (#[trigger] log[k]).call == (Call::VarNext {
            var: inputs[k],
            step: 1,
        }),
        forall|k: int|
            #![trigger log[k]]
            0 <= k < n && (forall|j: int|
                k < j < n ==> (#[trigger] log[j]).reply->Variable_0.0
                    != log[k].reply->Variable_0.0) ==> input_map(log, 0, inputs, n).dom().contains(
                log[k].reply->Variable_0.0,
            ) && input_map(log, 0, inputs, n)[log[k].reply->Variable_0.0] == inputs[k].0,
        forall|v: u32| #[trigger]
            input_map(log, 0, inputs, n).dom().contains(v) ==> exists|k: int|
                0 <= k < n && (#[trigger] log[k]).reply->Variable_0.0 == v,
    decreases n,
{
    if n > 0 {
        law_inputs(log, inputs, n - 1);
        assert(asked(log, 0 + (n - 1), input_calls(inputs)[n - 1]));
        assert forall|v: u32| #[trigger]
            input_map(log, 0, inputs, n).dom().contains(v) implies exists|k: int|
            0 <= k < n && (#[trigger] log[k]).reply->Variable_0.0 == v by {
            if v == log[n - 1].reply->Variable_0.0 {
            } else {
                assert(input_map(log, 0, inputs, n - 1).dom().contains(v));
            }
        }
    }
}

/// The whole search looks at the first frame first. A bad state there settles the question at once;
/// otherwise the search goes on from there, with all its rounds.
pub proof fn law_check(log: Seq<Event>, at: int, s: StateView, rounds: u64)
    ensures
        check_run(log, at, s, rounds) matches Some((r, s3, at3)) ==> (base_run(
            log,
            at,
            s,
        ) matches Some((safe, s2, at2)) && {
            &&& !safe ==> r == Ok::<Option<bool>, Fault>(Some(false)) && s3 == s2 && at3 == at2
            &&& safe ==> search_run(log, at2, s2, rounds) == Some((r, s3, at3))
        }),
{
}

/// The lemmas that a frame is made with: the first frame excludes the negation of each initial
/// literal, and the second the negation of each clause that is known to hold. Each is looked for
/// among the lemmas first, and belongs to no obligation.
pub proof fn law_given(log: Seq<Event>, at: int, s: StateView)
    requires
        0 <= at <= log.len(),
        extend_run(log, at, s) is Some,
    ensures
        ({
            let start = at + frame_calls(s).len();
            let init = log[start].reply->Cube_0;
            &&& s.solvers == 0 ==> asked(log, start, Call::Init) && forall|k: int|
                0 <= k < init.len() ==> #[trigger] asked(
                    log,
                    start + 1 + k,
                    Call::AddLemma {
                        frame: 0,
                        cube: seq![init[k].negation()],
                        contained_check: true,
                        owner: None,
                    },
                )
            &&& s.solvers == 1 ==> forall|k: int|
                0 <= k < s.pre_lemmas.len() ==> #[trigger] asked(
                    log,
                    start + k,
                    Call::AddLemma {
                        frame: 1,
                        cube: negated(s.pre_lemmas[k]),
                        contained_check: true,
                        owner: None,
                    },
                )
        }),
{
    reveal(extend_run);
    let start = at + frame_calls(s).len();
    lemma_asked_row(log, at, frame_calls(s));
    if s.solvers == 0 {
        let init = log[start].reply->Cube_0;
        let calls = lemma_calls(0, units(init));
        lemma_asked_row(log, start + 1, calls);
        assert forall|k: int| 0 <= k < init.len() implies #[trigger] asked(
            log,
            start + 1 + k,
            Call::AddLemma {
                frame: 0,
                cube: seq![init[k].negation()],
                contained_check: true,
                owner: None,
            },
        ) by {
            assert(log[start + 1 + k].call == calls[k]);
            assert(units(init)[k] == seq![init[k]]);
            assert(negated(units(init)[k]) =~= seq![init[k].negation()]);
        }
    } else if s.solvers == 1 {
        let calls = lemma_calls(1, s.pre_lemmas);
        lemma_asked_row(log, start, calls);
        assert forall|k: int| 0 <= k < s.pre_lemmas.len() implies #[trigger] asked(
            log,
            start + k,
            Call::AddLemma {
                frame: 1,
                cube: negated(s.pre_lemmas[k]),
                contained_check: true,
                owner: None,
            },
        ) by {
            assert(log[start + k].call == calls[k]);
        }
    }
}

/// The options that hold are those that were given, except that the engine does not look ahead of
/// the bad states where it works on internal signals.
pub proof fn law_effective(options: Options)
    ensures
        effective(options).ic3.no_pred_prop <==> options.ic3.no_pred_prop || options.ic3.inn,
        !options.ic3.inn ==> effective(options) == options,
        effective(options) == (Options {
            ic3: IC3Options {
                no_pred_prop: effective(options).ic3.no_pred_prop,
                ..options.ic3
            },
            ..options
        }),
{
}

} // verus!
