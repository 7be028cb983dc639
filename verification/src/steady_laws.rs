//! Generalization does not fail on true answers.

use vstd::prelude::*;

use crate::fault::Fault;
use crate::lit::{common, lemma_common, lemma_sorted, sorted, Lit};
use crate::lucid::{fits, lucid, lucid_event};
use crate::meaning::{
    admitted, holds, last_query, lit_holds, query_of, same_members, true_event, truthful,
    within, Query, System,
};
use crate::mic::{
    ctg_loop, ctg_run, ctg_turn, domain_run, drop_end, drop_run, drop_turn, drop_var_loop,
    drop_var_run, excluding, first_new, keeps_run, learn_run, order_run, push_run, resumed,
    trivial_loop, trivial_run, CtgTurn, DropTurn, Order, Setting,
};
use crate::mic_laws::{all_variants, lemma_order, lemma_variants};
use crate::multi::{
    collect_run, exchanged, fixed_variants, identity, mic_run, multi_loop, multi_run, prepared_run,
    random_run, random_variants, reordered, shuffle_run, variants_run, VariantView,
};
use crate::param::{DropVarParameter, MicType};
use crate::session::{asked, yes, Call, Event, Tally};
use crate::shrink::{admits, descend_run, down_loop, down_run, shrink_run, step_run};

verus! {

/// Whether a request queues an obligation, or adds a lemma for one.
pub open spec fn puts(call: Call) -> bool {
    match call {
        Call::AddObligation { .. } => true,
        Call::RequeueObligation { .. } => true,
        Call::AddLemma { owner, .. } => owner is Some,
        _ => false,
    }
}

/// Whether the log goes on from one event to another without any of that.
pub open spec fn ran(log: Seq<Event>, from: int, to: int) -> bool {
    &&& from <= to <= log.len()
    &&& forall|p: int| from <= p < to ==> !puts((#[trigger] log[p]).call)
}

/// What is common to a cube without repetitions and another has none.
proof fn lemma_common_distinct(lits: Seq<Lit>, other: Seq<Lit>)
    requires
        lits.no_duplicates(),
    ensures
        common(lits, other).no_duplicates(),
    decreases lits.len(),
{
    reveal(Seq::filter);
    if lits.len() > 0 {
        let rest = lits.drop_last();
        lemma_common_distinct(rest, other);
        lemma_common(rest, other);
        let c = common(rest, other);
        assert forall|i: int| 0 <= i < c.len() implies c[i] != lits.last() by {
            assert(c.contains(c[i]));
            let k = rest.index_of(c[i]);
            assert(lits[k] == c[i]);
        }
    }
}

/// A cube and a model that a state tells apart do not have all of the cube in common.
proof fn lemma_common_less(a: Set<u32>, cube: Seq<Lit>, model: Seq<Lit>)
    requires
        holds(a, model),
        !holds(a, cube),
    ensures
        common(cube, model).len() < cube.len(),
    decreases cube.len(),
{
    reveal(Seq::filter);
    lemma_common(cube, model);
    let l = choose|l: Lit| #[trigger] cube.contains(l) && !lit_holds(a, l);
    assert(!model.contains(l));
    if cube.last() != l {
        let rest = cube.drop_last();
        let k = cube.index_of(l);
        assert(rest[k] == l);
        assert(rest.contains(l));
        lemma_common_less(a, rest, model);
    } else {
        lemma_common(cube.drop_last(), model);
    }
}

/// Sorting makes no repetitions.
proof fn lemma_sorted_distinct(lits: Seq<Lit>)
    requires
        lits.no_duplicates(),
    ensures
        sorted(lits).no_duplicates(),
        sorted(lits).reverse().no_duplicates(),
{
    lemma_sorted(lits);
    lits.lemma_multiset_has_no_duplicates();
    sorted(lits).lemma_multiset_has_no_duplicates_conv();
}

/// What is left of a cube without repetitions that lost a literal does not have it, nor any twice.
proof fn lemma_removed(cube: Seq<Lit>, i: int)
    requires
        cube.no_duplicates(),
        0 <= i < cube.len(),
    ensures
        cube.remove(i).no_duplicates(),
        !cube.remove(i).contains(cube[i]),
        within(cube.remove(i), cube),
{
    let c = cube.remove(i);
    assert forall|k: int| 0 <= k < c.len() implies (#[trigger] c[k]) == cube[if k < i {
        k
    } else {
        k + 1
    }] by {}
    assert forall|l: Lit| #[trigger] c.contains(l) implies cube.contains(l) && l != cube[i] by {
        let k = c.index_of(l);
        assert(c[k] == l);
    }
}

/// What is kept of a cube: part of it, without repetitions, and less than all of it where no
/// literal to keep is lost.
proof fn lemma_shrink_steady(
    log: Seq<Event>,
    at: int,
    solver: usize,
    keep: Set<u32>,
    cube: Seq<Lit>,
    k: int,
    kept: Seq<Lit>,
    q: int,
    query: Query,
    a: Set<u32>,
)
    requires
        0 <= q < at <= log.len(),
        0 <= k <= cube.len(),
        cube.no_duplicates(),
        query.cube == cube,
        fits(log, q, solver as int, query, a),
        last_query(log, at, solver as int) == Some(q),
        kept.no_duplicates(),
        kept.len() <= k,
        within(kept, cube.take(k)),
        kept.len() == k ==> forall|i: int| 0 <= i < k ==> lit_holds(a, #[trigger] cube[i]),
        shrink_run(log, at, solver, keep, cube, k, kept) is Some,
    ensures
        ({
            let (rest, lost, at2) = shrink_run(log, at, solver, keep, cube, k, kept)->0;
            &&& ran(log, at, at2)
            &&& within(rest, cube)
            &&& rest.no_duplicates()
            &&& !lost ==> rest.len() < cube.len()
        }),
    decreases cube.len() - k,
{
    if k < cube.len() {
        let more = kept.push(cube[k]);
        assert(cube.contains(cube[k]));
        assert(last_query(log, at + 1, solver as int) == Some(q));
        assert(within(kept, cube.take(k + 1)) && within(more, cube.take(k + 1))) by {
            let t = cube.take(k);
            let u = cube.take(k + 1);
            assert forall|l: Lit| #[trigger] t.contains(l) implies u.contains(l) by {
                let i = t.index_of(l);
                assert(u[i] == l);
            }
            assert(u[k] == cube[k]);
            assert forall|l: Lit| #[trigger] more.contains(l) implies u.contains(l) by {
                let i = more.index_of(l);
                if i < kept.len() {
                    assert(kept.contains(kept[i]));
                } else {
                    assert(u.contains(u[k]));
                }
            }
        }
        assert(more.no_duplicates()) by {
            assert forall|i: int| 0 <= i < kept.len() implies kept[i] != cube[k] by {
                assert(kept.contains(kept[i]));
                let j = cube.take(k).index_of(kept[i]);
                assert(cube[j] == kept[i]);
            }
        }
        let holds = log[at].reply->Value_0 == Some(true);
        if keep.contains(cube[k].0) {
            if holds {
                lemma_shrink_steady(
                    log,
                    at + 1,
                    solver,
                    keep,
                    cube,
                    k + 1,
                    more,
                    q,
                    query,
                    a,
                );
            } else {
                lemma_take_within(kept, cube, k);
            }
        } else if holds {
            assert(last_query(log, at + 2, solver as int) == Some(q));
            if yes(log, at + 1) {
                lemma_shrink_steady(
                    log,
                    at + 2,
                    solver,
                    keep,
                    cube,
                    k + 1,
                    kept,
                    q,
                    query,
                    a,
                );
            } else {
                lemma_shrink_steady(
                    log,
                    at + 2,
                    solver,
                    keep,
                    cube,
                    k + 1,
                    more,
                    q,
                    query,
                    a,
                );
            }
        } else {
            lemma_shrink_steady(log, at + 1, solver, keep, cube, k + 1, kept, q, query, a);
        }
    } else {
        assert(cube.take(k) =~= cube);
        if kept.len() == k {
            assert forall|l: Lit| #[trigger] cube.contains(l) implies lit_holds(a, l) by {
                let i = cube.index_of(l);
                assert(lit_holds(a, cube[i]));
            }
            assert(false);
        }
    }
}

/// Part of the beginning of a cube is part of it.
proof fn lemma_take_within(c: Seq<Lit>, cube: Seq<Lit>, k: int)
    requires
        0 <= k <= cube.len(),
        within(c, cube.take(k)),
    ensures
        within(c, cube),
{
    assert forall|l: Lit| #[trigger] c.contains(l) implies cube.contains(l) by {
        let i = cube.take(k).index_of(l);
        assert(cube[i] == l);
    }
}

/// Reading a step off a model queues nothing.
proof fn lemma_step_steady(
    log: Seq<Event>,
    at: int,
    solver: usize,
    full: Seq<Lit>,
    k: int,
    before: Seq<Lit>,
    after: Seq<Lit>,
)
    requires
        at <= log.len(),
        step_run(log, at, solver, full, k, before, after) is Some,
    ensures
        ({
            let (_, _, at2) = step_run(log, at, solver, full, k, before, after)->0;
            ran(log, at, at2)
        }),
    decreases full.len() - k,
{
    if k < full.len() {
        let l = full[k];
        let (before2, at2) = match log[at].reply->Value_0 {
            Some(v) => (
                if yes(log, at + 1) {
                    before
                } else {
                    before.push(l.negation_if(!v))
                },
                at + 2,
            ),
            None => (before, at + 1),
        };
        let after2 = match log[at2 + 1].reply->Value_0 {
            Some(v) => after.push(l.negation_if(!v)),
            None => after,
        };
        lemma_step_steady(log, at2 + 2, solver, full, k + 1, before2, after2);
    }
}

/// A core that is asked for directly after a question that was answered positively is part of its
/// cube, without repetitions.
pub proof fn lemma_core_steady(
    sys: System,
    log: Seq<Event>,
    inn: bool,
    q: int,
    solver: int,
    query: Query,
)
    requires
        lucid(sys, log, inn),
        0 <= q,
        q + 1 < log.len(),
        query_of(log[q].call, solver) == Some(query),
        yes(log, q),
        log[q + 1].call matches Call::InductiveCore { solver: s } && s == solver,
    ensures
        within(log[q + 1].reply->Cube_0, query.cube),
        log[q + 1].reply->Cube_0.no_duplicates(),
{
    assert(last_query(log, q + 1, solver) == Some(q));
    assert(lucid_event(sys, log, q + 1, inn));
}

/// An attempt to shrink a cube does not fail, and leaves a part of it without repetitions.
proof fn lemma_down_loop_steady(
    sys: System,
    log: Seq<Event>,
    inn: bool,
    at: int,
    frame: usize,
    cube: Seq<Lit>,
    keep: Set<u32>,
    full: Seq<Lit>,
    constraint: Seq<Seq<Lit>>,
    cex: Seq<(Seq<Lit>, Seq<Lit>)>,
)
    requires
        lucid(sys, log, inn),
        0 <= at <= log.len(),
        0 < frame,
        cube.no_duplicates(),
        down_loop(log, at, frame, cube, keep, full, constraint, cex) is Some,
    ensures
        ({
            let (r, _, at2) = down_loop(log, at, frame, cube, keep, full, constraint, cex)->0;
            &&& ran(log, at, at2)
            &&& r is Ok
            &&& r matches Ok(Some(c)) ==> within(c, cube) && c.no_duplicates()
        }),
    decreases log.len() - at,
{
    reveal(down_loop);
    let solver = (frame - 1) as usize;
    if !(yes(log, at) || admits(cube, cex)) {
        let query = Query { cube, strengthen: true, constraint };
        assert(query_of(log[at + 2].call, solver as int) == Some(query));
        if yes(log, at + 2) {
            lemma_core_steady(sys, log, inn, at + 2, solver as int, query);
        } else {
            assert(lucid_event(sys, log, at + 2, inn));
            let a = choose|a: Set<u32>| #[trigger] fits(log, at + 2, solver as int, query, a);
            assert(last_query(log, at + 3, solver as int) == Some(at + 2));
            lemma_shrink_steady(
                log,
                at + 3,
                solver,
                keep,
                cube,
                0,
                seq![],
                at + 2,
                query,
                a,
            );
            let (rest, lost, at2) = shrink_run(log, at + 3, solver, keep, cube, 0, seq![])->0;
            lemma_step_steady(log, at2, solver, full, 0, seq![], seq![]);
            let (before, after, at3) = step_run(log, at2, solver, full, 0, seq![], seq![])->0;
            if !lost {
                lemma_down_loop_steady(
                    sys,
                    log,
                    inn,
                    at3,
                    frame,
                    rest,
                    keep,
                    full,
                    constraint,
                    cex.push((before, after)),
                );
            }
        }
    }
}

/// The same for the whole of such an attempt.
proof fn lemma_down_steady(
    sys: System,
    log: Seq<Event>,
    inn: bool,
    at: int,
    frame: usize,
    cube: Seq<Lit>,
    keep: Set<u32>,
    full: Seq<Lit>,
    constraint: Seq<Seq<Lit>>,
)
    requires
        lucid(sys, log, inn),
        0 <= at <= log.len(),
        0 < frame,
        cube.no_duplicates(),
        down_run(log, at, frame, cube, keep, full, constraint) is Some,
    ensures
        ({
            let (r, at2) = down_run(log, at, frame, cube, keep, full, constraint)->0;
            &&& ran(log, at, at2)
            &&& r is Ok
            &&& r matches Ok(Some(c)) ==> within(c, cube) && c.no_duplicates()
        }),
{
    reveal(down_run);
    reveal(descend_run);
    lemma_down_loop_steady(
        sys,
        log,
        inn,
        at + 1,
        frame,
        cube,
        keep,
        full,
        constraint,
        seq![],
    );
}

/// Looking whether a model keeps literals queues nothing, and asks no question.
proof fn lemma_keeps_steady(
    log: Seq<Event>,
    at: int,
    solver: usize,
    keep: Set<u32>,
    cube: Seq<Lit>,
    k: int,
)
    requires
        0 <= at <= log.len(),
        keeps_run(log, at, solver, keep, cube, k) is Some,
    ensures
        ({
            let (_, at2) = keeps_run(log, at, solver, keep, cube, k)->0;
            ran(log, at, at2) && last_query(log, at2, solver as int) == last_query(
                log,
                at,
                solver as int,
            )
        }),
    decreases cube.len() - k,
{
    if k < cube.len() {
        if !keep.contains(cube[k].0) {
            lemma_keeps_steady(log, at, solver, keep, cube, k + 1);
        } else {
            assert(last_query(log, at + 1, solver as int) == last_query(log, at, solver as int));
            if log[at].reply->Value_0 == Some(true) {
                lemma_keeps_steady(log, at + 1, solver, keep, cube, k + 1);
            }
        }
    }
}

/// One query of a search with blocked predecessors: a core is part of the cube, and a predecessor
/// does not have all of it.
proof fn lemma_ctg_turn_steady(
    sys: System,
    log: Seq<Event>,
    inn: bool,
    at: int,
    frame: usize,
    cube: Seq<Lit>,
    keep: Set<u32>,
    more: bool,
)
    requires
        lucid(sys, log, inn),
        0 <= at <= log.len(),
        0 < frame,
    ensures
        match ctg_turn(log, at, frame, cube, keep, more) {
            CtgTurn::Off => true,
            CtgTurn::Over(r, at2) => ran(log, at, at2) && (r matches Some(c) ==> within(c, cube)
                && c.no_duplicates()),
            CtgTurn::Shrink(model, at2) => ran(log, at, at2) && common(cube, model).len()
                < cube.len(),
            CtgTurn::Block(model, at2) => ran(log, at, at2) && frame > 1 && common(
                cube,
                model,
            ).len() < cube.len(),
        },
{
    let solver = (frame - 1) as usize;
    if asked(log, at, Call::CubeSubsumeInit { cube }) && !yes(log, at) && !(ctg_turn(
        log,
        at,
        frame,
        cube,
        keep,
        more,
    ) is Off) {
        let query = Query { cube, strengthen: true, constraint: seq![] };
        assert(query_of(log[at + 2].call, solver as int) == Some(query));
        if yes(log, at + 2) {
            lemma_core_steady(sys, log, inn, at + 2, solver as int, query);
        } else {
            assert(last_query(log, at + 3, solver as int) == Some(at + 2));
            lemma_keeps_steady(log, at + 3, solver, keep, cube, 0);
            let (kept, at2) = keeps_run(log, at + 3, solver, keep, cube, 0)->0;
            if kept {
                let model = log[at2].reply->Pred_0;
                assert(lucid_event(sys, log, at2, inn));
                let a = choose|a: Set<u32>| #[trigger]
                    admitted(log, at + 2, solver as int, a) && holds(a, model)
                        && !holds(a, cube);
                lemma_common_less(a, cube, model);
            }
        }
    }
}

/// Pushing a cube queues nothing, and leaves a part of it.
pub proof fn lemma_push_steady(
    sys: System,
    log: Seq<Event>,
    inn: bool,
    at: int,
    level: usize,
    i: int,
    cube: Seq<Lit>,
)
    requires
        lucid(sys, log, inn),
        0 < i,
        0 <= at <= log.len(),
        push_run(log, at, level, i, cube) is Some,
    ensures
        ({
            let (reached, pushed, at2) = push_run(log, at, level, i, cube)->0;
            &&& ran(log, at, at2)
            &&& within(pushed, cube)
            &&& reached <= level + 1
            &&& i <= level + 2 ==> i - 1 <= reached
        }),
    decreases level + 1 - i,
{
    if i <= level && yes(log, at) {
        let query = Query { cube, strengthen: true, constraint: seq![] };
        assert(query_of(log[at].call, i - 1) == Some(query));
        lemma_core_steady(sys, log, inn, at, i - 1, query);
        lemma_push_steady(sys, log, inn, at + 2, level, i + 1, log[at + 1].reply->Cube_0);
    }
}

/// Putting a cube in order makes no repetitions, and loses nothing.
proof fn lemma_order_steady(
    sys: System,
    log: Seq<Event>,
    inn: bool,
    at: int,
    order: Order,
    frame: usize,
    cube: Seq<Lit>,
)
    requires
        truthful(sys, log),
        lucid(sys, log, inn),
        0 <= at <= log.len(),
        cube.no_duplicates(),
        order_run(log, at, order, frame, cube) is Some,
    ensures
        ({
            let (tried, at2) = order_run(log, at, order, frame, cube)->0;
            ran(log, at, at2) && tried.no_duplicates() && same_members(tried, cube)
        }),
{
    lemma_order(sys, log, at, order, frame, cube);
    if order.hybrid || !order.topo {
        assert(lucid_event(sys, log, at, inn));
    } else {
        lemma_sorted_distinct(cube);
    }
}

/// A core that lacks the literal that was left out lets the search for literals to drop go on.
proof fn lemma_resumed_steady(cube: Seq<Lit>, i: int, smaller: Seq<Lit>)
    requires
        0 <= i < cube.len(),
        cube.no_duplicates(),
        !smaller.contains(cube[i]),
    ensures
        resumed(cube, i, smaller) matches Ok((_, next)) && 0 <= next,
{
    let rest = common(cube, smaller);
    let next = first_new(rest, cube.take(i), 0);
    lemma_common(cube, smaller);
    lemma_first_new_steady(rest, cube.take(i), 0);
    if next < rest.len() && cube.take(i + 1).contains(rest[next]) {
        let k = cube.take(i + 1).index_of(rest[next]);
        assert(rest.contains(rest[next]));
        if k < i {
            assert(cube.take(i)[k] == rest[next]);
        } else {
            assert(cube[i] == rest[next]);
        }
    }
}

/// The first new literal is one.
proof fn lemma_first_new_steady(lits: Seq<Lit>, done: Seq<Lit>, k: int)
    requires
        0 <= k,
    ensures
        k <= first_new(lits, done, k),
        first_new(lits, done, k) < lits.len() ==> !done.contains(lits[first_new(lits, done, k)]),
    decreases lits.len() - k,
{
    if k < lits.len() && done.contains(lits[k]) {
        lemma_first_new_steady(lits, done, k + 1);
    }
}

/// A search with blocked predecessors does not fail, and leaves a part of the cube without
/// repetitions.
proof fn lemma_ctg_loop_steady(
    sys: System,
    log: Seq<Event>,
    inn: bool,
    at: int,
    setting: Setting,
    frame: usize,
    cube: Seq<Lit>,
    keep: Set<u32>,
    full: Seq<Lit>,
    parameter: DropVarParameter,
    ctg: int,
)
    requires
        truthful(sys, log),
        lucid(sys, log, inn),
        0 <= at <= log.len(),
        0 < frame,
        parameter.level > 0,
        0 <= ctg,
        cube.no_duplicates(),
        ctg_loop(log, at, setting, frame, cube, keep, full, parameter, ctg) is Some,
    ensures
        ({
            let (r, at2) = ctg_loop(
                log,
                at,
                setting,
                frame,
                cube,
                keep,
                full,
                parameter,
                ctg,
            )->0;
            &&& ran(log, at, at2)
            &&& r is Ok
            &&& r matches Ok(Some(c)) ==> within(c, cube) && c.no_duplicates()
        }),
    decreases parameter.level, 0int, log.len() - at, 0int, 0int,
{
    let whole = ctg_loop(log, at, setting, frame, cube, keep, full, parameter, ctg);
    lemma_ctg_turn_steady(sys, log, inn, at, frame, cube, keep, ctg < parameter.max);
    match ctg_turn(log, at, frame, cube, keep, ctg < parameter.max) {
        CtgTurn::Off => {
            assert(whole is None) by {
                reveal(ctg_loop);
            }
        },
        CtgTurn::Over(r, at2) => {
            assert(whole == Some((Ok::<Option<Seq<Lit>>, Fault>(r), at2))) by {
                reveal(ctg_loop);
            }
        },
        CtgTurn::Shrink(model, at2) => {
            let rest = common(cube, model);
            let rerun = ctg_loop(log, at2, setting, frame, rest, keep, full, parameter, 0);
            assert(if rest.len() == cube.len() {
                whole == Some((Err::<Option<Seq<Lit>>, Fault>(Fault::NoProgress), at2))
            } else {
                at < at2 && whole == rerun
            }) by {
                reveal(ctg_loop);
            }
            lemma_common(cube, model);
            lemma_common_distinct(cube, model);
            if common(cube, model).len() != cube.len() {
                lemma_ctg_loop_steady(
                    sys,
                    log,
                    inn,
                    at2,
                    setting,
                    frame,
                    common(cube, model),
                    keep,
                    full,
                    parameter,
                    0,
                );
            }
        },
        CtgTurn::Block(model, at2) => {
            let rest = common(cube, model);
            let inner = trivial_run(
                log,
                at2,
                setting,
                (frame - 1) as usize,
                sorted(model),
                excluding(full),
                parameter.limit,
                parameter.sub_level_spec(),
            );
            assert(inner is Some) by {
                reveal(ctg_loop);
                reveal(trivial_run);
            }
            let (tried, _, at4) = inner->0;
            assert(match tried {
                Err(f) => whole == Some((Err::<Option<Seq<Lit>>, Fault>(f), at4)),
                Ok(blocked) => if !blocked && rest.len() == cube.len() {
                    whole == Some((Err::<Option<Seq<Lit>>, Fault>(Fault::NoProgress), at4))
                } else {
                    at < at4 <= log.len() && whole == ctg_loop(
                        log,
                        at4,
                        setting,
                        frame,
                        if blocked {
                            cube
                        } else {
                            rest
                        },
                        keep,
                        full,
                        parameter,
                        if blocked {
                            ctg + 1
                        } else {
                            0
                        },
                    )
                },
            }) by {
                reveal(ctg_loop);
                reveal(trivial_run);
            }
            lemma_common(cube, model);
            lemma_common_distinct(cube, model);
            lemma_trivial_steady(
                sys,
                log,
                inn,
                at2,
                setting,
                (frame - 1) as usize,
                sorted(model),
                excluding(full),
                parameter.limit,
                parameter.sub_level_spec(),
            );
            let (r, _, at3) = trivial_run(
                log,
                at2,
                setting,
                (frame - 1) as usize,
                sorted(model),
                excluding(full),
                parameter.limit,
                parameter.sub_level_spec(),
            )->0;
            if let Ok(blocked) = r {
                if blocked || common(cube, model).len() != cube.len() {
                    lemma_ctg_loop_steady(
                        sys,
                        log,
                        inn,
                        at3,
                        setting,
                        frame,
                        if blocked {
                            cube
                        } else {
                            common(cube, model)
                        },
                        keep,
                        full,
                        parameter,
                        if blocked {
                            ctg + 1
                        } else {
                            0
                        },
                    );
                }
            }
        },
    }
}

/// The same for the whole of such a search.
proof fn lemma_ctg_steady(
    sys: System,
    log: Seq<Event>,
    inn: bool,
    at: int,
    setting: Setting,
    frame: usize,
    cube: Seq<Lit>,
    keep: Set<u32>,
    full: Seq<Lit>,
    parameter: DropVarParameter,
)
    requires
        truthful(sys, log),
        lucid(sys, log, inn),
        0 <= at <= log.len(),
        0 < frame,
        parameter.level > 0,
        cube.no_duplicates(),
        ctg_run(log, at, setting, frame, cube, keep, full, parameter) is Some,
    ensures
        ({
            let (r, at2) = ctg_run(log, at, setting, frame, cube, keep, full, parameter)->0;
            &&& ran(log, at, at2)
            &&& r is Ok
            &&& r matches Ok(Some(c)) ==> within(c, cube) && c.no_duplicates()
        }),
    decreases parameter.level, 0int, log.len() - at, 1int, 0int,
{
    assert(asked(log, at, Call::Count { tally: Tally::Down }) && ctg_run(
        log,
        at,
        setting,
        frame,
        cube,
        keep,
        full,
        parameter,
    ) == ctg_loop(log, at + 1, setting, frame, cube, keep, full, parameter, 0)) by {
        reveal(ctg_run);
        reveal(ctg_loop);
    }
    lemma_ctg_loop_steady(
        sys,
        log,
        inn,
        at + 1,
        setting,
        frame,
        cube,
        keep,
        full,
        parameter,
        0,
    );
}

/// Blocking a cube, if its predecessors can be, does not fail.
proof fn lemma_trivial_steady(
    sys: System,
    log: Seq<Event>,
    inn: bool,
    at: int,
    setting: Setting,
    frame: usize,
    lemma: Seq<Lit>,
    constraint: Seq<Seq<Lit>>,
    limit: usize,
    parameter: DropVarParameter,
)
    requires
        truthful(sys, log),
        lucid(sys, log, inn),
        0 <= at <= log.len(),
        trivial_run(log, at, setting, frame, lemma, constraint, limit, parameter) is Some,
    ensures
        ({
            let (r, _, at2) = trivial_run(
                log,
                at,
                setting,
                frame,
                lemma,
                constraint,
                limit,
                parameter,
            )->0;
            &&& ran(log, at, at2)
            &&& r is Ok
        }),
    decreases parameter.level, 2int, log.len() - at, 1int, 0int,
{
    let whole = trivial_run(log, at, setting, frame, lemma, constraint, limit, parameter);
    if frame == 0 {
        assert(whole == Some((Ok::<bool, Fault>(false), limit, at))) by {
            reveal(trivial_run);
        }
    } else {
        assert(asked(log, at, Call::CubeSubsumeInit { cube: lemma }) && whole == if yes(log, at)
            || limit == 0 {
            Some((Ok::<bool, Fault>(false), limit, at + 1))
        } else {
            trivial_loop(
                log,
                at + 1,
                setting,
                frame,
                lemma,
                constraint,
                (limit - 1) as usize,
                parameter,
            )
        }) by {
            reveal(trivial_run);
            reveal(trivial_loop);
        }
        if !(yes(log, at) || limit == 0) {
            lemma_trivial_loop_steady(
                sys,
                log,
                inn,
                at + 1,
                setting,
                frame,
                lemma,
                constraint,
                (limit - 1) as usize,
                parameter,
            );
        }
    }
}

/// The same for the attempts on one cube.
proof fn lemma_trivial_loop_steady(
    sys: System,
    log: Seq<Event>,
    inn: bool,
    at: int,
    setting: Setting,
    frame: usize,
    lemma: Seq<Lit>,
    constraint: Seq<Seq<Lit>>,
    limit: usize,
    parameter: DropVarParameter,
)
    requires
        truthful(sys, log),
        lucid(sys, log, inn),
        0 <= at <= log.len(),
        0 < frame,
        trivial_loop(log, at, setting, frame, lemma, constraint, limit, parameter) is Some,
    ensures
        ({
            let (r, _, at2) = trivial_loop(
                log,
                at,
                setting,
                frame,
                lemma,
                constraint,
                limit,
                parameter,
            )->0;
            &&& ran(log, at, at2)
            &&& r is Ok
        }),
    decreases parameter.level, 2int, log.len() - at, 0int, 0int,
{
    let whole = trivial_loop(log, at, setting, frame, lemma, constraint, limit, parameter);
    assert(asked(
        log,
        at,
        Call::BlockedUnder { frame, cube: lemma, strengthen: true, constraint },
    )) by {
        reveal(trivial_loop);
    }
    if yes(log, at) {
        let dropped = drop_run(
            log,
            at + 2,
            setting,
            frame,
            log[at + 1].reply->Cube_0,
            constraint,
            parameter,
        );
        assert(asked(log, at + 1, Call::InductiveCore { solver: (frame - 1) as usize })
            && dropped is Some && match dropped->0 {
            (Err(f), at2) => whole == Some((Err::<bool, Fault>(f), limit, at2)),
            (Ok(mic), at2) => learn_run(log, at2, setting.level, frame, mic) is Some && whole
                == Some(
                (Ok::<bool, Fault>(true), limit, learn_run(log, at2, setting.level, frame, mic)->0),
            ),
        }) by {
            reveal(trivial_loop);
            reveal(drop_run);
        }
        let core = log[at + 1].reply->Cube_0;
        let query = Query { cube: lemma, strengthen: true, constraint };
        assert(query_of(log[at].call, frame - 1) == Some(query));
        lemma_core_steady(sys, log, inn, at, frame - 1, query);
        lemma_drop_steady(sys, log, inn, at + 2, setting, frame, core, constraint, parameter);
        let (r, at2) = drop_run(log, at + 2, setting, frame, core, constraint, parameter)->0;
        if let Ok(mic) = r {
            lemma_push_steady(sys, log, inn, at2, setting.level, frame + 1, mic);
        }
    } else if limit == 0 {
        assert(whole == Some((Ok::<bool, Fault>(false), limit, at + 1))) by {
            reveal(trivial_loop);
        }
    } else {
        let inner = trivial_run(
            log,
            at + 2,
            setting,
            (frame - 1) as usize,
            sorted(log[at + 1].reply->Pred_0),
            constraint,
            limit,
            parameter,
        );
        assert(asked(log, at + 1, Call::GetPred { frame, strengthen: false }) && inner is Some
            && match inner->0 {
            (Err(f), limit2, at2) => whole == Some((Err::<bool, Fault>(f), limit2, at2)),
            (Ok(false), limit2, at2) => whole == Some((Ok::<bool, Fault>(false), limit2, at2)),
            (Ok(true), limit2, at2) => at < at2 <= log.len() && whole == trivial_loop(
                log,
                at2,
                setting,
                frame,
                lemma,
                constraint,
                limit2,
                parameter,
            ),
        }) by {
            reveal(trivial_loop);
            reveal(trivial_run);
        }
        let model = sorted(log[at + 1].reply->Pred_0);
        lemma_trivial_steady(
            sys,
            log,
            inn,
            at + 2,
            setting,
            (frame - 1) as usize,
            model,
            constraint,
            limit,
            parameter,
        );
        let (r, limit2, at2) = trivial_run(
            log,
            at + 2,
            setting,
            (frame - 1) as usize,
            model,
            constraint,
            limit,
            parameter,
        )->0;
        if r == Ok::<bool, Fault>(true) {
            lemma_trivial_loop_steady(
                sys,
                log,
                inn,
                at2,
                setting,
                frame,
                lemma,
                constraint,
                limit2,
                parameter,
            );
        }
    }
}

/// Dropping literals does not fail, and leaves a part of the cube without repetitions.
proof fn lemma_drop_steady(
    sys: System,
    log: Seq<Event>,
    inn: bool,
    at: int,
    setting: Setting,
    frame: usize,
    cube: Seq<Lit>,
    constraint: Seq<Seq<Lit>>,
    parameter: DropVarParameter,
)
    requires
        truthful(sys, log),
        lucid(sys, log, inn),
        0 <= at <= log.len(),
        0 < frame,
        cube.no_duplicates(),
        drop_run(log, at, setting, frame, cube, constraint, parameter) is Some,
    ensures
        ({
            let (r, at2) = drop_run(log, at, setting, frame, cube, constraint, parameter)->0;
            &&& ran(log, at, at2)
            &&& r matches Ok(c) && within(c, cube) && c.no_duplicates()
        }),
    decreases parameter.level, 1int, log.len() - at, 2int, 0int,
{
    let solver = (frame - 1) as usize;
    let whole = drop_run(log, at, setting, frame, cube, constraint, parameter);
    if parameter.level > 0 {
        assert(whole == drop_var_run(
            log,
            at,
            setting,
            frame,
            cube,
            constraint,
            parameter,
            false,
        )) by {
            reveal(drop_run);
            reveal(drop_var_run);
        }
        lemma_drop_var_steady(sys, log, inn, at, setting, frame, cube, constraint, parameter, false);
    } else {
        let at2 = domain_run(log, at + 1, solver, cube)->0;
        let inner = drop_var_run(log, at2, setting, frame, cube, constraint, parameter, false);
        assert(asked(log, at, Call::UnsetDomain { solver }) && domain_run(
            log,
            at + 1,
            solver,
            cube,
        ) is Some && inner is Some && match inner->0 {
            (Err(f), at3) => whole == Some((Err::<Seq<Lit>, Fault>(f), at3)),
            (Ok(c), at3) => asked(log, at3, Call::UnsetDomain { solver }) && whole == Some(
                (Ok::<Seq<Lit>, Fault>(c), at3 + 1),
            ),
        }) by {
            reveal(drop_run);
            reveal(drop_var_run);
        }
        lemma_drop_var_steady(sys, log, inn, at2, setting, frame, cube, constraint, parameter, false);
        let (r, at3) = drop_var_run(
            log,
            at2,
            setting,
            frame,
            cube,
            constraint,
            parameter,
            false,
        )->0;
    }
}

/// The same after the solver was restricted.
proof fn lemma_drop_var_steady(
    sys: System,
    log: Seq<Event>,
    inn: bool,
    at: int,
    setting: Setting,
    frame: usize,
    cube: Seq<Lit>,
    constraint: Seq<Seq<Lit>>,
    parameter: DropVarParameter,
    manage_domain: bool,
)
    requires
        truthful(sys, log),
        lucid(sys, log, inn),
        0 <= at <= log.len(),
        0 < frame,
        cube.no_duplicates(),
        drop_var_run(
            log,
            at,
            setting,
            frame,
            cube,
            constraint,
            parameter,
            manage_domain,
        ) is Some,
    ensures
        ({
            let (r, at2) = drop_var_run(
                log,
                at,
                setting,
                frame,
                cube,
                constraint,
                parameter,
                manage_domain,
            )->0;
            &&& ran(log, at, at2)
            &&& r matches Ok(c) && within(c, cube) && c.no_duplicates()
        }),
    decreases parameter.level, 1int, log.len() - at, 1int, 0int,
{
    let solver = (frame - 1) as usize;
    let manage = parameter.level == 0 && manage_domain;
    let at1 = if manage {
        at + 2
    } else {
        at
    };
    let ordered = order_run(log, at1 + 2, setting.order, frame, cube);
    let (ordered_cube, ordered_at) = ordered->0;
    assert((manage ==> domain_run(log, at, solver, cube) == Some(at1)) && asked(
        log,
        at1,
        Call::Count { tally: Tally::MicCubeLen(cube.len() as usize) },
    ) && asked(log, at1 + 1, Call::Count { tally: Tally::Mic }) && ordered is Some && drop_var_run(
        log,
        at,
        setting,
        frame,
        cube,
        constraint,
        parameter,
        manage_domain,
    ) == drop_var_loop(
        log,
        ordered_at,
        setting,
        frame,
        ordered_cube,
        constraint,
        parameter,
        manage,
        Set::empty(),
        0,
    )) by {
        reveal(drop_var_run);
        reveal(drop_var_loop);
    }
    lemma_order_steady(sys, log, inn, at1 + 2, setting.order, frame, cube);
    let (tried, at2) = order_run(log, at1 + 2, setting.order, frame, cube)->0;
    assert(ran(log, at, at2));
    lemma_drop_var_loop_steady(
        sys,
        log,
        inn,
        at2,
        setting,
        frame,
        tried,
        constraint,
        parameter,
        manage,
        Set::empty(),
        0,
    );
}

/// The same for the literals from one on.
#[verifier::rlimit(40)]
proof fn lemma_drop_var_loop_steady(
    sys: System,
    log: Seq<Event>,
    inn: bool,
    at: int,
    setting: Setting,
    frame: usize,
    cube: Seq<Lit>,
    constraint: Seq<Seq<Lit>>,
    parameter: DropVarParameter,
    manage: bool,
    keep: Set<u32>,
    i: int,
)
    requires
        truthful(sys, log),
        lucid(sys, log, inn),
        0 <= at <= log.len(),
        0 <= i,
        0 < frame,
        cube.no_duplicates(),
        drop_var_loop(
            log,
            at,
            setting,
            frame,
            cube,
            constraint,
            parameter,
            manage,
            keep,
            i,
        ) is Some,
    ensures
        ({
            let (r, at2) = drop_var_loop(
                log,
                at,
                setting,
                frame,
                cube,
                constraint,
                parameter,
                manage,
                keep,
                i,
            )->0;
            &&& ran(log, at, at2)
            &&& r matches Ok(c) && within(c, cube) && c.no_duplicates()
        }),
    decreases parameter.level, 1int, log.len() - at, 0int, cube.len() - i,
{
    let whole = drop_var_loop(
        log,
        at,
        setting,
        frame,
        cube,
        constraint,
        parameter,
        manage,
        keep,
        i,
    );
    let solver = (frame - 1) as usize;
    if i >= cube.len() {
        assert(whole == drop_end(log, at, solver, cube, manage)) by {
            reveal(drop_var_loop);
        }
    } else if keep.contains(cube[i].0) {
        assert(whole == drop_var_loop(
            log,
            at,
            setting,
            frame,
            cube,
            constraint,
            parameter,
            manage,
            keep,
            i + 1,
        )) by {
            reveal(drop_var_loop);
        }
        lemma_drop_var_loop_steady(
            sys,
            log,
            inn,
            at,
            setting,
            frame,
            cube,
            constraint,
            parameter,
            manage,
            keep,
            i + 1,
        );
    } else {
        lemma_removed(cube, i);
        let tried = if parameter.level == 0 {
            down_run(log, at, frame, cube.remove(i), keep, cube, constraint)
        } else {
            ctg_run(log, at, setting, frame, cube.remove(i), keep, cube, parameter)
        };
        assert(match drop_turn(log, solver, cube, manage, keep, i, tried) {
            DropTurn::Off => false,
            DropTurn::Failed(f, at2) => whole == Some((Err::<Seq<Lit>, Fault>(f), at2)),
            DropTurn::Next(rest, keep2, next, at2) => at < at2 <= log.len() && whole
                == drop_var_loop(
                log,
                at2,
                setting,
                frame,
                rest,
                constraint,
                parameter,
                manage,
                keep2,
                next,
            ),
        }) by {
            reveal(drop_var_loop);
            reveal(ctg_run);
        }
        let (r, at1) = tried->0;
        if parameter.level == 0 {
            lemma_down_steady(
                sys,
                log,
                inn,
                at,
                frame,
                cube.remove(i),
                keep,
                cube,
                constraint,
            );
        } else {
            lemma_ctg_steady(
                sys,
                log,
                inn,
                at,
                setting,
                frame,
                cube.remove(i),
                keep,
                cube,
                parameter,
            );
        }
        if let Ok(Some(smaller)) = r {
            lemma_resumed_steady(cube, i, smaller);
        }
        match drop_turn(log, solver, cube, manage, keep, i, tried) {
            DropTurn::Off => {},
            DropTurn::Failed(f, at2) => {},
            DropTurn::Next(rest, keep2, next, at2) => {
                if let Ok(Some(smaller)) = r {
                    lemma_common(cube, smaller);
                    lemma_common_distinct(cube, smaller);
                }
                lemma_drop_var_loop_steady(
                    sys,
                    log,
                    inn,
                    at2,
                    setting,
                    frame,
                    rest,
                    constraint,
                    parameter,
                    manage,
                    keep2,
                    next,
                );
            },
        }
    }
}

/// Whether each variant is a cube without repetitions.
spec fn all_distinct(variants: Seq<VariantView>) -> bool {
    forall|i: int| 0 <= i < variants.len() ==> (#[trigger] variants[i]).cube.no_duplicates()
}

/// Whether indices below `n` are all different.
spec fn indices(s: Seq<usize>, n: nat) -> bool {
    s.len() == n && s.no_duplicates() && forall|i: int| 0 <= i < n ==> (#[trigger] s[i]) < n
}

/// Shuffling keeps indices different, and queues nothing.
proof fn lemma_shuffle_steady(log: Seq<Event>, at: int, s: Seq<usize>, i: int, n: nat)
    requires
        0 <= at <= log.len(),
        0 <= i,
        indices(s, n),
        shuffle_run(log, at, s, i) is Some,
    ensures
        ({
            let (t, at2) = shuffle_run(log, at, s, i)->0;
            ran(log, at, at2) && indices(t, n)
        }),
    decreases s.len() - i,
{
    if i < s.len() {
        let j = log[at].reply->Word_0 as int % s.len() as int;
        lemma_shuffle_steady(log, at + 1, exchanged(s, i, j), i + 1, n);
    }
}

/// Drawn variants have no repetitions.
proof fn lemma_random_steady(
    log: Seq<Event>,
    at: int,
    cube: Seq<Lit>,
    n: int,
    variants: Seq<VariantView>,
)
    requires
        0 <= at <= log.len(),
        cube.len() <= usize::MAX,
        cube.no_duplicates(),
        all_distinct(variants),
        random_run(log, at, cube, n, variants) is Some,
    ensures
        ({
            let (all, at2) = random_run(log, at, cube, n, variants)->0;
            ran(log, at, at2) && all_distinct(all)
        }),
    decreases n,
{
    if n > 0 {
        let first = identity(cube.len());
        assert(indices(first, cube.len())) by {
            assert forall|i: int, j: int|
                0 <= i < first.len() && 0 <= j < first.len() && i != j implies first[i]
                != first[j] by {
                assert(first[i] == i && first[j] == j);
            }
        }
        lemma_shuffle_steady(log, at, first, 0, cube.len());
        let (s, at2) = shuffle_run(log, at, first, 0)->0;
        let mixed = reordered(cube, s);
        assert(mixed.no_duplicates()) by {
            assert forall|i: int, j: int|
                0 <= i < mixed.len() && 0 <= j < mixed.len() && i != j implies mixed[i]
                != mixed[j] by {
                assert(s[i] != s[j]);
            }
        }
        let one = VariantView {
            cube: mixed,
            hybrid: false,
            topo: log[at2].reply->Word_0 % 2 == 0,
            reverse: log[at2 + 1].reply->Word_0 % 2 == 0,
        };
        lemma_random_steady(log, at2 + 2, cube, n - 1, variants.push(one));
    }
}

/// Whether each of some cubes is a part of one, without repetitions.
spec fn all_parts(clauses: Seq<Seq<Lit>>, cube: Seq<Lit>) -> bool {
    forall|i: int|
        0 <= i < clauses.len() ==> within(#[trigger] clauses[i], cube)
            && clauses[i].no_duplicates()
}

/// Generalizing variants does not fail.
proof fn lemma_multi_loop_steady(
    sys: System,
    log: Seq<Event>,
    inn: bool,
    at: int,
    setting: Setting,
    frame: usize,
    cube: Seq<Lit>,
    constraint: Seq<Seq<Lit>>,
    parameter: DropVarParameter,
    num_clauses: usize,
    variants: Seq<VariantView>,
    k: int,
    clauses: Seq<Seq<Lit>>,
)
    requires
        truthful(sys, log),
        lucid(sys, log, inn),
        0 <= at <= log.len(),
        0 <= k,
        0 < frame,
        all_variants(variants, cube),
        all_distinct(variants),
        all_parts(clauses, cube),
        multi_loop(
            log,
            at,
            setting,
            frame,
            constraint,
            parameter,
            num_clauses,
            variants,
            k,
            clauses,
        ) is Some,
    ensures
        ({
            let (r, at2) = multi_loop(
                log,
                at,
                setting,
                frame,
                constraint,
                parameter,
                num_clauses,
                variants,
                k,
                clauses,
            )->0;
            ran(log, at, at2) && (r matches Ok(all) && all_parts(all, cube))
        }),
    decreases variants.len() - k,
{
    let solver = (frame - 1) as usize;
    if k < variants.len() && clauses.len() < num_clauses {
        let variant = variants[k];
        let (tried, order, at1) = prepared_run(log, at, setting.order, frame, variant)->0;
        if variant.hybrid {
            assert(lucid_event(sys, log, at, inn));
            assert(true_event(sys, log, at));
        }
        assert(tried.no_duplicates() && within(tried, cube));
        let at2 = if parameter.level == 0 {
            at1 + 2
        } else {
            at1
        };
        assert(ran(log, at, at2));
        let inner = Setting { order, level: setting.level };
        lemma_drop_var_steady(
            sys,
            log,
            inn,
            at2,
            inner,
            frame,
            tried,
            constraint,
            parameter,
            false,
        );
        let (r, at3) = drop_var_run(
            log,
            at2,
            inner,
            frame,
            tried,
            constraint,
            parameter,
            false,
        )->0;
        let c = r->Ok_0;
        assert(within(c, cube));
        let (clauses2, at4) = collect_run(log, at3, solver, parameter.level, clauses, c)->0;
        assert(all_parts(clauses2, cube)) by {
            assert forall|i: int| 0 <= i < clauses2.len() implies within(
                #[trigger] clauses2[i],
                cube,
            ) && clauses2[i].no_duplicates() by {
                if i < clauses.len() {
                    assert(clauses2[i] == clauses[i]);
                }
            }
        }
        lemma_multi_loop_steady(
            sys,
            log,
            inn,
            at4,
            setting,
            frame,
            cube,
            constraint,
            parameter,
            num_clauses,
            variants,
            k + 1,
            clauses2,
        );
    }
}

/// Generalizing a cube without repetitions does not fail on true answers, and leaves a part of it
/// without repetitions.
pub proof fn lemma_mic_steady(
    sys: System,
    log: Seq<Event>,
    inn: bool,
    at: int,
    setting: Setting,
    frame: usize,
    cube: Seq<Lit>,
    constraint: Seq<Seq<Lit>>,
    mic_type: MicType,
)
    requires
        truthful(sys, log),
        lucid(sys, log, inn),
        0 <= at <= log.len(),
        0 < frame,
        cube.no_duplicates(),
        cube.len() <= usize::MAX,
        mic_run(log, at, setting, inn, frame, cube, constraint, mic_type) is Some,
    ensures
        ({
            let (r, at2) = mic_run(log, at, setting, inn, frame, cube, constraint, mic_type)->0;
            ran(log, at, at2) && (r matches Ok(c) && within(c, cube) && c.no_duplicates())
        }),
{
    match mic_type {
        MicType::NoMic => {},
        MicType::DropVar(parameter) => {
            lemma_drop_steady(sys, log, inn, at, setting, frame, cube, constraint, parameter);
        },
        MicType::MultiClauses(parameter, num_clauses) => {
            reveal(multi_run);
            let at1 = if parameter.level == 0 {
                at + 1
            } else {
                at
            };
            let fixed = fixed_variants(cube, setting.order, inn, num_clauses);
            lemma_variants(log, at1 + 2, cube, setting.order, inn, num_clauses);
            assert(all_distinct(fixed));
            lemma_random_steady(
                log,
                at1 + 2,
                cube,
                if inn {
                    0
                } else {
                    random_variants(num_clauses, setting.order.hybrid)
                },
                fixed,
            );
            let (variants, at2) = variants_run(
                log,
                at1 + 2,
                cube,
                setting.order,
                inn,
                num_clauses,
            )->0;
            lemma_multi_loop_steady(
                sys,
                log,
                inn,
                at2,
                setting,
                frame,
                cube,
                constraint,
                parameter,
                num_clauses,
                variants,
                0,
                seq![],
            );
        },
    }
}

} // verus!
