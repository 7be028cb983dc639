//! What generalization makes of true answers: cubes that may be excluded, and lemmas that keep
//! the invariant.

use vstd::prelude::*;

use crate::fault::Fault;
use crate::keeping::{
    backed, blockable, clear, excluded, lemma_backed_later, lemma_backed_more,
    lemma_blockable_before, lemma_blockable_later, lemma_blockable_pending, lemma_clear_less,
    lemma_pend, lemma_repend, lemma_settle, lemma_sound_add, lemma_sound_quiet, quiet, sound,
};
use crate::lit::{common, lemma_common, lemma_sorted, sorted, Lit};
use crate::meaning::{
    admitted, clauses_hold, holds, init_free, last_query, lemma_admitted, lemma_at, lemma_negated,
    lemma_same_members, lemma_within, query_of, same_members, true_core, true_event, truthful,
    within, Query, System,
};
use crate::mic::{
    ctg_loop, ctg_run, ctg_turn, domain_run, drop_end, drop_run, drop_turn, drop_var_loop,
    drop_var_run, excluding, keeps_run, learn_run, order_run, push_run, resumed, trivial_loop,
    trivial_run, CtgTurn, DropTurn, Order, Setting,
};
use crate::multi::{
    collect_run, exchanged, fixed_variants, identity, mic_run, multi_loop, multi_run, prepared_run,
    random_run, random_variants, reordered, shuffle_run, variant_run, variants_run, VariantView,
};
use crate::param::{DropVarParameter, MicType};
use crate::session::{asked, yes, Call, Event, Tally};
use crate::shrink::{descend_run, down_loop, down_run, shrink_run, step_run};

verus! {

/// Whether the constraints of a question hold in the states that are in no pending cube.
pub open spec fn covers(constraint: Seq<Seq<Lit>>, pend: Seq<(Seq<Lit>, int)>, frame: int) -> bool {
    forall|a: Set<u32>| #[trigger] clear(pend, frame, a) ==> clauses_hold(a, constraint)
}

/// Whether the invariant holds on the strength of some pending cubes.
pub open spec fn sound_somehow(sys: System, log: Seq<Event>, n: int) -> bool {
    exists|pend: Seq<(Seq<Lit>, int)>| #[trigger] sound(sys, log, n, pend)
}

/// Whether attempts to drop a literal may add lemmas by blocking predecessors.
pub open spec fn nests(parameter: DropVarParameter) -> bool {
    parameter.level > 0 && parameter.max > 0 && parameter.limit > 0
}

/// A core that follows a positive answer may be excluded, and is part of the cube in question.
pub proof fn lemma_core(
    sys: System,
    log: Seq<Event>,
    q: int,
    p: int,
    frame: usize,
    query: Query,
    pend: Seq<(Seq<Lit>, int)>,
)
    requires
        truthful(sys, log),
        0 <= q < p < log.len(),
        0 < frame,
        query_of(log[q].call, frame - 1) == Some(query),
        yes(log, q),
        last_query(log, p, frame - 1) == Some(q),
        log[p].call == (Call::InductiveCore { solver: (frame - 1) as usize }),
        init_free(sys, query.cube),
        covers(query.constraint, pend, frame as int),
    ensures
        blockable(sys, log, p, frame as int, log[p].reply->Cube_0, pend),
        within(log[p].reply->Cube_0, query.cube),
{
    let c = log[p].reply->Cube_0;
    assert(true_event(sys, log, p));
    assert(true_core(sys, log, p, frame - 1));
    assert forall|a: Set<u32>, b: Set<u32>|
        admitted(log, p, frame - 1, a) && !holds(a, c) && clear(pend, frame as int, a)
            && #[trigger] sys.walks(a, b) implies !holds(b, c) by {
        lemma_admitted(log, q, p, frame - 1, frame - 1, a);
        if holds(a, query.cube) {
            lemma_within(a, c, query.cube);
        }
    }
}

/// The same where the core is asked for directly after the question.
proof fn lemma_core_next(
    sys: System,
    log: Seq<Event>,
    q: int,
    frame: usize,
    query: Query,
    pend: Seq<(Seq<Lit>, int)>,
)
    requires
        truthful(sys, log),
        0 <= q,
        q + 1 < log.len(),
        0 < frame,
        query_of(log[q].call, frame - 1) == Some(query),
        yes(log, q),
        log[q + 1].call == (Call::InductiveCore { solver: (frame - 1) as usize }),
        init_free(sys, query.cube),
        covers(query.constraint, pend, frame as int),
    ensures
        blockable(sys, log, q + 2, frame as int, log[q + 1].reply->Cube_0, pend),
        within(log[q + 1].reply->Cube_0, query.cube),
{
    assert(last_query(log, q + 1, frame - 1) == Some(q));
    lemma_core(sys, log, q, q + 1, frame, query, pend);
    lemma_blockable_later(
        sys,
        log,
        q + 1,
        q + 2,
        frame as int,
        log[q + 1].reply->Cube_0,
        pend,
    );
}

/// No constraint holds everywhere.
proof fn lemma_covers_none(pend: Seq<(Seq<Lit>, int)>, frame: int)
    ensures
        covers(seq![], pend, frame),
{
}

/// What is kept of a cube is part of it, and nothing is added meanwhile.
proof fn lemma_shrink(
    log: Seq<Event>,
    at: int,
    solver: usize,
    keep: Set<u32>,
    cube: Seq<Lit>,
    k: int,
    kept: Seq<Lit>,
)
    requires
        0 <= at <= log.len(),
        0 <= k,
        shrink_run(log, at, solver, keep, cube, k, kept) is Some,
        within(kept, cube),
    ensures
        ({
            let (rest, _, at2) = shrink_run(log, at, solver, keep, cube, k, kept)->0;
            at <= at2 <= log.len() && quiet(log, at, at2) && within(rest, cube)
        }),
    decreases cube.len() - k,
{
    if k < cube.len() {
        assert(within(kept.push(cube[k]), cube)) by {
            assert forall|l: Lit| #[trigger] kept.push(cube[k]).contains(l) implies cube.contains(
                l,
            ) by {
                let i = kept.push(cube[k]).index_of(l);
                if i < kept.len() {
                    assert(kept.contains(kept[i]));
                }
            }
        }
        let holds = log[at].reply->Value_0 == Some(true);
        if keep.contains(cube[k].0) {
            if holds {
                lemma_shrink(log, at + 1, solver, keep, cube, k + 1, kept.push(cube[k]));
            }
        } else if holds {
            if yes(log, at + 1) {
                lemma_shrink(log, at + 2, solver, keep, cube, k + 1, kept);
            } else {
                lemma_shrink(log, at + 2, solver, keep, cube, k + 1, kept.push(cube[k]));
            }
        } else {
            lemma_shrink(log, at + 1, solver, keep, cube, k + 1, kept);
        }
    }
}

/// Nothing is added while a step is read off a model.
proof fn lemma_step(
    log: Seq<Event>,
    at: int,
    solver: usize,
    full: Seq<Lit>,
    k: int,
    before: Seq<Lit>,
    after: Seq<Lit>,
)
    requires
        0 <= at <= log.len(),
        step_run(log, at, solver, full, k, before, after) is Some,
    ensures
        ({
            let (_, _, at2) = step_run(log, at, solver, full, k, before, after)->0;
            at <= at2 <= log.len() && quiet(log, at, at2)
        }),
    decreases full.len() - k,
{
    if k < full.len() {
        let l = full[k];
        let (before2, at2) = match log[at].reply->Value_0 {
            Some(v) => (
                if yes(log, at + 1) {
                    before
                } else {
                    before.push(l.negation_if(!v))
                },
                at + 2,
            ),
            None => (before, at + 1),
        };
        let after2 = match log[at2 + 1].reply->Value_0 {
            Some(v) => after.push(l.negation_if(!v)),
            None => after,
        };
        lemma_step(log, at2 + 2, solver, full, k + 1, before2, after2);
    }
}

/// An attempt to shrink a cube that succeeds leaves a part of it that may be excluded.
proof fn lemma_down_loop(
    sys: System,
    log: Seq<Event>,
    at: int,
    frame: usize,
    cube: Seq<Lit>,
    keep: Set<u32>,
    full: Seq<Lit>,
    constraint: Seq<Seq<Lit>>,
    cex: Seq<(Seq<Lit>, Seq<Lit>)>,
    pend: Seq<(Seq<Lit>, int)>,
)
    requires
        truthful(sys, log),
        0 <= at <= log.len(),
        0 < frame,
        covers(constraint, pend, frame as int),
        down_loop(log, at, frame, cube, keep, full, constraint, cex) is Some,
    ensures
        ({
            let (r, _, at2) = down_loop(log, at, frame, cube, keep, full, constraint, cex)->0;
            &&& at <= at2 <= log.len()
            &&& quiet(log, at, at2)
            &&& r matches Ok(Some(c)) ==> within(c, cube) && blockable(
                sys,
                log,
                at2,
                frame as int,
                c,
                pend,
            )
        }),
    decreases log.len() - at,
{
    reveal(down_loop);
    let solver = (frame - 1) as usize;
    if !(yes(log, at) || crate::shrink::admits(cube, cex)) {
        if yes(log, at + 2) {
            assert(true_event(sys, log, at));
            lemma_core_next(
                sys,
                log,
                at + 2,
                frame,
                Query { cube, strengthen: true, constraint },
                pend,
            );
        } else {
            lemma_shrink(log, at + 3, solver, keep, cube, 0, seq![]);
            let (rest, lost, at2) = shrink_run(log, at + 3, solver, keep, cube, 0, seq![])->0;
            lemma_step(log, at2, solver, full, 0, seq![], seq![]);
            let (before, after, at3) = step_run(log, at2, solver, full, 0, seq![], seq![])->0;
            if !lost && rest.len() != cube.len() {
                lemma_down_loop(
                    sys,
                    log,
                    at3,
                    frame,
                    rest,
                    keep,
                    full,
                    constraint,
                    cex.push((before, after)),
                    pend,
                );
            }
        }
    }
}

/// The same for the whole of such an attempt.
proof fn lemma_down(
    sys: System,
    log: Seq<Event>,
    at: int,
    frame: usize,
    cube: Seq<Lit>,
    keep: Set<u32>,
    full: Seq<Lit>,
    constraint: Seq<Seq<Lit>>,
    pend: Seq<(Seq<Lit>, int)>,
)
    requires
        truthful(sys, log),
        0 <= at <= log.len(),
        0 < frame,
        covers(constraint, pend, frame as int),
        down_run(log, at, frame, cube, keep, full, constraint) is Some,
    ensures
        ({
            let (r, at2) = down_run(log, at, frame, cube, keep, full, constraint)->0;
            &&& at <= at2 <= log.len()
            &&& quiet(log, at, at2)
            &&& r matches Ok(Some(c)) ==> within(c, cube) && blockable(
                sys,
                log,
                at2,
                frame as int,
                c,
                pend,
            )
        }),
{
    reveal(down_run);
    reveal(descend_run);
    lemma_down_loop(sys, log, at + 1, frame, cube, keep, full, constraint, seq![], pend);
}

/// Nothing is added while a model is looked at.
pub proof fn lemma_keeps(
    log: Seq<Event>,
    at: int,
    solver: usize,
    keep: Set<u32>,
    cube: Seq<Lit>,
    k: int,
)
    requires
        0 <= at <= log.len(),
        keeps_run(log, at, solver, keep, cube, k) is Some,
    ensures
        ({
            let (_, at2) = keeps_run(log, at, solver, keep, cube, k)->0;
            at <= at2 <= log.len() && quiet(log, at, at2)
        }),
    decreases cube.len() - k,
{
    if k < cube.len() {
        if !keep.contains(cube[k].0) {
            lemma_keeps(log, at, solver, keep, cube, k + 1);
        } else if log[at].reply->Value_0 == Some(true) {
            lemma_keeps(log, at + 1, solver, keep, cube, k + 1);
        }
    }
}

/// Ordering keeps the literals of a cube.
pub proof fn lemma_order(
    sys: System,
    log: Seq<Event>,
    at: int,
    order: Order,
    frame: usize,
    cube: Seq<Lit>,
)
    requires
        truthful(sys, log),
        0 <= at <= log.len(),
        order_run(log, at, order, frame, cube) is Some,
    ensures
        ({
            let (tried, at2) = order_run(log, at, order, frame, cube)->0;
            at <= at2 <= log.len() && quiet(log, at, at2) && same_members(tried, cube)
        }),
{
    let (tried, at2) = order_run(log, at, order, frame, cube)->0;
    if order.hybrid || !order.topo {
        assert(true_event(sys, log, at));
    } else {
        lemma_sorted(cube);
        let s = sorted(cube);
        let r = s.reverse();
        assert forall|l: Lit| #[trigger] r.contains(l) <==> s.contains(l) by {
            if r.contains(l) {
                let i = r.index_of(l);
                assert(s[s.len() - 1 - i] == l);
            }
            if s.contains(l) {
                let i = s.index_of(l);
                assert(r[s.len() - 1 - i] == l);
            }
        }
    }
}

/// Pushing a cube that may be excluded from `frame` leaves a part of it that may be excluded from
/// the frame before the one that it did not reach.
pub proof fn lemma_push(
    sys: System,
    log: Seq<Event>,
    at: int,
    level: usize,
    i: int,
    cube: Seq<Lit>,
    pend: Seq<(Seq<Lit>, int)>,
)
    requires
        truthful(sys, log),
        0 <= at <= log.len(),
        1 < i <= level + 2,
        blockable(sys, log, at, i - 1, cube, pend),
        push_run(log, at, level, i, cube) is Some,
    ensures
        ({
            let (reached, d, at2) = push_run(log, at, level, i, cube)->0;
            &&& at <= at2 <= log.len()
            &&& quiet(log, at, at2)
            &&& i - 1 <= reached <= level + 1
            &&& within(d, cube)
            &&& blockable(sys, log, at2, reached - 1, d, pend)
        }),
    decreases level + 1 - i,
{
    let solver = (i - 1) as usize;
    if i > level {
        lemma_blockable_before(sys, log, at, level as int, i - 1, cube, pend);
    } else if !yes(log, at) {
        lemma_blockable_later(sys, log, at, at + 1, i - 1, cube, pend);
    } else {
        let query = Query { cube, strengthen: true, constraint: seq![] };
        lemma_covers_none(pend, i);
        lemma_core_next(sys, log, at, i as usize, query, pend);
        let core = log[at + 1].reply->Cube_0;
        lemma_push(sys, log, at + 2, level, i + 1, core, pend);
    }
}

/// Pushing a cube and adding it keeps the invariant, and settles that the cube is pending.
proof fn lemma_learn(
    sys: System,
    log: Seq<Event>,
    at: int,
    level: usize,
    frame: usize,
    cube: Seq<Lit>,
    pend: Seq<(Seq<Lit>, int)>,
)
    requires
        truthful(sys, log),
        0 <= at <= log.len(),
        0 < frame <= level + 1,
        level < usize::MAX,
        blockable(sys, log, at, frame as int, cube, pend),
        sound(sys, log, at, pend.push((cube, frame - 1))),
        learn_run(log, at, level, frame, cube) is Some,
    ensures
        ({
            let at2 = learn_run(log, at, level, frame, cube)->0;
            at <= at2 <= log.len() && sound(sys, log, at2, pend)
        }),
{
    lemma_push(sys, log, at, level, frame + 1, cube, pend);
    let (reached, d, at2) = push_run(log, at, level, frame + 1, cube)->0;
    lemma_conclude(sys, log, at, at2, frame, cube, reached, d, pend);
}

/// Adding a part of a pending cube that may be excluded keeps the invariant, and settles the
/// cube.
pub proof fn lemma_conclude(
    sys: System,
    log: Seq<Event>,
    at: int,
    at2: int,
    frame: usize,
    cube: Seq<Lit>,
    reached: int,
    d: Seq<Lit>,
    pend: Seq<(Seq<Lit>, int)>,
)
    requires
        0 <= at <= at2 < log.len(),
        0 < frame <= reached <= usize::MAX,
        quiet(log, at, at2),
        sound(sys, log, at, pend.push((cube, frame - 1))),
        within(d, cube),
        blockable(sys, log, at2, reached - 1, d, pend),
        lemma_at(log, at2) == Some(((reached - 1) as usize, d)),
    ensures
        sound(sys, log, at2 + 1, pend),
{
    let more = pend.push((cube, frame - 1));
    lemma_sound_quiet(sys, log, at, at2, more);
    assert forall|a: Set<u32>| #[trigger] clear(more, reached - 1, a) implies clear(
        pend,
        reached - 1,
        a,
    ) by {
        lemma_clear_less(pend, (cube, frame - 1), reached - 1, a);
    }
    lemma_blockable_pending(sys, log, at2, reached - 1, d, pend, more);
    lemma_sound_add(sys, log, at2, (reached - 1) as usize, d, more);
    lemma_settle(sys, log, at2 + 1, pend, cube, frame - 1, at2);
}

/// Constraints that hold where later frames are concerned hold for earlier ones.
proof fn lemma_covers_before(
    constraint: Seq<Seq<Lit>>,
    pend: Seq<(Seq<Lit>, int)>,
    i: int,
    j: int,
)
    requires
        i <= j,
        covers(constraint, pend, j),
    ensures
        covers(constraint, pend, i),
{
    assert forall|a: Set<u32>| #[trigger] clear(pend, i, a) implies clauses_hold(
        a,
        constraint,
    ) by {
        assert(clear(pend, j, a));
    }
}

/// One query of a search with blocked predecessors: where it ends with a core, that may be
/// excluded.
proof fn lemma_ctg_turn(
    sys: System,
    log: Seq<Event>,
    at: int,
    frame: usize,
    cube: Seq<Lit>,
    keep: Set<u32>,
    more: bool,
    pend: Seq<(Seq<Lit>, int)>,
)
    requires
        truthful(sys, log),
        0 <= at <= log.len(),
        0 < frame,
    ensures
        match ctg_turn(log, at, frame, cube, keep, more) {
            CtgTurn::Off => true,
            CtgTurn::Over(r, at2) => at <= at2 <= log.len() && quiet(log, at, at2) && (
            r matches Some(c) ==> within(c, cube) && blockable(
                sys,
                log,
                at2,
                frame as int,
                c,
                pend,
            )),
            CtgTurn::Shrink(_, at2) => at <= at2 <= log.len() && quiet(log, at, at2),
            CtgTurn::Block(_, at2) => at <= at2 <= log.len() && quiet(log, at, at2) && frame > 1
                && more,
        },
{
    let solver = (frame - 1) as usize;
    if asked(log, at, Call::CubeSubsumeInit { cube }) && !yes(log, at) && !(ctg_turn(
        log,
        at,
        frame,
        cube,
        keep,
        more,
    ) is Off) {
        assert(true_event(sys, log, at));
        if yes(log, at + 2) {
            lemma_covers_none(pend, frame as int);
            lemma_core_next(
                sys,
                log,
                at + 2,
                frame,
                Query { cube, strengthen: true, constraint: seq![] },
                pend,
            );
        } else {
            lemma_keeps(log, at + 3, solver, keep, cube, 0);
        }
    }
}

/// A search with blocked predecessors keeps the invariant, and where it succeeds leaves a part of
/// the cube that may be excluded.
proof fn lemma_ctg_loop(
    sys: System,
    log: Seq<Event>,
    at: int,
    setting: Setting,
    frame: usize,
    cube: Seq<Lit>,
    keep: Set<u32>,
    full: Seq<Lit>,
    parameter: DropVarParameter,
    ctg: int,
    pend: Seq<(Seq<Lit>, int)>,
)
    requires
        truthful(sys, log),
        0 <= at <= log.len(),
        0 < frame <= setting.level + 1,
        setting.level < usize::MAX,
        parameter.level > 0,
        0 <= ctg,
        sound(sys, log, at, pend),
        covers(excluding(full), pend, frame - 1),
        ctg_loop(log, at, setting, frame, cube, keep, full, parameter, ctg) is Some,
    ensures
        ({
            let (r, at2) = ctg_loop(
                log,
                at,
                setting,
                frame,
                cube,
                keep,
                full,
                parameter,
                ctg,
            )->0;
            &&& at <= at2 <= log.len()
            &&& !nests(parameter) ==> quiet(log, at, at2)
            &&& match r {
                Err(_) => sound_somehow(sys, log, at2),
                Ok(o) => sound(sys, log, at2, pend) && (o matches Some(c) ==> within(c, cube)
                    && blockable(sys, log, at2, frame as int, c, pend)),
            }
        }),
    decreases parameter.level, 0int, log.len() - at, 0int, 0int,
{
    let whole = ctg_loop(log, at, setting, frame, cube, keep, full, parameter, ctg);
    lemma_ctg_turn(sys, log, at, frame, cube, keep, ctg < parameter.max, pend);
    match ctg_turn(log, at, frame, cube, keep, ctg < parameter.max) {
        CtgTurn::Off => {
            assert(whole is None) by {
                reveal(ctg_loop);
            }
        },
        CtgTurn::Over(r, at2) => {
            assert(whole == Some((Ok::<Option<Seq<Lit>>, Fault>(r), at2))) by {
                reveal(ctg_loop);
            }
            lemma_sound_quiet(sys, log, at, at2, pend);
        },
        CtgTurn::Shrink(model, at2) => {
            let rest = common(cube, model);
            let rerun = ctg_loop(log, at2, setting, frame, rest, keep, full, parameter, 0);
            assert(if rest.len() == cube.len() {
                whole == Some((Err::<Option<Seq<Lit>>, Fault>(Fault::NoProgress), at2))
            } else {
                at < at2 && whole == rerun
            }) by {
                reveal(ctg_loop);
            }
            lemma_sound_quiet(sys, log, at, at2, pend);
            lemma_common(cube, model);
            if common(cube, model).len() != cube.len() {
                lemma_ctg_loop(
                    sys,
                    log,
                    at2,
                    setting,
                    frame,
                    common(cube, model),
                    keep,
                    full,
                    parameter,
                    0,
                    pend,
                );
            }
        },
        CtgTurn::Block(model, at2) => {
            let rest = common(cube, model);
            let inner = trivial_run(
                log,
                at2,
                setting,
                (frame - 1) as usize,
                sorted(model),
                excluding(full),
                parameter.limit,
                parameter.sub_level_spec(),
            );
            assert(inner is Some) by {
                reveal(ctg_loop);
                reveal(trivial_run);
            }
            let (tried, _, at4) = inner->0;
            assert(match tried {
                Err(f) => whole == Some((Err::<Option<Seq<Lit>>, Fault>(f), at4)),
                Ok(blocked) => if !blocked && rest.len() == cube.len() {
                    whole == Some((Err::<Option<Seq<Lit>>, Fault>(Fault::NoProgress), at4))
                } else {
                    at < at4 <= log.len() && whole == ctg_loop(
                        log,
                        at4,
                        setting,
                        frame,
                        if blocked {
                            cube
                        } else {
                            rest
                        },
                        keep,
                        full,
                        parameter,
                        if blocked {
                            ctg + 1
                        } else {
                            0
                        },
                    )
                },
            }) by {
                reveal(ctg_loop);
                reveal(trivial_run);
            }
            lemma_sound_quiet(sys, log, at, at2, pend);
            lemma_common(cube, model);
            lemma_trivial(
                sys,
                log,
                at2,
                setting,
                (frame - 1) as usize,
                sorted(model),
                excluding(full),
                parameter.limit,
                parameter.sub_level_spec(),
                pend,
            );
            let (r, _, at3) = trivial_run(
                log,
                at2,
                setting,
                (frame - 1) as usize,
                sorted(model),
                excluding(full),
                parameter.limit,
                parameter.sub_level_spec(),
            )->0;
            if let Ok(blocked) = r {
                if blocked || common(cube, model).len() != cube.len() {
                    lemma_ctg_loop(
                        sys,
                        log,
                        at3,
                        setting,
                        frame,
                        if blocked {
                            cube
                        } else {
                            common(cube, model)
                        },
                        keep,
                        full,
                        parameter,
                        if blocked {
                            ctg + 1
                        } else {
                            0
                        },
                        pend,
                    );
                }
            }
        },
    }
}

/// The same for the whole of such a search.
proof fn lemma_ctg(
    sys: System,
    log: Seq<Event>,
    at: int,
    setting: Setting,
    frame: usize,
    cube: Seq<Lit>,
    keep: Set<u32>,
    full: Seq<Lit>,
    parameter: DropVarParameter,
    pend: Seq<(Seq<Lit>, int)>,
)
    requires
        truthful(sys, log),
        0 <= at <= log.len(),
        0 < frame <= setting.level + 1,
        setting.level < usize::MAX,
        parameter.level > 0,
        sound(sys, log, at, pend),
        covers(excluding(full), pend, frame - 1),
        ctg_run(log, at, setting, frame, cube, keep, full, parameter) is Some,
    ensures
        ({
            let (r, at2) = ctg_run(log, at, setting, frame, cube, keep, full, parameter)->0;
            &&& at <= at2 <= log.len()
            &&& !nests(parameter) ==> quiet(log, at, at2)
            &&& match r {
                Err(_) => sound_somehow(sys, log, at2),
                Ok(o) => sound(sys, log, at2, pend) && (o matches Some(c) ==> within(c, cube)
                    && blockable(sys, log, at2, frame as int, c, pend)),
            }
        }),
    decreases parameter.level, 0int, log.len() - at, 1int, 0int,
{
    assert(asked(log, at, Call::Count { tally: Tally::Down }) && ctg_run(
        log,
        at,
        setting,
        frame,
        cube,
        keep,
        full,
        parameter,
    ) == ctg_loop(log, at + 1, setting, frame, cube, keep, full, parameter, 0)) by {
        reveal(ctg_run);
        reveal(ctg_loop);
    }
    lemma_sound_quiet(sys, log, at, at + 1, pend);
    lemma_ctg_loop(
        sys,
        log,
        at + 1,
        setting,
        frame,
        cube,
        keep,
        full,
        parameter,
        0,
        pend,
    );
}

/// Blocking a cube, if its predecessors can be, keeps the invariant.
proof fn lemma_trivial(
    sys: System,
    log: Seq<Event>,
    at: int,
    setting: Setting,
    frame: usize,
    lemma: Seq<Lit>,
    constraint: Seq<Seq<Lit>>,
    limit: usize,
    parameter: DropVarParameter,
    pend: Seq<(Seq<Lit>, int)>,
)
    requires
        truthful(sys, log),
        0 <= at <= log.len(),
        frame <= setting.level + 1,
        setting.level < usize::MAX,
        sound(sys, log, at, pend),
        covers(constraint, pend, frame as int),
        trivial_run(log, at, setting, frame, lemma, constraint, limit, parameter) is Some,
    ensures
        ({
            let (r, _, at2) = trivial_run(
                log,
                at,
                setting,
                frame,
                lemma,
                constraint,
                limit,
                parameter,
            )->0;
            &&& at <= at2 <= log.len()
            &&& limit == 0 ==> quiet(log, at, at2)
            &&& match r {
                Err(_) => sound_somehow(sys, log, at2),
                Ok(_) => sound(sys, log, at2, pend),
            }
        }),
    decreases parameter.level, 2int, log.len() - at, 1int, 0int,
{
    let whole = trivial_run(log, at, setting, frame, lemma, constraint, limit, parameter);
    if frame == 0 {
        assert(whole == Some((Ok::<bool, Fault>(false), limit, at))) by {
            reveal(trivial_run);
        }
    } else {
        assert(asked(log, at, Call::CubeSubsumeInit { cube: lemma }) && whole == if yes(log, at)
            || limit == 0 {
            Some((Ok::<bool, Fault>(false), limit, at + 1))
        } else {
            trivial_loop(
                log,
                at + 1,
                setting,
                frame,
                lemma,
                constraint,
                (limit - 1) as usize,
                parameter,
            )
        }) by {
            reveal(trivial_run);
            reveal(trivial_loop);
        }
        lemma_sound_quiet(sys, log, at, at + 1, pend);
        if !(yes(log, at) || limit == 0) {
            assert(true_event(sys, log, at));
            lemma_trivial_loop(
                sys,
                log,
                at + 1,
                setting,
                frame,
                lemma,
                constraint,
                (limit - 1) as usize,
                parameter,
                pend,
            );
        }
    }
}

/// The same for the attempts on one cube.
proof fn lemma_trivial_loop(
    sys: System,
    log: Seq<Event>,
    at: int,
    setting: Setting,
    frame: usize,
    lemma: Seq<Lit>,
    constraint: Seq<Seq<Lit>>,
    limit: usize,
    parameter: DropVarParameter,
    pend: Seq<(Seq<Lit>, int)>,
)
    requires
        truthful(sys, log),
        0 <= at <= log.len(),
        0 < frame <= setting.level + 1,
        setting.level < usize::MAX,
        init_free(sys, lemma),
        sound(sys, log, at, pend),
        covers(constraint, pend, frame as int),
        trivial_loop(log, at, setting, frame, lemma, constraint, limit, parameter) is Some,
    ensures
        ({
            let (r, _, at2) = trivial_loop(
                log,
                at,
                setting,
                frame,
                lemma,
                constraint,
                limit,
                parameter,
            )->0;
            &&& at <= at2 <= log.len()
            &&& match r {
                Err(_) => sound_somehow(sys, log, at2),
                Ok(_) => sound(sys, log, at2, pend),
            }
        }),
    decreases parameter.level, 2int, log.len() - at, 0int, 0int,
{
    let whole = trivial_loop(log, at, setting, frame, lemma, constraint, limit, parameter);
    assert(asked(
        log,
        at,
        Call::BlockedUnder { frame, cube: lemma, strengthen: true, constraint },
    )) by {
        reveal(trivial_loop);
    }
    lemma_sound_quiet(sys, log, at, at + 1, pend);
    if yes(log, at) {
        let dropped = drop_run(
            log,
            at + 2,
            setting,
            frame,
            log[at + 1].reply->Cube_0,
            constraint,
            parameter,
        );
        assert(asked(log, at + 1, Call::InductiveCore { solver: (frame - 1) as usize })
            && dropped is Some && match dropped->0 {
            (Err(f), at2) => whole == Some((Err::<bool, Fault>(f), limit, at2)),
            (Ok(mic), at2) => learn_run(log, at2, setting.level, frame, mic) is Some && whole
                == Some(
                (Ok::<bool, Fault>(true), limit, learn_run(log, at2, setting.level, frame, mic)->0),
            ),
        }) by {
            reveal(trivial_loop);
            reveal(drop_run);
        }
        lemma_sound_quiet(sys, log, at, at + 2, pend);
        let core = log[at + 1].reply->Cube_0;
        lemma_core_next(
            sys,
            log,
            at,
            frame,
            Query { cube: lemma, strengthen: true, constraint },
            pend,
        );
        lemma_drop(sys, log, at + 2, setting, frame, core, constraint, parameter, pend);
        let (r, at2) = drop_run(log, at + 2, setting, frame, core, constraint, parameter)->0;
        if let Ok(mic) = r {
            lemma_learn(sys, log, at2, setting.level, frame, mic, pend);
        }
    } else if limit == 0 {
        assert(whole == Some((Ok::<bool, Fault>(false), limit, at + 1))) by {
            reveal(trivial_loop);
        }
    } else {
        let inner = trivial_run(
            log,
            at + 2,
            setting,
            (frame - 1) as usize,
            sorted(log[at + 1].reply->Pred_0),
            constraint,
            limit,
            parameter,
        );
        assert(asked(log, at + 1, Call::GetPred { frame, strengthen: false }) && inner is Some
            && match inner->0 {
            (Err(f), limit2, at2) => whole == Some((Err::<bool, Fault>(f), limit2, at2)),
            (Ok(false), limit2, at2) => whole == Some((Ok::<bool, Fault>(false), limit2, at2)),
            (Ok(true), limit2, at2) => at < at2 <= log.len() && whole == trivial_loop(
                log,
                at2,
                setting,
                frame,
                lemma,
                constraint,
                limit2,
                parameter,
            ),
        }) by {
            reveal(trivial_loop);
            reveal(trivial_run);
        }
        lemma_sound_quiet(sys, log, at, at + 2, pend);
        lemma_covers_before(constraint, pend, frame - 1, frame as int);
        let model = sorted(log[at + 1].reply->Pred_0);
        lemma_trivial(
            sys,
            log,
            at + 2,
            setting,
            (frame - 1) as usize,
            model,
            constraint,
            limit,
            parameter,
            pend,
        );
        let (r, limit2, at2) = trivial_run(
            log,
            at + 2,
            setting,
            (frame - 1) as usize,
            model,
            constraint,
            limit,
            parameter,
        )->0;
        if r == Ok::<bool, Fault>(true) {
            lemma_trivial_loop(
                sys,
                log,
                at2,
                setting,
                frame,
                lemma,
                constraint,
                limit2,
                parameter,
                pend,
            );
        }
    }
}

/// Dropping literals keeps the invariant, with what is left of the cube pending, and leaves a part
/// of the cube that may be excluded. Without nested attempts nothing is added.
pub proof fn lemma_drop(
    sys: System,
    log: Seq<Event>,
    at: int,
    setting: Setting,
    frame: usize,
    cube: Seq<Lit>,
    constraint: Seq<Seq<Lit>>,
    parameter: DropVarParameter,
    pend: Seq<(Seq<Lit>, int)>,
)
    requires
        truthful(sys, log),
        0 <= at <= log.len(),
        0 < frame <= setting.level + 1,
        setting.level < usize::MAX,
        sound(sys, log, at, pend),
        blockable(sys, log, at, frame as int, cube, pend),
        covers(constraint, pend, frame as int),
        drop_run(log, at, setting, frame, cube, constraint, parameter) is Some,
    ensures
        ({
            let (r, at2) = drop_run(log, at, setting, frame, cube, constraint, parameter)->0;
            &&& at <= at2 <= log.len()
            &&& !nests(parameter) ==> quiet(log, at, at2)
            &&& match r {
                Err(_) => sound_somehow(sys, log, at2),
                Ok(c) => within(c, cube) && blockable(sys, log, at2, frame as int, c, pend)
                    && sound(sys, log, at2, pend.push((c, frame - 1))),
            }
        }),
    decreases parameter.level, 1int, log.len() - at, 2int, 0int,
{
    let solver = (frame - 1) as usize;
    let whole = drop_run(log, at, setting, frame, cube, constraint, parameter);
    if parameter.level > 0 {
        assert(whole == drop_var_run(
            log,
            at,
            setting,
            frame,
            cube,
            constraint,
            parameter,
            false,
        )) by {
            reveal(drop_run);
            reveal(drop_var_run);
        }
        lemma_drop_var(sys, log, at, setting, frame, cube, constraint, parameter, false, pend);
    } else {
        let at2 = domain_run(log, at + 1, solver, cube)->0;
        let inner = drop_var_run(log, at2, setting, frame, cube, constraint, parameter, false);
        assert(asked(log, at, Call::UnsetDomain { solver }) && domain_run(
            log,
            at + 1,
            solver,
            cube,
        ) is Some && inner is Some && match inner->0 {
            (Err(f), at3) => whole == Some((Err::<Seq<Lit>, Fault>(f), at3)),
            (Ok(c), at3) => asked(log, at3, Call::UnsetDomain { solver }) && whole == Some(
                (Ok::<Seq<Lit>, Fault>(c), at3 + 1),
            ),
        }) by {
            reveal(drop_run);
            reveal(drop_var_run);
        }
        lemma_sound_quiet(sys, log, at, at2, pend);
        lemma_blockable_later(sys, log, at, at2, frame as int, cube, pend);
        lemma_drop_var(sys, log, at2, setting, frame, cube, constraint, parameter, false, pend);
        let (r, at3) = drop_var_run(
            log,
            at2,
            setting,
            frame,
            cube,
            constraint,
            parameter,
            false,
        )->0;
        if let Ok(c) = r {
            lemma_sound_quiet(sys, log, at3, at3 + 1, pend.push((c, frame - 1)));
            lemma_blockable_later(sys, log, at3, at3 + 1, frame as int, c, pend);
        }
    }
}

/// The same after the solver was restricted.
pub proof fn lemma_drop_var(
    sys: System,
    log: Seq<Event>,
    at: int,
    setting: Setting,
    frame: usize,
    cube: Seq<Lit>,
    constraint: Seq<Seq<Lit>>,
    parameter: DropVarParameter,
    manage_domain: bool,
    pend: Seq<(Seq<Lit>, int)>,
)
    requires
        truthful(sys, log),
        0 <= at <= log.len(),
        0 < frame <= setting.level + 1,
        setting.level < usize::MAX,
        sound(sys, log, at, pend),
        blockable(sys, log, at, frame as int, cube, pend),
        covers(constraint, pend, frame as int),
        drop_var_run(
            log,
            at,
            setting,
            frame,
            cube,
            constraint,
            parameter,
            manage_domain,
        ) is Some,
    ensures
        ({
            let (r, at2) = drop_var_run(
                log,
                at,
                setting,
                frame,
                cube,
                constraint,
                parameter,
                manage_domain,
            )->0;
            &&& at <= at2 <= log.len()
            &&& !nests(parameter) ==> quiet(log, at, at2)
            &&& match r {
                Err(_) => sound_somehow(sys, log, at2),
                Ok(c) => within(c, cube) && blockable(sys, log, at2, frame as int, c, pend)
                    && sound(sys, log, at2, pend.push((c, frame - 1))),
            }
        }),
    decreases parameter.level, 1int, log.len() - at, 1int, 0int,
{
    let solver = (frame - 1) as usize;
    let manage = parameter.level == 0 && manage_domain;
    let at1 = if manage {
        at + 2
    } else {
        at
    };
    let ordered = order_run(log, at1 + 2, setting.order, frame, cube);
    let (ordered_cube, ordered_at) = ordered->0;
    assert((manage ==> domain_run(log, at, solver, cube) == Some(at1)) && asked(
        log,
        at1,
        Call::Count { tally: Tally::MicCubeLen(cube.len() as usize) },
    ) && asked(log, at1 + 1, Call::Count { tally: Tally::Mic }) && ordered is Some && drop_var_run(
        log,
        at,
        setting,
        frame,
        cube,
        constraint,
        parameter,
        manage_domain,
    ) == drop_var_loop(
        log,
        ordered_at,
        setting,
        frame,
        ordered_cube,
        constraint,
        parameter,
        manage,
        Set::empty(),
        0,
    )) by {
        reveal(drop_var_run);
        reveal(drop_var_loop);
    }
    lemma_order(sys, log, at1 + 2, setting.order, frame, cube);
    let (tried, at2) = order_run(log, at1 + 2, setting.order, frame, cube)->0;
    lemma_same_members(sys, tried, cube);
    assert(quiet(log, at, at2));
    lemma_sound_quiet(sys, log, at, at2, pend);
    lemma_blockable_later(sys, log, at, at2, frame as int, cube, pend);
    assert(blockable(sys, log, at2, frame as int, tried, pend));
    lemma_pend(sys, log, at2, pend, frame as int, tried);
    lemma_drop_var_loop(
        sys,
        log,
        at2,
        setting,
        frame,
        tried,
        constraint,
        parameter,
        manage,
        Set::empty(),
        0,
        pend,
    );
}

/// Where the log stands after the end of the search for literals to drop.
spec fn drop_end_at(at: int, manage: bool) -> int {
    if manage {
        at + 2
    } else {
        at + 1
    }
}

/// What is left of a cube that lost a literal is a part of it.
proof fn lemma_remove(cube: Seq<Lit>, i: int)
    requires
        0 <= i < cube.len(),
    ensures
        within(cube.remove(i), cube),
{
    assert forall|l: Lit| #[trigger] cube.remove(i).contains(l) implies cube.contains(l) by {
        let k = cube.remove(i).index_of(l);
        if k < i {
            assert(cube[k] == l);
        } else {
            assert(cube[k + 1] == l);
        }
    }
}

/// The same for the literals from one on.
#[verifier::rlimit(40)]
proof fn lemma_drop_var_loop(
    sys: System,
    log: Seq<Event>,
    at: int,
    setting: Setting,
    frame: usize,
    cube: Seq<Lit>,
    constraint: Seq<Seq<Lit>>,
    parameter: DropVarParameter,
    manage: bool,
    keep: Set<u32>,
    i: int,
    pend: Seq<(Seq<Lit>, int)>,
)
    requires
        truthful(sys, log),
        0 <= at <= log.len(),
        0 <= i,
        0 < frame <= setting.level + 1,
        setting.level < usize::MAX,
        sound(sys, log, at, pend.push((cube, frame - 1))),
        blockable(sys, log, at, frame as int, cube, pend),
        covers(constraint, pend, frame as int),
        drop_var_loop(
            log,
            at,
            setting,
            frame,
            cube,
            constraint,
            parameter,
            manage,
            keep,
            i,
        ) is Some,
    ensures
        ({
            let (r, at2) = drop_var_loop(
                log,
                at,
                setting,
                frame,
                cube,
                constraint,
                parameter,
                manage,
                keep,
                i,
            )->0;
            &&& at <= at2 <= log.len()
            &&& !nests(parameter) ==> quiet(log, at, at2)
            &&& match r {
                Err(_) => sound_somehow(sys, log, at2),
                Ok(c) => within(c, cube) && blockable(sys, log, at2, frame as int, c, pend)
                    && sound(sys, log, at2, pend.push((c, frame - 1))),
            }
        }),
    decreases parameter.level, 1int, log.len() - at, 0int, cube.len() - i,
{
    let whole = drop_var_loop(
        log,
        at,
        setting,
        frame,
        cube,
        constraint,
        parameter,
        manage,
        keep,
        i,
    );
    let solver = (frame - 1) as usize;
    let one = (cube, frame - 1);
    let more = pend.push(one);
    if i >= cube.len() {
        assert(whole == drop_end(log, at, solver, cube, manage)) by {
            reveal(drop_var_loop);
        }
        let at2 = drop_end_at(at, manage);
        lemma_sound_quiet(sys, log, at, at2, more);
        lemma_blockable_later(sys, log, at, at2, frame as int, cube, pend);
    } else if keep.contains(cube[i].0) {
        assert(whole == drop_var_loop(
            log,
            at,
            setting,
            frame,
            cube,
            constraint,
            parameter,
            manage,
            keep,
            i + 1,
        )) by {
            reveal(drop_var_loop);
        }
        lemma_drop_var_loop(
            sys,
            log,
            at,
            setting,
            frame,
            cube,
            constraint,
            parameter,
            manage,
            keep,
            i + 1,
            pend,
        );
    } else {
        lemma_remove(cube, i);
        let tried = if parameter.level == 0 {
            down_run(log, at, frame, cube.remove(i), keep, cube, constraint)
        } else {
            ctg_run(log, at, setting, frame, cube.remove(i), keep, cube, parameter)
        };
        assert(match drop_turn(log, solver, cube, manage, keep, i, tried) {
            DropTurn::Off => false,
            DropTurn::Failed(f, at2) => whole == Some((Err::<Seq<Lit>, Fault>(f), at2)),
            DropTurn::Next(rest, keep2, next, at2) => at < at2 <= log.len() && whole
                == drop_var_loop(
                log,
                at2,
                setting,
                frame,
                rest,
                constraint,
                parameter,
                manage,
                keep2,
                next,
            ),
        }) by {
            reveal(drop_var_loop);
            reveal(ctg_run);
        }
        let (r, at1) = tried->0;
        if parameter.level == 0 {
            lemma_down(
                sys,
                log,
                at,
                frame,
                cube.remove(i),
                keep,
                cube,
                constraint,
                pend,
            );
            lemma_sound_quiet(sys, log, at, at1, more);
        } else {
            assert(covers(excluding(cube), more, frame - 1)) by {
                assert forall|a: Set<u32>| #[trigger] clear(
                    more,
                    frame - 1,
                    a,
                ) implies clauses_hold(a, excluding(cube)) by {
                    lemma_clear_less(pend, one, frame - 1, a);
                    lemma_negated(a, cube);
                }
            }
            lemma_ctg(
                sys,
                log,
                at,
                setting,
                frame,
                cube.remove(i),
                keep,
                cube,
                parameter,
                more,
            );
            if let Ok(Some(c)) = r {
                assert forall|a: Set<u32>| #[trigger] clear(pend, frame as int, a) implies clear(
                    more,
                    frame as int,
                    a,
                ) by {
                    crate::keeping::lemma_clear_more(pend, one, frame as int, a);
                }
                lemma_blockable_pending(sys, log, at1, frame as int, c, more, pend);
            }
        }
        lemma_blockable_later(sys, log, at, at1, frame as int, cube, pend);
        match drop_turn(log, solver, cube, manage, keep, i, tried) {
            DropTurn::Off => {},
            DropTurn::Failed(f, at2) => {
                if at2 > at1 {
                    lemma_sound_quiet(sys, log, at1, at2, more);
                }
            },
            DropTurn::Next(rest, keep2, next, at2) => {
                lemma_sound_quiet(sys, log, at1, at2, more);
                lemma_blockable_later(sys, log, at1, at2, frame as int, cube, pend);
                if let Ok(Some(smaller)) = r {
                    lemma_common(cube, smaller);
                    assert(same_members(rest, smaller));
                    lemma_same_members(sys, rest, smaller);
                    assert(blockable(sys, log, at1, frame as int, rest, pend));
                    lemma_blockable_later(sys, log, at1, at2, frame as int, rest, pend);
                    lemma_repend(sys, log, at2, pend, frame as int, cube, rest);
                    crate::mic_laws::lemma_first_new_range(cube, i, smaller);
                }
                lemma_drop_var_loop(
                    sys,
                    log,
                    at2,
                    setting,
                    frame,
                    rest,
                    constraint,
                    parameter,
                    manage,
                    keep2,
                    next,
                    pend,
                );
            },
        }
    }
}

/// The search for literals to drop never goes on before the first.
proof fn lemma_first_new_range(cube: Seq<Lit>, i: int, smaller: Seq<Lit>)
    requires
        resumed(cube, i, smaller) is Ok,
    ensures
        0 <= resumed(cube, i, smaller)->Ok_0.1,
{
    lemma_first_new_from(common(cube, smaller), cube.take(i), 0);
}

/// The first new literal from one on does not come before it.
proof fn lemma_first_new_from(lits: Seq<Lit>, done: Seq<Lit>, k: int)
    ensures
        k <= crate::mic::first_new(lits, done, k),
    decreases lits.len() - k,
{
    if k < lits.len() && done.contains(lits[k]) {
        lemma_first_new_from(lits, done, k + 1);
    }
}

/// Whether the indices below `n` all occur among some indices, and no others.
pub open spec fn is_permutation(s: Seq<usize>, n: nat) -> bool {
    &&& s.len() == n
    &&& forall|i: int| 0 <= i < n ==> (#[trigger] s[i]) < n
    &&& forall|k: usize| k < n ==> #[trigger] s.contains(k)
}

/// Exchanging two places keeps a permutation one.
proof fn lemma_exchanged(s: Seq<usize>, n: nat, i: int, j: int)
    requires
        is_permutation(s, n),
        0 <= i < n,
        0 <= j < n,
    ensures
        is_permutation(exchanged(s, i, j), n),
{
    let t = exchanged(s, i, j);
    assert forall|k: usize| k < n implies #[trigger] t.contains(k) by {
        assert(s.contains(k));
        let p = s.index_of(k);
        if p == i {
            assert(t[j] == k);
        } else if p == j {
            assert(t[i] == k);
        } else {
            assert(t[p] == k);
        }
    }
}

/// Shuffling gives a permutation, whatever words are drawn.
pub proof fn lemma_shuffle(log: Seq<Event>, at: int, s: Seq<usize>, i: int, n: nat)
    requires
        0 <= at <= log.len(),
        0 <= i,
        is_permutation(s, n),
        shuffle_run(log, at, s, i) is Some,
    ensures
        ({
            let (t, at2) = shuffle_run(log, at, s, i)->0;
            at <= at2 <= log.len() && quiet(log, at, at2) && is_permutation(t, n)
        }),
    decreases s.len() - i,
{
    if i < s.len() {
        let j = log[at].reply->Word_0 as int % s.len() as int;
        lemma_exchanged(s, n, i, j);
        lemma_shuffle(log, at + 1, exchanged(s, i, j), i + 1, n);
    }
}

/// A cube in another order has the same literals.
proof fn lemma_reordered(cube: Seq<Lit>, s: Seq<usize>)
    requires
        is_permutation(s, cube.len()),
        cube.len() <= usize::MAX,
    ensures
        same_members(reordered(cube, s), cube),
{
    let t = reordered(cube, s);
    assert forall|l: Lit| #[trigger] t.contains(l) implies cube.contains(l) by {
        let i = t.index_of(l);
        assert(cube[s[i] as int] == l);
    }
    assert forall|l: Lit| #[trigger] cube.contains(l) implies t.contains(l) by {
        let k = cube.index_of(l);
        assert(s.contains(k as usize));
        let i = s.index_of(k as usize);
        assert(t[i] == l);
    }
}

/// The indices in order are a permutation.
proof fn lemma_identity(n: nat)
    requires
        n <= usize::MAX,
    ensures
        is_permutation(identity(n), n),
{
    assert forall|k: usize| k < n implies #[trigger] identity(n).contains(k) by {
        assert(identity(n)[k as int] == k);
    }
}

/// Whether each variant has the literals of the cube.
pub open spec fn all_variants(variants: Seq<VariantView>, cube: Seq<Lit>) -> bool {
    forall|i: int| 0 <= i < variants.len() ==> same_members((#[trigger] variants[i]).cube, cube)
}

/// Drawn variants have the literals of the cube.
proof fn lemma_random(
    log: Seq<Event>,
    at: int,
    cube: Seq<Lit>,
    n: int,
    variants: Seq<VariantView>,
)
    requires
        0 <= at <= log.len(),
        cube.len() <= usize::MAX,
        all_variants(variants, cube),
        random_run(log, at, cube, n, variants) is Some,
    ensures
        ({
            let (all, at2) = random_run(log, at, cube, n, variants)->0;
            at <= at2 <= log.len() && quiet(log, at, at2) && all_variants(all, cube) && all.len()
                >= variants.len()
        }),
    decreases n,
{
    if n > 0 {
        lemma_identity(cube.len());
        lemma_shuffle(log, at, identity(cube.len()), 0, cube.len());
        let (s, at2) = shuffle_run(log, at, identity(cube.len()), 0)->0;
        lemma_reordered(cube, s);
        let one = VariantView {
            cube: reordered(cube, s),
            hybrid: false,
            topo: log[at2].reply->Word_0 % 2 == 0,
            reverse: log[at2 + 1].reply->Word_0 % 2 == 0,
        };
        lemma_random(log, at2 + 2, cube, n - 1, variants.push(one));
    }
}

/// All variants of a cube have its literals, and there is at least one.
pub proof fn lemma_variants(
    log: Seq<Event>,
    at: int,
    cube: Seq<Lit>,
    order: Order,
    inn: bool,
    num_clauses: usize,
)
    requires
        0 <= at <= log.len(),
        cube.len() <= usize::MAX,
        variants_run(log, at, cube, order, inn, num_clauses) is Some,
    ensures
        ({
            let (all, at2) = variants_run(log, at, cube, order, inn, num_clauses)->0;
            &&& at <= at2 <= log.len()
            &&& quiet(log, at, at2)
            &&& all_variants(all, cube)
            &&& all.len() > 0
        }),
{
    let fixed = fixed_variants(cube, order, inn, num_clauses);
    assert(all_variants(fixed, cube));
    lemma_random(
        log,
        at,
        cube,
        if inn {
            0
        } else {
            random_variants(num_clauses, order.hybrid)
        },
        fixed,
    );
}

/// What more pending cubes allow.
proof fn lemma_more_pending(
    sys: System,
    log: Seq<Event>,
    n: int,
    frame: int,
    constraint: Seq<Seq<Lit>>,
    pend: Seq<(Seq<Lit>, int)>,
    one: (Seq<Lit>, int),
)
    ensures
        covers(constraint, pend, frame) ==> covers(constraint, pend.push(one), frame),
        forall|c: Seq<Lit>|
            blockable(sys, log, n, frame, c, pend) ==> #[trigger] blockable(
                sys,
                log,
                n,
                frame,
                c,
                pend.push(one),
            ),
{
    let more = pend.push(one);
    assert forall|a: Set<u32>| #[trigger] clear(more, frame, a) implies clear(pend, frame, a) by {
        lemma_clear_less(pend, one, frame, a);
    }
    assert forall|c: Seq<Lit>| blockable(sys, log, n, frame, c, pend) implies #[trigger] blockable(
        sys,
        log,
        n,
        frame,
        c,
        more,
    ) by {
        lemma_blockable_pending(sys, log, n, frame, c, pend, more);
    }
}

/// Whether each of some cubes is part of one, and may be excluded.
pub open spec fn all_blockable(
    sys: System,
    log: Seq<Event>,
    n: int,
    frame: int,
    cube: Seq<Lit>,
    clauses: Seq<Seq<Lit>>,
    pend: Seq<(Seq<Lit>, int)>,
) -> bool {
    forall|i: int|
        0 <= i < clauses.len() ==> within(#[trigger] clauses[i], cube) && blockable(
            sys,
            log,
            n,
            frame,
            clauses[i],
            pend,
        )
}

/// Generalizing one variant leaves a part of the cube that may be excluded.
proof fn lemma_variant(
    sys: System,
    log: Seq<Event>,
    at: int,
    setting: Setting,
    frame: usize,
    cube: Seq<Lit>,
    constraint: Seq<Seq<Lit>>,
    parameter: DropVarParameter,
    variant: VariantView,
    pend: Seq<(Seq<Lit>, int)>,
)
    requires
        truthful(sys, log),
        0 <= at <= log.len(),
        0 < frame <= setting.level + 1,
        setting.level < usize::MAX,
        sound(sys, log, at, pend),
        blockable(sys, log, at, frame as int, cube, pend),
        covers(constraint, pend, frame as int),
        same_members(variant.cube, cube),
        variant_run(
            log,
            at,
            setting,
            frame,
            constraint,
            parameter,
            variant,
        ) is Some,
    ensures
        ({
            let (r, at2) = variant_run(
                log,
                at,
                setting,
                frame,
                constraint,
                parameter,
                variant,
            )->0;
            &&& at <= at2 <= log.len()
            &&& !nests(parameter) ==> quiet(log, at, at2)
            &&& match r {
                Err(_) => sound_somehow(sys, log, at2),
                Ok(c) => within(c, cube) && blockable(sys, log, at2, frame as int, c, pend)
                    && sound(sys, log, at2, pend.push((c, frame - 1))),
            }
        }),
{
    let solver = (frame - 1) as usize;
    let (tried, order, at1) = prepared_run(log, at, setting.order, frame, variant)->0;
    if at1 == at + 1 {
        assert(true_event(sys, log, at));
    }
    assert(same_members(tried, cube));
    lemma_same_members(sys, tried, cube);
    let at2 = if parameter.level == 0 {
        at1 + 2
    } else {
        at1
    };
    assert(quiet(log, at, at2));
    lemma_sound_quiet(sys, log, at, at2, pend);
    lemma_blockable_later(sys, log, at, at2, frame as int, cube, pend);
    assert(blockable(sys, log, at2, frame as int, tried, pend));
    lemma_drop_var(
        sys,
        log,
        at2,
        Setting { order, level: setting.level },
        frame,
        tried,
        constraint,
        parameter,
        false,
        pend,
    );
}

/// Generalizing variants leaves cubes that may be excluded. What is returned is pending after
/// that; without nested attempts nothing is added.
proof fn lemma_multi_loop(
    sys: System,
    log: Seq<Event>,
    at: int,
    setting: Setting,
    frame: usize,
    cube: Seq<Lit>,
    constraint: Seq<Seq<Lit>>,
    parameter: DropVarParameter,
    num_clauses: usize,
    variants: Seq<VariantView>,
    k: int,
    clauses: Seq<Seq<Lit>>,
    pend: Seq<(Seq<Lit>, int)>,
) -> (pend2: Seq<(Seq<Lit>, int)>)
    requires
        truthful(sys, log),
        0 <= at <= log.len(),
        0 <= k,
        0 < frame <= setting.level + 1,
        setting.level < usize::MAX,
        sound(sys, log, at, pend),
        blockable(sys, log, at, frame as int, cube, pend),
        covers(constraint, pend, frame as int),
        all_variants(variants, cube),
        all_blockable(sys, log, at, frame as int, cube, clauses, pend),
        multi_loop(
            log,
            at,
            setting,
            frame,
            constraint,
            parameter,
            num_clauses,
            variants,
            k,
            clauses,
        ) is Some,
    ensures
        ({
            let (r, at2) = multi_loop(
                log,
                at,
                setting,
                frame,
                constraint,
                parameter,
                num_clauses,
                variants,
                k,
                clauses,
            )->0;
            &&& at <= at2 <= log.len()
            &&& !nests(parameter) ==> pend2 == pend
            &&& backed(sys, log, at, pend) ==> backed(sys, log, at2, pend2)
            &&& match r {
                Err(_) => sound_somehow(sys, log, at2),
                Ok(all) => sound(sys, log, at2, pend2) && all_blockable(
                    sys,
                    log,
                    at2,
                    frame as int,
                    cube,
                    all,
                    pend2,
                ) && blockable(sys, log, at2, frame as int, cube, pend2),
            }
        }),
    decreases variants.len() - k,
{
    let solver = (frame - 1) as usize;
    if k >= variants.len() || clauses.len() >= num_clauses {
        pend
    } else {
        lemma_variant(
            sys,
            log,
            at,
            setting,
            frame,
            cube,
            constraint,
            parameter,
            variants[k],
            pend,
        );
        let (r, at2) = variant_run(
            log,
            at,
            setting,
            frame,
            constraint,
            parameter,
            variants[k],
        )->0;
        match r {
            Err(_) => {
                if backed(sys, log, at, pend) {
                    lemma_backed_later(sys, log, at, at2, pend);
                }
                pend
            },
            Ok(c) => {
                let (clauses2, at3) = collect_run(
                    log,
                    at2,
                    solver,
                    parameter.level,
                    clauses,
                    c,
                )->0;
                let one = (c, frame - 1);
                let more = if nests(parameter) {
                    pend.push(one)
                } else {
                    pend
                };
                if !nests(parameter) {
                    lemma_sound_quiet(sys, log, at, at3, pend);
                } else {
                    lemma_sound_quiet(sys, log, at2, at3, more);
                }
                lemma_blockable_later(sys, log, at, at3, frame as int, cube, pend);
                lemma_blockable_later(sys, log, at2, at3, frame as int, c, pend);
                lemma_more_pending(sys, log, at3, frame as int, constraint, pend, one);
                assert(all_blockable(sys, log, at3, frame as int, cube, clauses2, more)) by {
                    assert forall|i: int| 0 <= i < clauses2.len() implies within(
                        #[trigger] clauses2[i],
                        cube,
                    ) && blockable(sys, log, at3, frame as int, clauses2[i], more) by {
                        if i < clauses.len() {
                            assert(clauses2[i] == clauses[i]);
                            lemma_blockable_later(
                                sys,
                                log,
                                at,
                                at3,
                                frame as int,
                                clauses[i],
                                pend,
                            );
                        }
                    }
                }
                if backed(sys, log, at, pend) {
                    lemma_backed_later(sys, log, at, at3, pend);
                    if nests(parameter) {
                        lemma_backed_more(sys, log, at3, pend, frame as int, c);
                    }
                }
                lemma_multi_loop(
                    sys,
                    log,
                    at3,
                    setting,
                    frame,
                    cube,
                    constraint,
                    parameter,
                    num_clauses,
                    variants,
                    k + 1,
                    clauses2,
                    more,
                )
            },
        }
    }
}

/// Whether a way to generalize can leave cubes pending that no lemma settles: several cubes are
/// derived with nested attempts, and only the first is made a lemma.
pub open spec fn leaves_pending(mic_type: MicType, inn: bool) -> bool {
    mic_type matches MicType::MultiClauses(p, n) && nests(p) && n > 1 && !inn
}

/// Generalizing a cube that may be excluded leaves a part of it that may be, and keeps the
/// invariant with that part pending, on the strength of the pending cubes that are returned.
pub proof fn lemma_mic(
    sys: System,
    log: Seq<Event>,
    at: int,
    setting: Setting,
    inn: bool,
    frame: usize,
    cube: Seq<Lit>,
    constraint: Seq<Seq<Lit>>,
    mic_type: MicType,
    pend: Seq<(Seq<Lit>, int)>,
) -> (pend2: Seq<(Seq<Lit>, int)>)
    requires
        truthful(sys, log),
        0 <= at <= log.len(),
        0 < frame <= setting.level + 1,
        setting.level < usize::MAX,
        cube.len() <= usize::MAX,
        sound(sys, log, at, pend),
        blockable(sys, log, at, frame as int, cube, pend),
        covers(constraint, pend, frame as int),
        mic_run(log, at, setting, inn, frame, cube, constraint, mic_type) is Some,
    ensures
        ({
            let (r, at2) = mic_run(log, at, setting, inn, frame, cube, constraint, mic_type)->0;
            &&& at <= at2 <= log.len()
            &&& !leaves_pending(mic_type, inn) ==> pend2 == pend
            &&& backed(sys, log, at, pend) ==> backed(sys, log, at2, pend2)
            &&& match r {
                Err(_) => sound_somehow(sys, log, at2),
                Ok(c) => within(c, cube) && blockable(sys, log, at2, frame as int, c, pend2)
                    && sound(sys, log, at2, pend2.push((c, frame - 1))),
            }
        }),
{
    let (_, at3) = mic_run(log, at, setting, inn, frame, cube, constraint, mic_type)->0;
    if backed(sys, log, at, pend) && at <= at3 {
        lemma_backed_later(sys, log, at, at3, pend);
    }
    match mic_type {
        MicType::NoMic => {
            lemma_pend(sys, log, at, pend, frame as int, cube);
            pend
        },
        MicType::DropVar(parameter) => {
            lemma_drop(sys, log, at, setting, frame, cube, constraint, parameter, pend);
            pend
        },
        MicType::MultiClauses(parameter, num_clauses) => if num_clauses <= 1 || inn {
            lemma_single(
                sys,
                log,
                at,
                setting,
                inn,
                frame,
                cube,
                constraint,
                parameter,
                num_clauses,
                pend,
            );
            pend
        } else {
            let pend2 = lemma_multi(
                sys,
                log,
                at,
                setting,
                inn,
                frame,
                cube,
                constraint,
                parameter,
                num_clauses,
                pend,
            );
            let (r, at2) = multi_run(
                log,
                at,
                setting,
                inn,
                frame,
                cube,
                constraint,
                parameter,
                num_clauses,
            )->0;
            if let Ok(clauses) = r {
                let c = if clauses.len() > 0 {
                    clauses[0]
                } else {
                    cube
                };
                lemma_pend(sys, log, at2, pend2, frame as int, c);
            }
            pend2
        },
    }
}

/// Generalizing a cube in several orders leaves parts of it that may be excluded, on the strength
/// of the pending cubes that are returned.
pub proof fn lemma_multi(
    sys: System,
    log: Seq<Event>,
    at: int,
    setting: Setting,
    inn: bool,
    frame: usize,
    cube: Seq<Lit>,
    constraint: Seq<Seq<Lit>>,
    parameter: DropVarParameter,
    num_clauses: usize,
    pend: Seq<(Seq<Lit>, int)>,
) -> (pend2: Seq<(Seq<Lit>, int)>)
    requires
        truthful(sys, log),
        0 <= at <= log.len(),
        0 < frame <= setting.level + 1,
        setting.level < usize::MAX,
        cube.len() <= usize::MAX,
        sound(sys, log, at, pend),
        blockable(sys, log, at, frame as int, cube, pend),
        covers(constraint, pend, frame as int),
        multi_run(
            log,
            at,
            setting,
            inn,
            frame,
            cube,
            constraint,
            parameter,
            num_clauses,
        ) is Some,
    ensures
        ({
            let (r, at2) = multi_run(
                log,
                at,
                setting,
                inn,
                frame,
                cube,
                constraint,
                parameter,
                num_clauses,
            )->0;
            &&& at <= at2 <= log.len()
            &&& !nests(parameter) ==> pend2 == pend
            &&& backed(sys, log, at, pend) ==> backed(sys, log, at2, pend2)
            &&& match r {
                Err(_) => sound_somehow(sys, log, at2),
                Ok(all) => sound(sys, log, at2, pend2) && all_blockable(
                    sys,
                    log,
                    at2,
                    frame as int,
                    cube,
                    all,
                    pend2,
                ) && blockable(sys, log, at2, frame as int, cube, pend2),
            }
        }),
{
    reveal(multi_run);
    let at1 = if parameter.level == 0 {
        at + 1
    } else {
        at
    };
    lemma_variants(log, at1 + 2, cube, setting.order, inn, num_clauses);
    let (variants, at2) = variants_run(
        log,
        at1 + 2,
        cube,
        setting.order,
        inn,
        num_clauses,
    )->0;
    assert(quiet(log, at, at2));
    lemma_sound_quiet(sys, log, at, at2, pend);
    lemma_blockable_later(sys, log, at, at2, frame as int, cube, pend);
    if backed(sys, log, at, pend) {
        lemma_backed_later(sys, log, at, at2, pend);
    }
    lemma_multi_loop(
        sys,
        log,
        at2,
        setting,
        frame,
        cube,
        constraint,
        parameter,
        num_clauses,
        variants,
        0,
        seq![],
        pend,
    )
}

/// Generalizing a cube in one order only, or in none, leaves a part of it that may be excluded, and
/// no other cube pending.
proof fn lemma_single(
    sys: System,
    log: Seq<Event>,
    at: int,
    setting: Setting,
    inn: bool,
    frame: usize,
    cube: Seq<Lit>,
    constraint: Seq<Seq<Lit>>,
    parameter: DropVarParameter,
    num_clauses: usize,
    pend: Seq<(Seq<Lit>, int)>,
)
    requires
        truthful(sys, log),
        0 <= at <= log.len(),
        0 < frame <= setting.level + 1,
        setting.level < usize::MAX,
        cube.len() <= usize::MAX,
        num_clauses <= 1 || inn,
        sound(sys, log, at, pend),
        blockable(sys, log, at, frame as int, cube, pend),
        covers(constraint, pend, frame as int),
        multi_run(
            log,
            at,
            setting,
            inn,
            frame,
            cube,
            constraint,
            parameter,
            num_clauses,
        ) is Some,
    ensures
        ({
            let (r, at2) = multi_run(
                log,
                at,
                setting,
                inn,
                frame,
                cube,
                constraint,
                parameter,
                num_clauses,
            )->0;
            &&& at <= at2 <= log.len()
            &&& match r {
                Err(_) => sound_somehow(sys, log, at2),
                Ok(clauses) => {
                    let c = if clauses.len() > 0 {
                        clauses[0]
                    } else {
                        cube
                    };
                    within(c, cube) && blockable(sys, log, at2, frame as int, c, pend) && sound(
                        sys,
                        log,
                        at2,
                        pend.push((c, frame - 1)),
                    )
                },
            }
        }),
{
    let solver = (frame - 1) as usize;
    let at1 = if parameter.level == 0 {
        at + 3
    } else {
        at + 2
    };
    let first = VariantView {
        cube,
        hybrid: false,
        topo: setting.order.topo,
        reverse: setting.order.reverse,
    };
    let none = Seq::<Seq<Lit>>::empty();
    let whole = multi_run(
        log,
        at,
        setting,
        inn,
        frame,
        cube,
        constraint,
        parameter,
        num_clauses,
    );
    assert(quiet(log, at, at1) && at1 <= log.len() && whole == multi_loop(
        log,
        at1,
        setting,
        frame,
        constraint,
        parameter,
        num_clauses,
        seq![first],
        0,
        none,
    )) by {
        reveal(multi_run);
        assert(fixed_variants(cube, setting.order, inn, num_clauses) == seq![first]);
        assert(none =~= seq![]);
    }
    lemma_sound_quiet(sys, log, at, at1, pend);
    lemma_blockable_later(sys, log, at, at1, frame as int, cube, pend);
    if num_clauses == 0 {
        lemma_pend(sys, log, at1, pend, frame as int, cube);
    } else {
        lemma_variant(
            sys,
            log,
            at1,
            setting,
            frame,
            cube,
            constraint,
            parameter,
            first,
            pend,
        );
        let (r, at2) = variant_run(
            log,
            at1,
            setting,
            frame,
            constraint,
            parameter,
            first,
        )->0;
        if let Ok(c) = r {
            let (clauses, at3) = collect_run(log, at2, solver, parameter.level, none, c)->0;
            assert(clauses == none.push(c));
            assert(multi_loop(
                log,
                at3,
                setting,
                frame,
                constraint,
                parameter,
                num_clauses,
                seq![first],
                1,
                clauses,
            ) == Some((Ok::<Seq<Seq<Lit>>, Fault>(clauses), at3)));
            lemma_sound_quiet(sys, log, at2, at3, pend.push((c, frame - 1)));
            lemma_blockable_later(sys, log, at2, at3, frame as int, c, pend);
        }
    }
}

} // verus!
