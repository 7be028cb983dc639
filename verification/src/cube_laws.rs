//! What generalization keeps whatever the solvers answer: the cubes that come out are parts of the
//! one that went in, and differ from each other. And what the orders, the pushing and the shrinking
//! of cubes have a part in.

use vstd::prelude::*;

use crate::fault::Fault;
use crate::keeping::quiet;
use crate::lit::{common, lemma_common, lemma_sorted, sorted, Lit};
use crate::meaning::{same_members, within};
use crate::mic::{
    ctg_loop, ctg_run, ctg_turn, drop_end, drop_run, drop_turn, drop_var_loop, drop_var_run,
    keeps_run, order_run, push_run, CtgTurn, DropTurn, Order, Setting,
};
use crate::mic_laws::{all_variants, lemma_keeps, lemma_variants};
use crate::multi::{
    collect_run, fixed_variants, mic_multi_run, mic_run, multi_loop, multi_run, prepared_run,
    variant_run, variants_run, VariantView,
};
use crate::param::{DropVarParameter, MicType};
use crate::session::{asked, yes, Call, Event, Tally};
use crate::shrink::{admits, descend_run, down_loop, down_run, shrink_run, step_run};

verus! {

/// Whether ordering a cube keeps its literals, in all answers of a log.
pub open spec fn orders_keep(log: Seq<Event>) -> bool {
    forall|p: int|
        #![trigger log[p]]
        0 <= p < log.len() ==> match log[p].call {
            Call::SortHybrid { cube, .. } => same_members(log[p].reply->Cube_0, cube),
            Call::SortByActivity { cube, .. } => same_members(log[p].reply->Cube_0, cube),
            _ => true,
        }
}

/// The order in which literals are tried keeps them.
proof fn lemma_order_within(
    log: Seq<Event>,
    at: int,
    order: Order,
    frame: usize,
    cube: Seq<Lit>,
)
    requires
        orders_keep(log),
        order_run(log, at, order, frame, cube) is Some,
    ensures
        order_run(log, at, order, frame, cube) matches Some((tried, _)) && within(tried, cube),
{
    if !order.hybrid && order.topo {
        lemma_sorted(cube);
        let s = sorted(cube);
        let r = s.reverse();
        assert forall|l: Lit| #[trigger] r.contains(l) implies s.contains(l) by {
            let i = r.index_of(l);
            assert(s[s.len() - 1 - i] == l);
        }
    }
}

/// Dropping literals leaves a part of the cube.
pub proof fn lemma_loop_within(
    log: Seq<Event>,
    at: int,
    setting: Setting,
    frame: usize,
    cube: Seq<Lit>,
    constraint: Seq<Seq<Lit>>,
    parameter: DropVarParameter,
    manage: bool,
    keep: Set<u32>,
    i: int,
)
    ensures
        drop_var_loop(
            log,
            at,
            setting,
            frame,
            cube,
            constraint,
            parameter,
            manage,
            keep,
            i,
        ) matches Some((Ok(c), _)) ==> within(c, cube),
    decreases log.len() - at, cube.len() - i,
{
    let solver = (frame - 1) as usize;
    let whole = drop_var_loop(
        log,
        at,
        setting,
        frame,
        cube,
        constraint,
        parameter,
        manage,
        keep,
        i,
    );
    if i >= cube.len() {
        assert(whole == drop_end(log, at, solver, cube, manage)) by {
            reveal(drop_var_loop);
        }
    } else if keep.contains(cube[i].0) {
        lemma_loop_within(
            log,
            at,
            setting,
            frame,
            cube,
            constraint,
            parameter,
            manage,
            keep,
            i + 1,
        );
        assert(whole == drop_var_loop(
            log,
            at,
            setting,
            frame,
            cube,
            constraint,
            parameter,
            manage,
            keep,
            i + 1,
        )) by {
            reveal(drop_var_loop);
        }
    } else {
        let tried = if parameter.level == 0 {
            down_run(log, at, frame, cube.remove(i), keep, cube, constraint)
        } else {
            ctg_run(log, at, setting, frame, cube.remove(i), keep, cube, parameter)
        };
        assert(whole is Some ==> match drop_turn(log, solver, cube, manage, keep, i, tried) {
            DropTurn::Off => false,
            DropTurn::Failed(f, at2) => whole == Some((Err::<Seq<Lit>, Fault>(f), at2)),
            DropTurn::Next(rest, keep2, next, at2) => at < at2 <= log.len() && whole
                == drop_var_loop(
                log,
                at2,
                setting,
                frame,
                rest,
                constraint,
                parameter,
                manage,
                keep2,
                next,
            ),
        }) by {
            reveal(drop_var_loop);
            reveal(ctg_run);
        }
        if let DropTurn::Next(rest, keep2, next, at2) = drop_turn(
            log,
            solver,
            cube,
            manage,
            keep,
            i,
            tried,
        ) {
            if whole is Some {
                if let Some((Ok(Some(smaller)), _)) = tried {
                    lemma_common(cube, smaller);
                }
                assert(within(rest, cube));
                lemma_loop_within(
                    log,
                    at2,
                    setting,
                    frame,
                    rest,
                    constraint,
                    parameter,
                    manage,
                    keep2,
                    next,
                );
            }
        }
    }
}

/// Dropping literals, once they are in order, leaves a part of the cube.
pub proof fn law_drop_var(
    log: Seq<Event>,
    at: int,
    setting: Setting,
    frame: usize,
    cube: Seq<Lit>,
    constraint: Seq<Seq<Lit>>,
    parameter: DropVarParameter,
    manage_domain: bool,
)
    requires
        orders_keep(log),
    ensures
        drop_var_run(
            log,
            at,
            setting,
            frame,
            cube,
            constraint,
            parameter,
            manage_domain,
        ) matches Some((Ok(c), _)) ==> within(c, cube),
{
    let manage = parameter.level == 0 && manage_domain;
    let whole = drop_var_run(
        log,
        at,
        setting,
        frame,
        cube,
        constraint,
        parameter,
        manage_domain,
    );
    if whole is Some {
        let at1 = if manage {
            at + 2
        } else {
            at
        };
        let ordered = order_run(log, at1 + 2, setting.order, frame, cube);
        let (tried, at2) = ordered->0;
        assert(ordered is Some && whole == drop_var_loop(
            log,
            at2,
            setting,
            frame,
            tried,
            constraint,
            parameter,
            manage,
            Set::empty(),
            0,
        )) by {
            reveal(drop_var_run);
            reveal(drop_var_loop);
        }
        lemma_order_within(log, at1 + 2, setting.order, frame, cube);
        lemma_loop_within(
            log,
            at2,
            setting,
            frame,
            tried,
            constraint,
            parameter,
            manage,
            Set::empty(),
            0,
        );
    }
}

/// The same with the solver restricted first.
proof fn lemma_drop_within(
    log: Seq<Event>,
    at: int,
    setting: Setting,
    frame: usize,
    cube: Seq<Lit>,
    constraint: Seq<Seq<Lit>>,
    parameter: DropVarParameter,
)
    requires
        orders_keep(log),
    ensures
        drop_run(log, at, setting, frame, cube, constraint, parameter) matches Some((Ok(c), _))
            ==> within(c, cube),
{
    let at2 = if parameter.level > 0 {
        at
    } else {
        at + 3
    };
    law_drop_var(log, at2, setting, frame, cube, constraint, parameter, false);
    let whole = drop_run(log, at, setting, frame, cube, constraint, parameter);
    let inner = drop_var_run(log, at2, setting, frame, cube, constraint, parameter, false);
    assert(whole matches Some((Ok(c), _)) ==> (inner matches Some((Ok(d), _)) && d == c)) by {
        reveal(drop_run);
        reveal(drop_var_run);
    }
}

/// Whether some cubes are parts of one, and differ from each other.
pub open spec fn parts(clauses: Seq<Seq<Lit>>, cube: Seq<Lit>) -> bool {
    &&& clauses.no_duplicates()
    &&& forall|i: int| 0 <= i < clauses.len() ==> within(#[trigger] clauses[i], cube)
}

/// The cubes that come out of several orders are parts of the one that went in, differ from each
/// other, and are no more than were asked for.
proof fn lemma_multi_parts(
    log: Seq<Event>,
    at: int,
    setting: Setting,
    frame: usize,
    cube: Seq<Lit>,
    constraint: Seq<Seq<Lit>>,
    parameter: DropVarParameter,
    num_clauses: usize,
    variants: Seq<VariantView>,
    k: int,
    clauses: Seq<Seq<Lit>>,
)
    requires
        orders_keep(log),
        0 <= k,
        all_variants(variants, cube),
        parts(clauses, cube),
        clauses.len() <= num_clauses,
    ensures
        multi_loop(
            log,
            at,
            setting,
            frame,
            constraint,
            parameter,
            num_clauses,
            variants,
            k,
            clauses,
        ) matches Some((Ok(all), _)) ==> {
            &&& parts(all, cube)
            &&& clauses.len() <= all.len() <= num_clauses
            &&& k < variants.len() && num_clauses > 0 ==> all.len() > 0
        },
    decreases variants.len() - k,
{
    let solver = (frame - 1) as usize;
    if k < variants.len() && clauses.len() < num_clauses {
        let one = variant_run(
            log,
            at,
            setting,
            frame,
            constraint,
            parameter,
            variants[k],
        );
        if let Some((Ok(c), at2)) = one {
            let (tried, order, at1) = prepared_run(
                log,
                at,
                setting.order,
                frame,
                variants[k],
            )->0;
            assert(within(tried, cube));
            let start = if parameter.level == 0 {
                at1 + 2
            } else {
                at1
            };
            law_drop_var(
                log,
                start,
                Setting { order, level: setting.level },
                frame,
                tried,
                constraint,
                parameter,
                false,
            );
            assert(within(c, cube));
            if let Some((clauses2, at3)) = collect_run(
                log,
                at2,
                solver,
                parameter.level,
                clauses,
                c,
            ) {
                assert(parts(clauses2, cube));
                lemma_multi_parts(
                    log,
                    at3,
                    setting,
                    frame,
                    cube,
                    constraint,
                    parameter,
                    num_clauses,
                    variants,
                    k + 1,
                    clauses2,
                );
            }
        }
    }
}

/// Generalizing a cube in several orders gives parts of it that differ from each other, at least
/// one where any was asked for, and no more than were.
pub proof fn law_multi_clauses(
    log: Seq<Event>,
    at: int,
    setting: Setting,
    inn: bool,
    frame: usize,
    cube: Seq<Lit>,
    constraint: Seq<Seq<Lit>>,
    parameter: DropVarParameter,
    num_clauses: usize,
)
    requires
        orders_keep(log),
        0 <= at <= log.len(),
        cube.len() <= usize::MAX,
    ensures
        multi_run(
            log,
            at,
            setting,
            inn,
            frame,
            cube,
            constraint,
            parameter,
            num_clauses,
        ) matches Some((Ok(all), _)) ==> {
            &&& parts(all, cube)
            &&& all.len() <= num_clauses
            &&& all.len() == 0 <==> num_clauses == 0
        },
{
    reveal(multi_run);
    let at1 = if parameter.level == 0 {
        at + 1
    } else {
        at
    };
    if multi_run(
        log,
        at,
        setting,
        inn,
        frame,
        cube,
        constraint,
        parameter,
        num_clauses,
    ) is Some {
        lemma_variants(log, at1 + 2, cube, setting.order, inn, num_clauses);
        let (variants, at2) = variants_run(
            log,
            at1 + 2,
            cube,
            setting.order,
            inn,
            num_clauses,
        )->0;
        lemma_multi_parts(
            log,
            at2,
            setting,
            frame,
            cube,
            constraint,
            parameter,
            num_clauses,
            variants,
            0,
            seq![],
        );
    }
}

/// Whether a cube comes out of dropping literals from another one by one, in an order other than
/// the mixed one.
pub open spec fn plainly_dropped(
    log: Seq<Event>,
    level: usize,
    frame: usize,
    cube: Seq<Lit>,
    constraint: Seq<Seq<Lit>>,
    parameter: DropVarParameter,
    left: Seq<Lit>,
) -> bool {
    exists|at: int, order: Order|
        !order.hybrid && (#[trigger] drop_var_run(
            log,
            at,
            Setting { order, level },
            frame,
            cube,
            constraint,
            parameter,
            false,
        ) matches Some((r, _)) && r == Ok::<Seq<Lit>, Fault>(left))
}

/// Variants of the cube itself that are not for the mixed order give what dropping literals in
/// plain orders gives.
proof fn lemma_multi_plain(
    log: Seq<Event>,
    at: int,
    setting: Setting,
    frame: usize,
    cube: Seq<Lit>,
    constraint: Seq<Seq<Lit>>,
    parameter: DropVarParameter,
    num_clauses: usize,
    variants: Seq<VariantView>,
    k: int,
    clauses: Seq<Seq<Lit>>,
)
    requires
        0 <= k,
        forall|i: int|
            0 <= i < variants.len() ==> (#[trigger] variants[i]).cube == cube
                && !variants[i].hybrid,
        forall|i: int|
            0 <= i < clauses.len() ==> plainly_dropped(
                log,
                setting.level,
                frame,
                cube,
                constraint,
                parameter,
                #[trigger] clauses[i],
            ),
    ensures
        multi_loop(
            log,
            at,
            setting,
            frame,
            constraint,
            parameter,
            num_clauses,
            variants,
            k,
            clauses,
        ) matches Some((Ok(all), _)) ==> forall|i: int|
            0 <= i < all.len() ==> plainly_dropped(
                log,
                setting.level,
                frame,
                cube,
                constraint,
                parameter,
                #[trigger] all[i],
            ),
    decreases variants.len() - k,
{
    let solver = (frame - 1) as usize;
    if k < variants.len() && clauses.len() < num_clauses {
        let one = variant_run(log, at, setting, frame, constraint, parameter, variants[k]);
        if let Some((Ok(c), at2)) = one {
            let order = Order {
                hybrid: false,
                topo: variants[k].topo,
                reverse: variants[k].reverse,
            };
            let start = if parameter.level == 0 {
                at + 2
            } else {
                at
            };
            assert(drop_var_run(
                log,
                start,
                Setting { order, level: setting.level },
                frame,
                cube,
                constraint,
                parameter,
                false,
            ) == Some((Ok::<Seq<Lit>, Fault>(c), at2)));
            if let Some((clauses2, at3)) = collect_run(
                log,
                at2,
                solver,
                parameter.level,
                clauses,
                c,
            ) {
                lemma_multi_plain(
                    log,
                    at3,
                    setting,
                    frame,
                    cube,
                    constraint,
                    parameter,
                    num_clauses,
                    variants,
                    k + 1,
                    clauses2,
                );
            }
        }
    }
}

/// Where up to four cubes are wanted, the mixed order plays no part, whether it is set or not:
/// each cube that comes out is what dropping literals in one of the plain orders gives.
pub proof fn law_plain_orders(
    log: Seq<Event>,
    at: int,
    setting: Setting,
    inn: bool,
    frame: usize,
    cube: Seq<Lit>,
    constraint: Seq<Seq<Lit>>,
    parameter: DropVarParameter,
    num_clauses: usize,
)
    requires
        num_clauses <= 4,
    ensures
        multi_run(
            log,
            at,
            setting,
            inn,
            frame,
            cube,
            constraint,
            parameter,
            num_clauses,
        ) matches Some((Ok(all), _)) ==> forall|i: int|
            0 <= i < all.len() ==> plainly_dropped(
                log,
                setting.level,
                frame,
                cube,
                constraint,
                parameter,
                #[trigger] all[i],
            ),
{
    reveal(multi_run);
    let at1 = if parameter.level == 0 {
        at + 1
    } else {
        at
    };
    let variants = fixed_variants(cube, setting.order, inn, num_clauses);
    lemma_multi_plain(
        log,
        at1 + 2,
        setting,
        frame,
        cube,
        constraint,
        parameter,
        num_clauses,
        variants,
        0,
        seq![],
    );
}

/// Generalizing a cube in any way gives a part of it, or several that differ from each other: one
/// and no more unless several are asked for, none only where none are.
pub proof fn law_mic(
    log: Seq<Event>,
    at: int,
    setting: Setting,
    inn: bool,
    frame: usize,
    cube: Seq<Lit>,
    constraint: Seq<Seq<Lit>>,
    mic_type: MicType,
)
    requires
        orders_keep(log),
        0 <= at <= log.len(),
        cube.len() <= usize::MAX,
    ensures
        mic_run(log, at, setting, inn, frame, cube, constraint, mic_type) matches Some((Ok(c), _))
            ==> within(c, cube),
        mic_multi_run(log, at, setting, inn, frame, cube, constraint, mic_type) matches Some(
            (Ok(all), _),
        ) ==> parts(all, cube) && match mic_type {
            MicType::MultiClauses(_, num_clauses) => all.len() <= num_clauses && (all.len() == 0
                <==> num_clauses == 0),
            _ => all.len() == 1,
        },
{
    match mic_type {
        MicType::NoMic => {},
        MicType::DropVar(parameter) => {
            lemma_drop_within(log, at, setting, frame, cube, constraint, parameter);
        },
        MicType::MultiClauses(parameter, num_clauses) => {
            law_multi_clauses(
                log,
                at,
                setting,
                inn,
                frame,
                cube,
                constraint,
                parameter,
                num_clauses,
            );
        },
    }
}

/// Taking one result is taking the first of all, after the same requests; the cube itself where
/// there are none.
pub proof fn law_head(
    log: Seq<Event>,
    at: int,
    setting: Setting,
    inn: bool,
    frame: usize,
    cube: Seq<Lit>,
    constraint: Seq<Seq<Lit>>,
    mic_type: MicType,
)
    ensures
        mic_run(log, at, setting, inn, frame, cube, constraint, mic_type) == (match mic_multi_run(
            log,
            at,
            setting,
            inn,
            frame,
            cube,
            constraint,
            mic_type,
        ) {
            None => None,
            Some((Err(f), at2)) => Some((Err(f), at2)),
            Some((Ok(all), at2)) => Some((
                Ok(
                    if all.len() > 0 {
                        all[0]
                    } else {
                        cube
                    },
                ),
                at2,
            )),
        }),
{
}

/// Whether the core at `p` has only literals of the cube that the request before it asked about.
pub open spec fn core_within(log: Seq<Event>, p: int) -> bool {
    0 < p < log.len() && log[p].call is InductiveCore ==> match log[p - 1].call {
        Call::Inductive { cube, .. } => within(log[p].reply->Cube_0, cube),
        _ => true,
    }
}

/// Whether all cores are within the cubes that were asked about.
pub open spec fn cores_within(log: Seq<Event>) -> bool {
    forall|p: int| #[trigger] core_within(log, p)
}

/// Pushing from frame to frame with cores that are parts of cubes leaves a part of the cube, and
/// ends at the first frame after `i - 1` for which a request said no, or beyond the last.
proof fn lemma_push_end(log: Seq<Event>, at: int, level: usize, i: int, cube: Seq<Lit>)
    requires
        cores_within(log),
        0 < i <= level + 1,
        0 <= at,
    ensures
        push_run(log, at, level, i, cube) matches Some((reached, left, at2)) ==> {
            &&& at <= at2
            &&& within(left, cube)
            &&& i <= reached <= level + 1
            &&& i <= level ==> at < at2
            &&& reached <= level <==> at < at2 && log[at2 - 1].call is Inductive && !yes(
                log,
                at2 - 1,
            )
        },
    decreases level + 1 - i,
{
    if i <= level && asked(
        log,
        at,
        Call::Inductive { solver: (i - 1) as usize, cube, strengthen: true },
    ) && yes(log, at) && asked(log, at + 1, Call::InductiveCore { solver: (i - 1) as usize }) {
        assert(core_within(log, at + 1));
        lemma_push_end(log, at + 2, level, i + 1, log[at + 1].reply->Cube_0);
    }
}

/// Pushing a cube leaves a part of it. From the last frame, or from beyond it, the cube stays as
/// it is, and nothing is asked. From a frame before it, the frame that is reached comes later, and
/// is beyond the last unless a request said no.
pub proof fn law_push(log: Seq<Event>, at: int, level: usize, frame: usize, cube: Seq<Lit>)
    requires
        cores_within(log),
        0 <= at,
    ensures
        push_run(log, at, level, frame + 1, cube) matches Some((reached, left, at2)) ==> {
            &&& within(left, cube)
            &&& frame >= level ==> reached == level + 1 && left == cube && at2 == at
            &&& frame < level ==> frame < reached <= level + 1
            &&& frame < level ==> (reached <= level <==> log[at2 - 1].call is Inductive && !yes(
                log,
                at2 - 1,
            ))
        },
{
    if frame < level {
        lemma_push_end(log, at, level, frame + 1, cube);
    }
}

/// Shrinking a cube blocks no predecessor, and so adds no lemma, where none may be blocked.
proof fn lemma_ctg_quiet(
    log: Seq<Event>,
    at: int,
    setting: Setting,
    frame: usize,
    cube: Seq<Lit>,
    keep: Set<u32>,
    full: Seq<Lit>,
    parameter: DropVarParameter,
    ctg: int,
)
    requires
        parameter.max == 0 || frame <= 1,
        0 <= ctg,
        0 <= at <= log.len(),
    ensures
        ctg_loop(log, at, setting, frame, cube, keep, full, parameter, ctg) matches Some((_, at2))
            ==> at <= at2 <= log.len() && quiet(log, at, at2),
    decreases log.len() - at,
{
    reveal(ctg_loop);
    let solver = (frame - 1) as usize;
    let more = ctg < parameter.max;
    if asked(log, at, Call::CubeSubsumeInit { cube }) && !yes(log, at) && asked(
        log,
        at + 1,
        Call::Count { tally: Tally::DownSat },
    ) && asked(log, at + 2, Call::Blocked { frame, cube, strengthen: true }) && !yes(log, at + 2) {
        if keeps_run(log, at + 3, solver, keep, cube, 0) is Some {
            lemma_keeps(log, at + 3, solver, keep, cube, 0);
        }
        if let CtgTurn::Shrink(model, at2) = ctg_turn(log, at, frame, cube, keep, more) {
            lemma_ctg_quiet(
                log,
                at2,
                setting,
                frame,
                common(cube, model),
                keep,
                full,
                parameter,
                0,
            );
        }
    }
}

/// Where no predecessors may be blocked, or at the first frame after the initial one, shrinking a
/// cube adds no lemma to any frame.
pub proof fn law_ctg_quiet(
    log: Seq<Event>,
    at: int,
    setting: Setting,
    frame: usize,
    cube: Seq<Lit>,
    keep: Set<u32>,
    full: Seq<Lit>,
    parameter: DropVarParameter,
)
    requires
        parameter.max == 0 || frame <= 1,
        0 <= at <= log.len(),
    ensures
        ctg_run(log, at, setting, frame, cube, keep, full, parameter) matches Some((_, at2))
            ==> at < at2 <= log.len() && quiet(log, at, at2),
{
    reveal(ctg_run);
    if asked(log, at, Call::Count { tally: Tally::Down }) {
        lemma_ctg_quiet(log, at + 1, setting, frame, cube, keep, full, parameter, 0);
        reveal(ctg_loop);
    }
}

/// How many questions about a cube under constraints were asked between two events.
pub open spec fn questions(log: Seq<Event>, from: int, to: int) -> int
    decreases to - from,
{
    if to <= from {
        0
    } else {
        questions(log, from, to - 1) + if log[to - 1].call is BlockedUnder {
            1int
        } else {
            0int
        }
    }
}

/// The questions before an event and those after it make up all.
proof fn lemma_questions(log: Seq<Event>, from: int, mid: int, to: int)
    requires
        from <= mid <= to,
    ensures
        questions(log, from, to) == questions(log, from, mid) + questions(log, mid, to),
    decreases to - mid,
{
    if mid < to {
        lemma_questions(log, from, mid, to - 1);
    }
}

/// Where a stretch holds no such question, none is counted.
proof fn lemma_no_questions(log: Seq<Event>, from: int, to: int)
    requires
        forall|p: int| from <= p < to ==> !((#[trigger] log[p]).call is BlockedUnder),
    ensures
        questions(log, from, to) == 0,
    decreases to - from,
{
    if from < to {
        lemma_no_questions(log, from, to - 1);
    }
}

/// Looking at a model asks no such question.
proof fn lemma_shrink_plain(
    log: Seq<Event>,
    at: int,
    solver: usize,
    keep: Set<u32>,
    cube: Seq<Lit>,
    k: int,
    kept: Seq<Lit>,
)
    ensures
        shrink_run(log, at, solver, keep, cube, k, kept) matches Some((_, _, at2)) ==> at <= at2 && (
        forall|p: int| at <= p < at2 ==> !((#[trigger] log[p]).call is BlockedUnder)),
    decreases cube.len() - k,
{
    if k < cube.len() {
        lemma_shrink_plain(log, at + 1, solver, keep, cube, k + 1, kept.push(cube[k]));
        lemma_shrink_plain(log, at + 1, solver, keep, cube, k + 1, kept);
        lemma_shrink_plain(log, at + 2, solver, keep, cube, k + 1, kept.push(cube[k]));
        lemma_shrink_plain(log, at + 2, solver, keep, cube, k + 1, kept);
    }
}

/// Reading a step off a model asks none either.
proof fn lemma_step_plain(
    log: Seq<Event>,
    at: int,
    solver: usize,
    full: Seq<Lit>,
    k: int,
    before: Seq<Lit>,
    after: Seq<Lit>,
)
    ensures
        step_run(log, at, solver, full, k, before, after) matches Some((_, _, at2)) ==> at <= at2
            && (forall|p: int| at <= p < at2 ==> !((#[trigger] log[p]).call is BlockedUnder)),
    decreases full.len() - k,
{
    if k < full.len() {
        let l = full[k];
        let (before2, at2) = match log[at].reply->Value_0 {
            Some(v) => (
                if yes(log, at + 1) {
                    before
                } else {
                    before.push(l.negation_if(!v))
                },
                at + 2,
            ),
            None => (before, at + 1),
        };
        let after2 = match log[at2 + 1].reply->Value_0 {
            Some(v) => after.push(l.negation_if(!v)),
            None => after,
        };
        lemma_step_plain(log, at2 + 2, solver, full, k + 1, before2, after2);
    }
}

/// Each question that is answered with a model adds one step.
proof fn lemma_descend(
    log: Seq<Event>,
    at: int,
    frame: usize,
    cube: Seq<Lit>,
    keep: Set<u32>,
    full: Seq<Lit>,
    constraint: Seq<Seq<Lit>>,
    cex: Seq<(Seq<Lit>, Seq<Lit>)>,
)
    requires
        0 <= at,
    ensures
        down_loop(log, at, frame, cube, keep, full, constraint, cex) matches Some((r, all, at2))
            ==> {
            &&& at <= at2
            &&& cex.is_prefix_of(all)
            &&& all.len() - cex.len() == questions(log, at, at2) - if r matches Ok(Some(_)) {
                1int
            } else {
                0int
            }
        },
    decreases log.len() - at,
{
    reveal(down_loop);
    let solver = (frame - 1) as usize;
    let whole = down_loop(log, at, frame, cube, keep, full, constraint, cex);
    if whole is Some {
        if yes(log, at) || admits(cube, cex) {
            lemma_no_questions(log, at, at + 1);
        } else {
            lemma_no_questions(log, at, at + 2);
            if yes(log, at + 2) {
                assert(questions(log, at, at + 3) == 1);
            } else {
                lemma_shrink_plain(log, at + 3, solver, keep, cube, 0, seq![]);
                let (rest, lost, at2) = shrink_run(log, at + 3, solver, keep, cube, 0, seq![])->0;
                lemma_step_plain(log, at2, solver, full, 0, seq![], seq![]);
                let (before, after, at3) = step_run(log, at2, solver, full, 0, seq![], seq![])->0;
                assert(questions(log, at, at + 3) == 1);
                lemma_no_questions(log, at + 3, at3);
                lemma_questions(log, at, at + 3, at3);
                let more = cex.push((before, after));
                if !lost && rest.len() != cube.len() {
                    lemma_descend(log, at3, frame, rest, keep, full, constraint, more);
                    let (_, _, at4) = whole->0;
                    lemma_questions(log, at, at3, at4);
                }
            }
        }
    }
}

/// Shrinking a cube keeps the steps that are known, and adds one for each question that is answered
/// with a model. Where the cube admits a step that is known, it is given up at once, without a
/// question.
pub proof fn law_descend(
    log: Seq<Event>,
    at: int,
    frame: usize,
    cube: Seq<Lit>,
    keep: Set<u32>,
    full: Seq<Lit>,
    constraint: Seq<Seq<Lit>>,
    cex: Seq<(Seq<Lit>, Seq<Lit>)>,
)
    requires
        0 <= at,
    ensures
        descend_run(log, at, frame, cube, keep, full, constraint, cex) matches Some((r, all, at2))
            ==> {
            &&& cex.is_prefix_of(all)
            &&& all.len() - cex.len() == questions(log, at, at2) - if r matches Ok(Some(_)) {
                1int
            } else {
                0int
            }
            &&& admits(cube, cex) ==> r == Ok::<Option<Seq<Lit>>, Fault>(None) && all == cex
                && questions(log, at, at2) == 0
        },
{
    reveal(descend_run);
    reveal(down_loop);
    lemma_descend(log, at + 1, frame, cube, keep, full, constraint, cex);
    if let Some((_, _, at2)) = descend_run(log, at, frame, cube, keep, full, constraint, cex) {
        lemma_no_questions(log, at, at + 1);
        lemma_questions(log, at, at + 1, at2);
    }
}

} // verus!
