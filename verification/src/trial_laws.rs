//! What has been tried when generalization ends.

use vstd::prelude::*;

use crate::cube_laws::lemma_loop_within;
use crate::fault::Fault;
use crate::lit::{common, lemma_common, Lit};
use crate::meaning::within;
use crate::mic::{
    ctg_loop, ctg_run, drop_end, drop_run, drop_turn, drop_var_loop, drop_var_run, first_new,
    order_run, resumed, DropTurn, Setting,
};
use crate::multi::mic_run;
use crate::param::{DropVarParameter, MicType};
use crate::session::{asked, Call, Event, Tally};
use crate::shrink::{descend_run, down_loop, down_run};

verus! {

/// Whether an attempt to drop the literal at `i` from a cube, and to keep all those before it,
/// starts at `p` and has failed at `q`, where it is counted as failed.
pub open spec fn refused(
    log: Seq<Event>,
    p: int,
    q: int,
    setting: Setting,
    frame: usize,
    full: Seq<Lit>,
    i: int,
    keep: Set<u32>,
    constraint: Seq<Seq<Lit>>,
    parameter: DropVarParameter,
) -> bool {
    let less = full.remove(i);
    &&& 0 <= i < full.len()
    &&& forall|j: int| 0 <= j < i ==> keep.contains((#[trigger] full[j]).0)
    &&& asked(log, p, Call::Count { tally: Tally::Down })
    &&& asked(log, p + 1, Call::CubeSubsumeInit { cube: less })
    &&& asked(log, q, Call::Count { tally: Tally::MicDrop(false) })
    &&& if parameter.level == 0 {
        down_run(log, p, frame, less, keep, full, constraint)
    } else {
        ctg_run(log, p, setting, frame, less, keep, full, parameter)
    } == Some((Ok::<Option<Seq<Lit>>, Fault>(None), q))
}

/// Whether dropping a literal was tried between two events, and failed: from a cube with all the
/// literals that are left.
pub open spec fn needed(
    log: Seq<Event>,
    from: int,
    to: int,
    setting: Setting,
    frame: usize,
    lit: Lit,
    left: Seq<Lit>,
    constraint: Seq<Seq<Lit>>,
    parameter: DropVarParameter,
) -> bool {
    exists|p: int, q: int, full: Seq<Lit>, i: int, keep: Set<u32>|
        from <= p < q < to && full[i] == lit && within(left, full) && #[trigger] refused(
            log,
            p,
            q,
            setting,
            frame,
            full,
            i,
            keep,
            constraint,
            parameter,
        )
}

/// With fewer literals left, and between events further apart, the same attempt counts.
proof fn lemma_needed(
    log: Seq<Event>,
    from: int,
    to: int,
    to2: int,
    setting: Setting,
    frame: usize,
    lit: Lit,
    left: Seq<Lit>,
    left2: Seq<Lit>,
    constraint: Seq<Seq<Lit>>,
    parameter: DropVarParameter,
)
    requires
        needed(log, from, to, setting, frame, lit, left, constraint, parameter),
        to <= to2,
        within(left2, left),
    ensures
        needed(log, from, to2, setting, frame, lit, left2, constraint, parameter),
{
    let (p, q, full, i, keep) = choose|p: int, q: int, full: Seq<Lit>, i: int, keep: Set<u32>|
        from <= p < q < to && full[i] == lit && within(left, full) && #[trigger] refused(
            log,
            p,
            q,
            setting,
            frame,
            full,
            i,
            keep,
            constraint,
            parameter,
        );
    assert(refused(log, p, q, setting, frame, full, i, keep, constraint, parameter));
}

/// The literals before the one that the search goes on with have been dealt with.
proof fn lemma_dealt_with(lits: Seq<Lit>, done: Seq<Lit>, k: int)
    requires
        0 <= k <= lits.len(),
    ensures
        k <= first_new(lits, done, k) <= lits.len(),
        forall|j: int| k <= j < first_new(lits, done, k) ==> done.contains(#[trigger] lits[j]),
    decreases lits.len() - k,
{
    if k < lits.len() && done.contains(lits[k]) {
        lemma_dealt_with(lits, done, k + 1);
    }
}

/// Where all literals before `i` are to be kept, and those to be kept were tried, every literal
/// that is left at the end was.
proof fn lemma_loop_needed(
    log: Seq<Event>,
    start: int,
    at: int,
    setting: Setting,
    frame: usize,
    cube: Seq<Lit>,
    constraint: Seq<Seq<Lit>>,
    parameter: DropVarParameter,
    manage: bool,
    keep: Set<u32>,
    i: int,
)
    requires
        start <= at,
        0 <= i <= cube.len(),
        forall|j: int| 0 <= j < i ==> keep.contains((#[trigger] cube[j]).0),
        forall|j: int|
            0 <= j < cube.len() && keep.contains((#[trigger] cube[j]).0) ==> needed(
                log,
                start,
                at,
                setting,
                frame,
                cube[j],
                cube,
                constraint,
                parameter,
            ),
    ensures
        drop_var_loop(
            log,
            at,
            setting,
            frame,
            cube,
            constraint,
            parameter,
            manage,
            keep,
            i,
        ) matches Some((Ok(c), at2)) ==> at <= at2 && asked(
            log,
            at2 - 1,
            Call::BumpCubeActivity { cube: c },
        ) && (manage ==> asked(
            log,
            at2 - 2,
            Call::UnsetDomain { solver: (frame - 1) as usize },
        )) && forall|j: int|
            0 <= j < c.len() ==> needed(
                log,
                start,
                at2,
                setting,
                frame,
                #[trigger] c[j],
                c,
                constraint,
                parameter,
            ),
    decreases log.len() - at, cube.len() - i,
{
    let solver = (frame - 1) as usize;
    let whole = drop_var_loop(
        log,
        at,
        setting,
        frame,
        cube,
        constraint,
        parameter,
        manage,
        keep,
        i,
    );
    if i >= cube.len() {
        assert(whole == drop_end(log, at, solver, cube, manage)) by {
            reveal(drop_var_loop);
        }
        if let Some((Ok(c), at2)) = whole {
            assert forall|j: int| 0 <= j < c.len() implies needed(
                log,
                start,
                at2,
                setting,
                frame,
                #[trigger] c[j],
                c,
                constraint,
                parameter,
            ) by {
                lemma_needed(
                    log,
                    start,
                    at,
                    at2,
                    setting,
                    frame,
                    c[j],
                    c,
                    c,
                    constraint,
                    parameter,
                );
            }
        }
    } else if keep.contains(cube[i].0) {
        lemma_loop_needed(
            log,
            start,
            at,
            setting,
            frame,
            cube,
            constraint,
            parameter,
            manage,
            keep,
            i + 1,
        );
        assert(whole == drop_var_loop(
            log,
            at,
            setting,
            frame,
            cube,
            constraint,
            parameter,
            manage,
            keep,
            i + 1,
        )) by {
            reveal(drop_var_loop);
        }
    } else {
        let less = cube.remove(i);
        let tried = if parameter.level == 0 {
            down_run(log, at, frame, less, keep, cube, constraint)
        } else {
            ctg_run(log, at, setting, frame, less, keep, cube, parameter)
        };
        assert(whole is Some ==> match drop_turn(log, solver, cube, manage, keep, i, tried) {
            DropTurn::Off => false,
            DropTurn::Failed(f, at2) => whole == Some((Err::<Seq<Lit>, Fault>(f), at2)),
            DropTurn::Next(rest, keep2, next, at2) => at < at2 <= log.len() && whole
                == drop_var_loop(
                log,
                at2,
                setting,
                frame,
                rest,
                constraint,
                parameter,
                manage,
                keep2,
                next,
            ),
        }) by {
            reveal(drop_var_loop);
            reveal(ctg_run);
        }
        if let DropTurn::Next(rest, keep2, next, at2) = drop_turn(
            log,
            solver,
            cube,
            manage,
            keep,
            i,
            tried,
        ) {
            if whole is Some {
                lemma_attempt_starts(log, at, setting, frame, cube, keep, i, constraint, parameter);
                if let Some((Ok(Some(smaller)), _)) = tried {
                    lemma_common(cube, smaller);
                    lemma_dealt_with(rest, cube.take(i), 0);
                    assert(rest == common(cube, smaller));
                    assert forall|j: int| 0 <= j < next implies keep2.contains(
                        (#[trigger] rest[j]).0,
                    ) by {
                        let k = choose|k: int|
                            0 <= k < cube.take(i).len() && cube.take(i)[k] == rest[j];
                        assert(cube[k] == rest[j]);
                    }
                }
                assert(within(rest, cube));
                assert forall|j: int|
                    0 <= j < rest.len() && keep2.contains((#[trigger] rest[j]).0) implies needed(
                    log,
                    start,
                    at2,
                    setting,
                    frame,
                    rest[j],
                    rest,
                    constraint,
                    parameter,
                ) by {
                    assert(rest.contains(rest[j]));
                    assert(cube.contains(rest[j]));
                    let k = choose|k: int| 0 <= k < cube.len() && cube[k] == rest[j];
                    if keep.contains(cube[k].0) {
                        lemma_needed(
                            log,
                            start,
                            at,
                            at2,
                            setting,
                            frame,
                            rest[j],
                            cube,
                            rest,
                            constraint,
                            parameter,
                        );
                    } else {
                        assert(cube[k] == cube[i]);
                        assert(refused(
                            log,
                            at,
                            at2 - 1,
                            setting,
                            frame,
                            cube,
                            i,
                            keep,
                            constraint,
                            parameter,
                        ));
                    }
                }
                lemma_loop_needed(
                    log,
                    start,
                    at2,
                    setting,
                    frame,
                    rest,
                    constraint,
                    parameter,
                    manage,
                    keep2,
                    next,
                );
            }
        }
    }
}

/// An attempt to drop a literal is counted, and asks about the cube without it.
proof fn lemma_attempt_starts(
    log: Seq<Event>,
    at: int,
    setting: Setting,
    frame: usize,
    cube: Seq<Lit>,
    keep: Set<u32>,
    i: int,
    constraint: Seq<Seq<Lit>>,
    parameter: DropVarParameter,
)
    requires
        0 <= i < cube.len(),
        (if parameter.level == 0 {
            down_run(log, at, frame, cube.remove(i), keep, cube, constraint)
        } else {
            ctg_run(log, at, setting, frame, cube.remove(i), keep, cube, parameter)
        }) is Some,
    ensures
        asked(log, at, Call::Count { tally: Tally::Down }),
        asked(log, at + 1, Call::CubeSubsumeInit { cube: cube.remove(i) }),
{
    if parameter.level == 0 {
        reveal(down_run);
        reveal(descend_run);
        reveal(down_loop);
    } else {
        reveal(ctg_run);
        reveal(ctg_loop);
    }
}

/// Every literal of the cube that dropping literals leaves was tried: between the first and the
/// last request there is an attempt to drop it, from a cube with at least the literals that are
/// left, and that attempt failed. The last request raises the activity of what is left,
/// after the solver is no longer restricted where it was.
pub proof fn law_needed(
    log: Seq<Event>,
    at: int,
    setting: Setting,
    frame: usize,
    cube: Seq<Lit>,
    constraint: Seq<Seq<Lit>>,
    parameter: DropVarParameter,
    manage_domain: bool,
)
    requires
        0 <= at,
    ensures
        drop_var_run(
            log,
            at,
            setting,
            frame,
            cube,
            constraint,
            parameter,
            manage_domain,
        ) matches Some((Ok(c), at2)) ==> at < at2 && asked(
            log,
            at2 - 1,
            Call::BumpCubeActivity { cube: c },
        ) && (parameter.level == 0 && manage_domain ==> asked(
            log,
            at2 - 2,
            Call::UnsetDomain { solver: (frame - 1) as usize },
        )) && forall|j: int|
            0 <= j < c.len() ==> needed(
                log,
                at,
                at2,
                setting,
                frame,
                #[trigger] c[j],
                c,
                constraint,
                parameter,
            ),
{
    let manage = parameter.level == 0 && manage_domain;
    let whole = drop_var_run(
        log,
        at,
        setting,
        frame,
        cube,
        constraint,
        parameter,
        manage_domain,
    );
    if whole is Some {
        let at1 = if manage {
            at + 2
        } else {
            at
        };
        let ordered = order_run(log, at1 + 2, setting.order, frame, cube);
        let (tried, at2) = ordered->0;
        assert(ordered is Some && whole == drop_var_loop(
            log,
            at2,
            setting,
            frame,
            tried,
            constraint,
            parameter,
            manage,
            Set::empty(),
            0,
        )) by {
            reveal(drop_var_run);
            reveal(drop_var_loop);
        }
        lemma_loop_needed(
            log,
            at,
            at2,
            setting,
            frame,
            tried,
            constraint,
            parameter,
            manage,
            Set::empty(),
            0,
        );
    }
}

/// The same where a cube is generalized by dropping literals.
pub proof fn law_mic_needed(
    log: Seq<Event>,
    at: int,
    setting: Setting,
    inn: bool,
    frame: usize,
    cube: Seq<Lit>,
    constraint: Seq<Seq<Lit>>,
    parameter: DropVarParameter,
)
    requires
        0 <= at,
    ensures
        mic_run(
            log,
            at,
            setting,
            inn,
            frame,
            cube,
            constraint,
            MicType::DropVar(parameter),
        ) matches Some((Ok(c), at2)) ==> at < at2 && forall|j: int|
            0 <= j < c.len() ==> needed(
                log,
                at,
                at2,
                setting,
                frame,
                #[trigger] c[j],
                c,
                constraint,
                parameter,
            ),
{
    let first = if parameter.level > 0 {
        at
    } else {
        at + 3
    };
    let more = if parameter.level > 0 {
        0int
    } else {
        1int
    };
    let whole = drop_run(log, at, setting, frame, cube, constraint, parameter);
    let inner = drop_var_run(log, first, setting, frame, cube, constraint, parameter, false);
    law_needed(log, first, setting, frame, cube, constraint, parameter, false);
    assert(whole matches Some((Ok(c), at2)) ==> inner == Some(
        (Ok::<Seq<Lit>, Fault>(c), at2 - more),
    )) by {
        reveal(drop_run);
        reveal(drop_var_run);
    }
    if let Some((Ok(c), at2)) = whole {
        assert forall|j: int| 0 <= j < c.len() implies needed(
            log,
            at,
            at2,
            setting,
            frame,
            #[trigger] c[j],
            c,
            constraint,
            parameter,
        ) by {
            assert(needed(
                log,
                first,
                at2 - more,
                setting,
                frame,
                c[j],
                c,
                constraint,
                parameter,
            ));
        }
    }
}

/// Whether a solver is restricted anew from `at` on, to what two cubes have in common, before and
/// after a step.
pub open spec fn restricts_again(
    log: Seq<Event>,
    at: int,
    solver: usize,
    cube: Seq<Lit>,
    core: Seq<Lit>,
) -> bool {
    &&& asked(log, at, Call::UnsetDomain { solver })
    &&& log[at + 1].call matches Call::LitsNext { cube: rest } && {
        &&& forall|l: Lit| #[trigger] rest.contains(l) <==> cube.contains(l) && core.contains(l)
        &&& log[at + 2].call matches Call::SetDomain { solver: s, lits } && s == solver && both(
            lits,
            rest,
            log[at + 1].reply->Cube_0,
        )
    }
}

/// An attempt to drop the literal at `i` either works or not. Where it works, what comes out in the
/// end lies within the core that the attempt gave, and the search goes on, with the solver
/// restricted to what is left where it is restricted. Where it does not, the literal is to be kept
/// from then on, and the search goes on with the next.
pub proof fn law_dropped(
    log: Seq<Event>,
    at: int,
    setting: Setting,
    frame: usize,
    cube: Seq<Lit>,
    constraint: Seq<Seq<Lit>>,
    parameter: DropVarParameter,
    manage: bool,
    keep: Set<u32>,
    i: int,
)
    requires
        0 <= i < cube.len(),
        !keep.contains(cube[i].0),
    ensures
        ({
            let less = cube.remove(i);
            let tried = if parameter.level == 0 {
                down_run(log, at, frame, less, keep, cube, constraint)
            } else {
                ctg_run(log, at, setting, frame, less, keep, cube, parameter)
            };
            let whole = drop_var_loop(
                log,
                at,
                setting,
                frame,
                cube,
                constraint,
                parameter,
                manage,
                keep,
                i,
            );
            &&& whole is Some ==> tried is Some
            &&& whole is Some ==> (tried matches Some((Err(f), at2)) ==> whole == Some(
                (Err::<Seq<Lit>, Fault>(f), at2),
            ))
            &&& whole is Some ==> (tried matches Some((Ok(Some(_)), at2)) ==> asked(
                log,
                at2,
                Call::Count { tally: Tally::MicDrop(true) },
            ))
            &&& whole matches Some((Ok(c), _)) ==> (tried matches Some((Ok(Some(core)), _))
                ==> within(c, core) && within(c, cube))
            &&& whole is Some && manage ==> (tried matches Some((Ok(Some(core)), at2)) ==> whole
                == Some((Err::<Seq<Lit>, Fault>(Fault::StrangeCore), at2 + 1)) || restricts_again(
                log,
                at2 + 1,
                (frame - 1) as usize,
                cube,
                core,
            ))
            &&& whole is Some ==> (tried matches Some((Ok(None), at2)) ==> asked(
                log,
                at2,
                Call::Count { tally: Tally::MicDrop(false) },
            ) && whole == drop_var_loop(
                log,
                at2 + 1,
                setting,
                frame,
                cube,
                constraint,
                parameter,
                manage,
                keep.insert(cube[i].0),
                i + 1,
            ))
        }),
{
    let solver = (frame - 1) as usize;
    let less = cube.remove(i);
    let tried = if parameter.level == 0 {
        down_run(log, at, frame, less, keep, cube, constraint)
    } else {
        ctg_run(log, at, setting, frame, less, keep, cube, parameter)
    };
    let whole = drop_var_loop(
        log,
        at,
        setting,
        frame,
        cube,
        constraint,
        parameter,
        manage,
        keep,
        i,
    );
    assert(whole is Some ==> match drop_turn(log, solver, cube, manage, keep, i, tried) {
        DropTurn::Off => false,
        DropTurn::Failed(f, at2) => whole == Some((Err::<Seq<Lit>, Fault>(f), at2)),
        DropTurn::Next(rest, keep2, next, at2) => whole == drop_var_loop(
            log,
            at2,
            setting,
            frame,
            rest,
            constraint,
            parameter,
            manage,
            keep2,
            next,
        ),
    }) by {
        reveal(drop_var_loop);
        reveal(ctg_run);
    }
    if let DropTurn::Next(rest, keep2, next, at2) = drop_turn(
        log,
        solver,
        cube,
        manage,
        keep,
        i,
        tried,
    ) {
        if let Some((Ok(Some(core)), at3)) = tried {
            lemma_common(cube, core);
            if manage {
                lemma_both(rest, log[at3 + 2].reply->Cube_0);
            }
            lemma_loop_within(
                log,
                at2,
                setting,
                frame,
                rest,
                constraint,
                parameter,
                manage,
                keep2,
                next,
            );
        }
    }
}

/// Whether some literals are those of two cubes.
pub open spec fn both(lits: Seq<Lit>, cube: Seq<Lit>, other: Seq<Lit>) -> bool {
    forall|l: Lit| #[trigger] lits.contains(l) <==> cube.contains(l) || other.contains(l)
}

/// One cube after another has the literals of both.
pub proof fn lemma_both(cube: Seq<Lit>, next: Seq<Lit>)
    ensures
        both(next + cube, cube, next),
{
    assert forall|l: Lit| cube.contains(l) || next.contains(l) implies #[trigger] (next
        + cube).contains(l) by {
        if next.contains(l) {
            let i = choose|i: int| 0 <= i < next.len() && next[i] == l;
            assert((next + cube)[i] == l);
        } else {
            let i = choose|i: int| 0 <= i < cube.len() && cube[i] == l;
            assert((next + cube)[next.len() + i] == l);
        }
    }
}

/// Where no nested attempts are made, the solver is restricted to the literals of the cube and to
/// those that stand for them after a step before anything is tried, and no longer when it is over.
/// Where such attempts are made, the solver is not restricted.
pub proof fn law_domain(
    log: Seq<Event>,
    at: int,
    setting: Setting,
    frame: usize,
    cube: Seq<Lit>,
    constraint: Seq<Seq<Lit>>,
    parameter: DropVarParameter,
)
    ensures
        drop_run(log, at, setting, frame, cube, constraint, parameter) matches Some((r, at2)) ==> {
            let solver = (frame - 1) as usize;
            let start = if parameter.level == 0 {
                at + 3
            } else {
                at
            };
            &&& parameter.level == 0 ==> {
                &&& asked(log, at, Call::UnsetDomain { solver })
                &&& asked(log, at + 1, Call::LitsNext { cube })
                &&& log[at + 2].call matches Call::SetDomain { solver: s, lits } && s == solver
                    && both(lits, cube, log[at + 1].reply->Cube_0)
                &&& r is Ok ==> asked(log, at2 - 1, Call::UnsetDomain { solver })
            }
            &&& asked(
                log,
                start,
                Call::Count { tally: Tally::MicCubeLen(cube.len() as usize) },
            )
            &&& asked(log, start + 1, Call::Count { tally: Tally::Mic })
        },
{
    let whole = drop_run(log, at, setting, frame, cube, constraint, parameter);
    let start = if parameter.level == 0 {
        at + 3
    } else {
        at
    };
    let inner = drop_var_run(log, start, setting, frame, cube, constraint, parameter, false);
    let next = log[at + 1].reply->Cube_0;
    lemma_both(cube, next);
    if whole is Some {
        let solver = (frame - 1) as usize;
        assert(inner is Some && (parameter.level == 0 ==> asked(
            log,
            at,
            Call::UnsetDomain { solver },
        ) && asked(log, at + 1, Call::LitsNext { cube }) && asked(
            log,
            at + 2,
            Call::SetDomain { solver, lits: next + cube },
        ) && (whole matches Some((Ok(_), at2)) ==> asked(
            log,
            at2 - 1,
            Call::UnsetDomain { solver },
        )))) by {
            reveal(drop_run);
            reveal(drop_var_run);
        }
        assert(asked(
            log,
            start,
            Call::Count { tally: Tally::MicCubeLen(cube.len() as usize) },
        ) && asked(log, start + 1, Call::Count { tally: Tally::Mic })) by {
            reveal(drop_var_run);
        }
    }
}

/// Literals are tried in the order that was asked for: the first attempt drops the first literal of
/// the cube in that order. Where the solver is to be restricted meanwhile, that comes first.
pub proof fn law_first(
    log: Seq<Event>,
    at: int,
    setting: Setting,
    frame: usize,
    cube: Seq<Lit>,
    constraint: Seq<Seq<Lit>>,
    parameter: DropVarParameter,
    manage_domain: bool,
)
    requires
        drop_var_run(
            log,
            at,
            setting,
            frame,
            cube,
            constraint,
            parameter,
            manage_domain,
        ) is Some,
    ensures
        ({
            let solver = (frame - 1) as usize;
            let manage = parameter.level == 0 && manage_domain;
            let at1 = if manage {
                at + 2
            } else {
                at
            };
            &&& manage ==> {
                &&& asked(log, at, Call::LitsNext { cube })
                &&& log[at + 1].call matches Call::SetDomain { solver: s, lits } && s == solver
                    && both(lits, cube, log[at].reply->Cube_0)
            }
            &&& asked(
                log,
                at1,
                Call::Count { tally: Tally::MicCubeLen(cube.len() as usize) },
            )
            &&& asked(log, at1 + 1, Call::Count { tally: Tally::Mic })
            &&& order_run(log, at1 + 2, setting.order, frame, cube) matches Some((tried, at2)) && (
            tried.len() > 0 ==> {
                &&& asked(log, at2, Call::Count { tally: Tally::Down })
                &&& asked(log, at2 + 1, Call::CubeSubsumeInit { cube: tried.remove(0) })
            })
        }),
{
    let solver = (frame - 1) as usize;
    let manage = parameter.level == 0 && manage_domain;
    let at1 = if manage {
        at + 2
    } else {
        at
    };
    lemma_both(cube, log[at].reply->Cube_0);
    let ordered = order_run(log, at1 + 2, setting.order, frame, cube);
    let (tried, at2) = ordered->0;
    assert(ordered is Some && (manage ==> asked(log, at, Call::LitsNext { cube }) && asked(
        log,
        at + 1,
        Call::SetDomain { solver, lits: log[at].reply->Cube_0 + cube },
    )) && asked(
        log,
        at1,
        Call::Count { tally: Tally::MicCubeLen(cube.len() as usize) },
    ) && asked(log, at1 + 1, Call::Count { tally: Tally::Mic }) && drop_var_loop(
        log,
        at2,
        setting,
        frame,
        tried,
        constraint,
        parameter,
        manage,
        Set::empty(),
        0,
    ) is Some) by {
        reveal(drop_var_run);
        reveal(drop_var_loop);
    }
    if tried.len() > 0 {
        law_dropped(
            log,
            at2,
            setting,
            frame,
            tried,
            constraint,
            parameter,
            manage,
            Set::empty(),
            0,
        );
        lemma_attempt_starts(
            log,
            at2,
            setting,
            frame,
            tried,
            Set::empty(),
            0,
            constraint,
            parameter,
        );
    }
}

/// Taking what is common with one sequence, and of that with a part of it, is taking what is common
/// with the part.
proof fn lemma_common_twice(lits: Seq<Lit>, other: Seq<Lit>, part: Seq<Lit>)
    requires
        within(part, other),
    ensures
        common(common(lits, other), part) == common(lits, part),
    decreases lits.len(),
{
    reveal(Seq::filter);
    if lits.len() > 0 {
        let less = lits.drop_last();
        lemma_common_twice(less, other, part);
        let kept = common(less, other);
        if other.contains(lits.last()) {
            assert(common(lits, other) == kept.push(lits.last()));
            assert(kept.push(lits.last()).drop_last() =~= kept);
        } else {
            assert(!part.contains(lits.last()));
        }
    }
}

/// All of a sequence is common with it.
proof fn lemma_common_all(lits: Seq<Lit>, other: Seq<Lit>)
    requires
        within(lits, other),
    ensures
        common(lits, other) == lits,
    decreases lits.len(),
{
    reveal(Seq::filter);
    if lits.len() > 0 {
        let less = lits.drop_last();
        assert(lits.contains(lits[lits.len() - 1]));
        assert(within(less, other)) by {
            assert forall|l: Lit| #[trigger] less.contains(l) implies other.contains(l) by {
                let i = choose|i: int| 0 <= i < less.len() && less[i] == l;
                assert(lits[i] == l);
                assert(lits.contains(l));
            }
        }
        lemma_common_all(less, other);
        assert(less.push(lits.last()) =~= lits);
    }
}

/// What is left stays in the order in which it is tried.
proof fn lemma_loop_in_order(
    log: Seq<Event>,
    at: int,
    setting: Setting,
    frame: usize,
    cube: Seq<Lit>,
    constraint: Seq<Seq<Lit>>,
    parameter: DropVarParameter,
    manage: bool,
    keep: Set<u32>,
    i: int,
)
    requires
        0 <= i,
    ensures
        drop_var_loop(
            log,
            at,
            setting,
            frame,
            cube,
            constraint,
            parameter,
            manage,
            keep,
            i,
        ) matches Some((Ok(c), _)) ==> c == common(cube, c),
    decreases log.len() - at, cube.len() - i,
{
    let solver = (frame - 1) as usize;
    let whole = drop_var_loop(
        log,
        at,
        setting,
        frame,
        cube,
        constraint,
        parameter,
        manage,
        keep,
        i,
    );
    if i >= cube.len() {
        assert(whole == drop_end(log, at, solver, cube, manage)) by {
            reveal(drop_var_loop);
        }
        lemma_common_all(cube, cube);
    } else if keep.contains(cube[i].0) {
        lemma_loop_in_order(
            log,
            at,
            setting,
            frame,
            cube,
            constraint,
            parameter,
            manage,
            keep,
            i + 1,
        );
        assert(whole == drop_var_loop(
            log,
            at,
            setting,
            frame,
            cube,
            constraint,
            parameter,
            manage,
            keep,
            i + 1,
        )) by {
            reveal(drop_var_loop);
        }
    } else {
        let tried = if parameter.level == 0 {
            down_run(log, at, frame, cube.remove(i), keep, cube, constraint)
        } else {
            ctg_run(log, at, setting, frame, cube.remove(i), keep, cube, parameter)
        };
        assert(whole is Some ==> match drop_turn(log, solver, cube, manage, keep, i, tried) {
            DropTurn::Off => false,
            DropTurn::Failed(f, at2) => whole == Some((Err::<Seq<Lit>, Fault>(f), at2)),
            DropTurn::Next(rest, keep2, next, at2) => at < at2 <= log.len() && whole
                == drop_var_loop(
                log,
                at2,
                setting,
                frame,
                rest,
                constraint,
                parameter,
                manage,
                keep2,
                next,
            ),
        }) by {
            reveal(drop_var_loop);
            reveal(ctg_run);
        }
        if let DropTurn::Next(rest, keep2, next, at2) = drop_turn(
            log,
            solver,
            cube,
            manage,
            keep,
            i,
            tried,
        ) {
            if whole is Some {
                if let Some((Ok(Some(_)), _)) = tried {
                    lemma_dealt_with(rest, cube.take(i), 0);
                }
                lemma_loop_in_order(
                    log,
                    at2,
                    setting,
                    frame,
                    rest,
                    constraint,
                    parameter,
                    manage,
                    keep2,
                    next,
                );
                if let Some((Ok(Some(smaller)), _)) = tried {
                    if let Some((Ok(c), _)) = whole {
                        lemma_loop_within(
                            log,
                            at2,
                            setting,
                            frame,
                            rest,
                            constraint,
                            parameter,
                            manage,
                            keep2,
                            next,
                        );
                        lemma_common(cube, smaller);
                        lemma_common_twice(cube, smaller, c);
                    }
                }
            }
        }
    }
}

/// What dropping literals leaves comes in the order in which the literals were tried.
pub proof fn law_in_order(
    log: Seq<Event>,
    at: int,
    setting: Setting,
    frame: usize,
    cube: Seq<Lit>,
    constraint: Seq<Seq<Lit>>,
    parameter: DropVarParameter,
    manage_domain: bool,
)
    ensures
        drop_var_run(
            log,
            at,
            setting,
            frame,
            cube,
            constraint,
            parameter,
            manage_domain,
        ) matches Some((Ok(c), _)) ==> {
            let first = if parameter.level == 0 && manage_domain {
                at + 4
            } else {
                at + 2
            };
            order_run(log, first, setting.order, frame, cube) matches Some((tried, _))
                && tried.filter(|l: Lit| c.contains(l)) == c
        },
{
    let manage = parameter.level == 0 && manage_domain;
    let whole = drop_var_run(
        log,
        at,
        setting,
        frame,
        cube,
        constraint,
        parameter,
        manage_domain,
    );
    if whole is Some {
        let first = if manage {
            at + 4
        } else {
            at + 2
        };
        let ordered = order_run(log, first, setting.order, frame, cube);
        let (tried, at2) = ordered->0;
        assert(ordered is Some && whole == drop_var_loop(
            log,
            at2,
            setting,
            frame,
            tried,
            constraint,
            parameter,
            manage,
            Set::empty(),
            0,
        )) by {
            reveal(drop_var_run);
            reveal(drop_var_loop);
        }
        lemma_loop_in_order(
            log,
            at2,
            setting,
            frame,
            tried,
            constraint,
            parameter,
            manage,
            Set::empty(),
            0,
        );
    }
}

/// After a literal was dropped, what the cube and the core have in common is left, in the order of
/// the cube, and the search goes on with the first literal of it that was not before the one that
/// was dropped. That this is the one itself can only be where the core still has it, which is a
/// fault.
pub proof fn law_resumed(cube: Seq<Lit>, i: int, core: Seq<Lit>)
    requires
        0 <= i < cube.len(),
    ensures
        match resumed(cube, i, core) {
            Ok((rest, next)) => {
                &&& rest == cube.filter(|l: Lit| core.contains(l))
                &&& 0 <= next <= rest.len()
                &&& forall|j: int| 0 <= j < next ==> cube.take(i).contains(#[trigger] rest[j])
                &&& next < rest.len() ==> !cube.take(i + 1).contains(rest[next])
            },
            Err(f) => f == Fault::StrangeCore && core.contains(cube[i]),
        },
{
    let rest = common(cube, core);
    lemma_dealt_with(rest, cube.take(i), 0);
    lemma_dealt_with_next(rest, cube.take(i), 0);
    let next = first_new(rest, cube.take(i), 0);
    lemma_common(cube, core);
    if next < rest.len() && cube.take(i + 1).contains(rest[next]) {
        let head = cube.take(i + 1);
        let k = choose|k: int| 0 <= k < head.len() && head[k] == rest[next];
        if k < i {
            assert(cube.take(i)[k] == rest[next]);
        }
        assert(rest.contains(rest[next]));
    }
}

/// The literal that the search goes on with has not been dealt with.
proof fn lemma_dealt_with_next(lits: Seq<Lit>, done: Seq<Lit>, k: int)
    requires
        0 <= k <= lits.len(),
    ensures
        first_new(lits, done, k) < lits.len() ==> !done.contains(lits[first_new(lits, done, k)]),
    decreases lits.len() - k,
{
    if k < lits.len() && done.contains(lits[k]) {
        lemma_dealt_with_next(lits, done, k + 1);
    }
}

} // verus!
