//! How attempts to shrink and to block cubes end, and what they go on with.

use vstd::prelude::*;

use crate::fault::Fault;
use crate::lit::{common, lemma_common, negated, sorted, subsumes, Lit};
use crate::meaning::within;
use crate::mic::{
    ctg_loop, ctg_run, ctg_turn, drop_run, keeps_run, learn_run, trivial_loop, trivial_run,
    CtgTurn, Setting,
};
use crate::param::DropVarParameter;
use crate::push_laws::{law_kept, law_learned, law_shrunk};
use crate::session::{asked, yes, Call, Event, Tally};
use crate::shrink::{admits, descend_run, down_loop, down_run, shrink_run, step_run};

verus! {

/// Whether the event at `p` finds a literal to keep not to hold in the model of a solver.
pub open spec fn breaks(log: Seq<Event>, p: int, solver: usize, keep: Set<u32>) -> bool {
    &&& 0 <= p < log.len()
    &&& log[p].reply->Value_0 != Some(true)
    &&& log[p].call matches Call::SatValue { solver: s, lit } && s == solver && keep.contains(lit.0)
}

/// Whether the last two events before `at` find a part of a cube blocked under some clauses, and
/// give the core.
pub open spec fn ends_blocked(
    log: Seq<Event>,
    at: int,
    frame: usize,
    cube: Seq<Lit>,
    constraint: Seq<Seq<Lit>>,
    core: Seq<Lit>,
) -> bool {
    &&& asked(log, at - 1, Call::InductiveCore { solver: (frame - 1) as usize })
    &&& log[at - 1].reply->Cube_0 == core
    &&& yes(log, at - 2)
    &&& log[at - 2].call matches Call::BlockedUnder {
        frame: f,
        cube: c,
        strengthen,
        constraint: k,
    } && f == frame && within(c, cube) && strengthen && k == constraint
}

/// Shrinking a cube goes on until a part of it is found blocked, and then gives the core of that
/// answer. It gives up only where the part that is left may meet the initial states or admits a
/// step that was seen, which the last request asks about, or where a literal to keep is found not
/// to hold. Unless the cube itself is given up so, the first question is about it.
pub proof fn law_down(
    log: Seq<Event>,
    at: int,
    frame: usize,
    cube: Seq<Lit>,
    keep: Set<u32>,
    full: Seq<Lit>,
    constraint: Seq<Seq<Lit>>,
    cex: Seq<(Seq<Lit>, Seq<Lit>)>,
)
    ensures
        down_loop(log, at, frame, cube, keep, full, constraint, cex) matches Some((r, all, at2))
            ==> {
            &&& asked(log, at, Call::CubeSubsumeInit { cube })
            &&& at < at2
            &&& yes(log, at) || admits(cube, cex) <==> at2 == at + 1
            &&& at2 > at + 1 ==> asked(log, at + 1, Call::Count { tally: Tally::DownSat })
            &&& at2 > at + 1 ==> asked(
                log,
                at + 2,
                Call::BlockedUnder { frame, cube, strengthen: true, constraint },
            )
            &&& r matches Ok(Some(core)) ==> ends_blocked(
                log,
                at2,
                frame,
                cube,
                constraint,
                core,
            )
            &&& r == Ok::<Option<Seq<Lit>>, Fault>(None) ==> {
                ||| (log[at2 - 1].call matches Call::CubeSubsumeInit { cube: c } && within(c, cube)
                    && (yes(log, at2 - 1) || admits(c, all)))
                ||| exists|p: int|
                    at <= p < at2 && #[trigger] breaks(log, p, (frame - 1) as usize, keep)
            }
        },
    decreases log.len() - at,
{
    reveal(down_loop);
    let solver = (frame - 1) as usize;
    if let Some((r, all, end)) = down_loop(log, at, frame, cube, keep, full, constraint, cex) {
        if !yes(log, at) && !admits(cube, cex) && !yes(log, at + 2) {
            law_shrunk(log, at + 3, solver, keep, cube);
            let (rest, lost, at2) = shrink_run(log, at + 3, solver, keep, cube, 0, seq![])->0;
            lemma_shrink_on(log, at + 3, solver, keep, cube, 0, seq![]);
            let (before, after, at3) = step_run(log, at2, solver, full, 0, seq![], seq![])->0;
            lemma_step_on(log, at2, solver, full, 0, seq![], seq![]);
            if lost {
                assert(breaks(log, at2 - 1, solver, keep));
            } else if rest.len() != cube.len() {
                assert(within(rest, cube));
                law_down(
                    log,
                    at3,
                    frame,
                    rest,
                    keep,
                    full,
                    constraint,
                    cex.push((before, after)),
                );
                if r == Ok::<Option<Seq<Lit>>, Fault>(None) {
                    if exists|p: int| at3 <= p < end && #[trigger] breaks(log, p, solver, keep) {
                        let p = choose|p: int|
                            at3 <= p < end && #[trigger] breaks(log, p, solver, keep);
                        assert(at <= p < end && breaks(log, p, solver, keep));
                    }
                }
            }
        }
    }
}

/// Shrinking with a model takes requests, and leaves a part.
proof fn lemma_shrink_on(
    log: Seq<Event>,
    at: int,
    solver: usize,
    keep: Set<u32>,
    cube: Seq<Lit>,
    k: int,
    kept: Seq<Lit>,
)
    requires
        0 <= k,
        within(kept, cube),
    ensures
        shrink_run(log, at, solver, keep, cube, k, kept) matches Some((rest, lost, at2)) ==> at
            <= at2 && (lost ==> at < at2) && within(rest, cube),
    decreases cube.len() - k,
{
    if k < cube.len() {
        let more = kept.push(cube[k]);
        assert(within(more, cube)) by {
            assert forall|l: Lit| #[trigger] more.contains(l) implies cube.contains(l) by {
                if l != cube[k] {
                    let j = choose|j: int| 0 <= j < more.len() && more[j] == l;
                    assert(kept[j] == l);
                    assert(kept.contains(l));
                }
            }
        }
        lemma_shrink_on(log, at + 1, solver, keep, cube, k + 1, more);
        lemma_shrink_on(log, at + 1, solver, keep, cube, k + 1, kept);
        lemma_shrink_on(log, at + 2, solver, keep, cube, k + 1, more);
        lemma_shrink_on(log, at + 2, solver, keep, cube, k + 1, kept);
    }
}

/// Reading off a step takes requests.
proof fn lemma_step_on(
    log: Seq<Event>,
    at: int,
    solver: usize,
    full: Seq<Lit>,
    k: int,
    before: Seq<Lit>,
    after: Seq<Lit>,
)
    ensures
        step_run(log, at, solver, full, k, before, after) matches Some((_, _, at2)) ==> at <= at2,
    decreases full.len() - k,
{
    if k < full.len() {
        let l = full[k];
        let (before2, at2) = match log[at].reply->Value_0 {
            Some(v) => (
                if yes(log, at + 1) {
                    before
                } else {
                    before.push(l.negation_if(!v))
                },
                at + 2,
            ),
            None => (before, at + 1),
        };
        let after2 = match log[at2 + 1].reply->Value_0 {
            Some(v) => after.push(l.negation_if(!v)),
            None => after,
        };
        lemma_step_on(log, at2 + 2, solver, full, k + 1, before2, after2);
    }
}

/// Whether a model lacks a literal of a cube that is to be kept.
pub open spec fn lacks(cube: Seq<Lit>, keep: Set<u32>, model: Seq<Lit>) -> bool {
    exists|i: int|
        0 <= i < cube.len() && keep.contains((#[trigger] cube[i]).0) && !model.contains(cube[i])
}

/// Whether the last event before `at` is a reason to give a cube up: a part of it may meet the
/// initial states, a literal to keep does not hold in the model, or the predecessor that was read
/// off lacks one.
pub open spec fn ends_given_up(
    log: Seq<Event>,
    at: int,
    frame: usize,
    cube: Seq<Lit>,
    keep: Set<u32>,
) -> bool {
    ||| log[at - 1].call matches Call::CubeSubsumeInit { cube: c } && within(c, cube) && yes(
        log,
        at - 1,
    )
    ||| breaks(log, at - 1, (frame - 1) as usize, keep)
    ||| log[at - 1].call == (Call::GetPred { frame, strengthen: false }) && lacks(
        cube,
        keep,
        log[at - 1].reply->Pred_0,
    )
}

/// A reason to give up a part of a cube is one to give up the cube.
proof fn lemma_given_up(
    log: Seq<Event>,
    at: int,
    frame: usize,
    cube: Seq<Lit>,
    less: Seq<Lit>,
    keep: Set<u32>,
)
    requires
        ends_given_up(log, at, frame, less, keep),
        within(less, cube),
    ensures
        ends_given_up(log, at, frame, cube, keep),
{
    let model = log[at - 1].reply->Pred_0;
    if lacks(less, keep, model) {
        let i = choose|i: int|
            0 <= i < less.len() && keep.contains((#[trigger] less[i]).0) && !model.contains(
                less[i],
            );
        assert(less.contains(less[i]));
        let j = choose|j: int| 0 <= j < cube.len() && cube[j] == less[i];
        assert(keep.contains(cube[j].0));
    }
}

/// Shrinking a cube with predecessors goes on until a part of it is found blocked, and then gives
/// the core of that answer. It gives up only for a reason that the last request gives.
pub proof fn law_ctg_end(
    log: Seq<Event>,
    at: int,
    setting: Setting,
    frame: usize,
    cube: Seq<Lit>,
    keep: Set<u32>,
    full: Seq<Lit>,
    parameter: DropVarParameter,
    ctg: int,
)
    ensures
        ctg_loop(log, at, setting, frame, cube, keep, full, parameter, ctg) matches Some((r, at2))
            ==> {
            &&& asked(log, at, Call::CubeSubsumeInit { cube })
            &&& r matches Ok(Some(core)) ==> {
                &&& asked(log, at2 - 1, Call::InductiveCore { solver: (frame - 1) as usize })
                &&& log[at2 - 1].reply->Cube_0 == core
                &&& yes(log, at2 - 2)
                &&& log[at2 - 2].call matches Call::Blocked { frame: f, cube: c, strengthen } && f
                    == frame && within(c, cube) && strengthen
            }
            &&& r == Ok::<Option<Seq<Lit>>, Fault>(None) ==> ends_given_up(
                log,
                at2,
                frame,
                cube,
                keep,
            )
        },
    decreases log.len() - at,
{
    let whole = ctg_loop(log, at, setting, frame, cube, keep, full, parameter, ctg);
    let solver = (frame - 1) as usize;
    let turn = ctg_turn(log, at, frame, cube, keep, ctg < parameter.max);
    if whole is Some {
        if keeps_run(log, at + 3, solver, keep, cube, 0) is Some {
            law_kept(log, at + 3, solver, keep, cube);
        }
        match turn {
            CtgTurn::Off => {
                reveal(ctg_loop);
            },
            CtgTurn::Over(r, at2) => {
                assert(whole == Some((Ok::<Option<Seq<Lit>>, Fault>(r), at2))) by {
                    reveal(ctg_loop);
                }
            },
            CtgTurn::Shrink(model, at2) => {
                let less = common(cube, model);
                let next = ctg_loop(log, at2, setting, frame, less, keep, full, parameter, 0);
                assert(at < at2 <= log.len() && next == whole || whole == Some(
                    (Err::<Option<Seq<Lit>>, Fault>(Fault::NoProgress), at2),
                )) by {
                    reveal(ctg_loop);
                }
                lemma_common(cube, model);
                if at < at2 <= log.len() {
                    law_ctg_end(log, at2, setting, frame, less, keep, full, parameter, 0);
                    if let Some((Ok(None), end)) = next {
                        lemma_given_up(log, end, frame, cube, less, keep);
                    }
                }
            },
            CtgTurn::Block(model, at2) => {
                let tried = trivial_run(
                    log,
                    at2,
                    setting,
                    (frame - 1) as usize,
                    sorted(model),
                    seq![negated(full)],
                    parameter.limit,
                    parameter.sub_level_spec(),
                );
                lemma_common(cube, model);
                assert(tried is Some && match tried->0 {
                    (Err(f), _, at3) => whole == Some((Err::<Option<Seq<Lit>>, Fault>(f), at3)),
                    (Ok(blocked), _, at3) => {
                        let less = if blocked {
                            cube
                        } else {
                            common(cube, model)
                        };
                        let count = if blocked {
                            ctg + 1
                        } else {
                            0
                        };
                        at < at3 <= log.len() && ctg_loop(
                            log,
                            at3,
                            setting,
                            frame,
                            less,
                            keep,
                            full,
                            parameter,
                            count,
                        ) == whole || whole == Some(
                            (Err::<Option<Seq<Lit>>, Fault>(Fault::NoProgress), at3),
                        )
                    },
                }) by {
                    reveal(ctg_loop);
                    reveal(trivial_run);
                }
                if let (Ok(blocked), _, at3) = tried->0 {
                    let less = if blocked {
                        cube
                    } else {
                        common(cube, model)
                    };
                    let count = if blocked {
                        ctg + 1
                    } else {
                        0
                    };
                    if at < at3 <= log.len() {
                        law_ctg_end(log, at3, setting, frame, less, keep, full, parameter, count);
                        if let Some((Ok(None), end)) = whole {
                            lemma_given_up(log, end, frame, cube, less, keep);
                        }
                    }
                }
            },
        }
    }
}

/// What is made of a predecessor that lacks no literal to keep, where `ctg` have been blocked in a
/// row. Where one more may be, and it is not at the first frame nor an initial state, it is to be
/// blocked in the frame before, among the states outside of the cube that literals are dropped
/// from. Where that works the same cube is tried again, with one more blocked in a row. In all
/// other cases what the cube and the predecessor have in common is tried next, with none, and where
/// that is the whole cube, the search is over.
pub proof fn law_ctg_model(
    log: Seq<Event>,
    at: int,
    setting: Setting,
    frame: usize,
    cube: Seq<Lit>,
    keep: Set<u32>,
    full: Seq<Lit>,
    parameter: DropVarParameter,
    ctg: int,
    g: int,
)
    requires
        ctg_loop(log, at, setting, frame, cube, keep, full, parameter, ctg) is Some,
        !yes(log, at),
        !yes(log, at + 2),
        keeps_run(log, at + 3, (frame - 1) as usize, keep, cube, 0) == Some((true, g)),
        !lacks(cube, keep, log[g].reply->Pred_0),
    ensures
        ({
            let (r, end) = ctg_loop(
                log,
                at,
                setting,
                frame,
                cube,
                keep,
                full,
                parameter,
                ctg,
            )->0;
            let model = log[g].reply->Pred_0;
            let less = common(cube, model);
            let more = ctg < parameter.max && frame > 1;
            let block = more && !yes(log, g + 1);
            let h = if more {
                g + 2
            } else {
                g + 1
            };
            let tried = trivial_run(
                log,
                g + 2,
                setting,
                (frame - 1) as usize,
                sorted(model),
                seq![negated(full)],
                parameter.limit,
                DropVarParameter { level: (parameter.level - 1) as usize, ..parameter },
            );
            &&& asked(log, at + 1, Call::Count { tally: Tally::DownSat })
            &&& asked(log, at + 2, Call::Blocked { frame, cube, strengthen: true })
            &&& asked(log, g, Call::GetPred { frame, strengthen: false })
            &&& more ==> asked(log, g + 1, Call::CubeSubsumeInit { cube: model })
            &&& block ==> {
                &&& tried is Some
                &&& asked(log, g + 2, Call::CubeSubsumeInit { cube: sorted(model) })
                &&& !yes(log, g + 2) && parameter.limit > 0 ==> asked(
                    log,
                    g + 3,
                    Call::BlockedUnder {
                        frame: (frame - 1) as usize,
                        cube: sorted(model),
                        strengthen: true,
                        constraint: seq![negated(full)],
                    },
                )
                &&& tried matches Some((Ok(true), _, at3)) ==> {
                    &&& asked(log, at3, Call::CubeSubsumeInit { cube })
                    &&& ctg_loop(
                        log,
                        at3,
                        setting,
                        frame,
                        cube,
                        keep,
                        full,
                        parameter,
                        ctg + 1,
                    ) == Some((r, end))
                }
                &&& tried matches Some((Ok(false), _, at3)) ==> if less.len() == cube.len() {
                    r == Err::<Option<Seq<Lit>>, Fault>(Fault::NoProgress) && end == at3
                } else {
                    &&& asked(log, at3, Call::CubeSubsumeInit { cube: less })
                    &&& ctg_loop(log, at3, setting, frame, less, keep, full, parameter, 0) == Some(
                        (r, end),
                    )
                }
            }
            &&& !block ==> if less.len() == cube.len() {
                r == Err::<Option<Seq<Lit>>, Fault>(Fault::NoProgress) && end == h
            } else {
                &&& asked(log, h, Call::CubeSubsumeInit { cube: less })
                &&& ctg_loop(log, h, setting, frame, less, keep, full, parameter, 0) == Some(
                    (r, end),
                )
            }
        }),
{
    let whole = ctg_loop(log, at, setting, frame, cube, keep, full, parameter, ctg);
    let model = log[g].reply->Pred_0;
    let less = common(cube, model);
    let more = ctg < parameter.max && frame > 1;
    let h = if more {
        g + 2
    } else {
        g + 1
    };
    let turn = ctg_turn(log, at, frame, cube, keep, ctg < parameter.max);
    assert(!(turn is Off)) by {
        reveal(ctg_loop);
    }
    if more && !yes(log, g + 1) {
        assert(turn == CtgTurn::Block(model, g + 2));
        let sub = DropVarParameter { level: (parameter.level - 1) as usize, ..parameter };
        assert(parameter.level > 0 && sub == parameter.sub_level_spec()) by {
            reveal(ctg_loop);
        }
        let tried = trivial_run(
            log,
            g + 2,
            setting,
            (frame - 1) as usize,
            sorted(model),
            seq![negated(full)],
            parameter.limit,
            sub,
        );
        assert(tried is Some && match tried->0 {
            (Err(f), _, at3) => true,
            (Ok(blocked), _, at3) => if !blocked && less.len() == cube.len() {
                whole == Some((Err::<Option<Seq<Lit>>, Fault>(Fault::NoProgress), at3))
            } else {
                ctg_loop(
                    log,
                    at3,
                    setting,
                    frame,
                    if blocked {
                        cube
                    } else {
                        less
                    },
                    keep,
                    full,
                    parameter,
                    if blocked {
                        ctg + 1
                    } else {
                        0
                    },
                ) == whole
            },
        }) by {
            reveal(ctg_loop);
            reveal(trivial_run);
        }
        assert(asked(log, g + 2, Call::CubeSubsumeInit { cube: sorted(model) })) by {
            reveal(trivial_run);
        }
        if !yes(log, g + 2) && parameter.limit > 0 {
            assert(trivial_loop(
                log,
                g + 3,
                setting,
                (frame - 1) as usize,
                sorted(model),
                seq![negated(full)],
                (parameter.limit - 1) as usize,
                sub,
            ) is Some) by {
                reveal(trivial_run);
                reveal(trivial_loop);
            }
            assert(asked(
                log,
                g + 3,
                Call::BlockedUnder {
                    frame: (frame - 1) as usize,
                    cube: sorted(model),
                    strengthen: true,
                    constraint: seq![negated(full)],
                },
            )) by {
                reveal(trivial_loop);
            }
        }
        if let (Ok(blocked), _, at3) = tried->0 {
            if blocked {
                law_ctg_end(log, at3, setting, frame, cube, keep, full, parameter, ctg + 1);
            } else if less.len() != cube.len() {
                law_ctg_end(log, at3, setting, frame, less, keep, full, parameter, 0);
            }
        }
    } else {
        assert(turn == CtgTurn::Shrink(model, h));
        assert(if less.len() == cube.len() {
            whole == Some((Err::<Option<Seq<Lit>>, Fault>(Fault::NoProgress), h))
        } else {
            ctg_loop(log, h, setting, frame, less, keep, full, parameter, 0) == whole
        }) by {
            reveal(ctg_loop);
        }
        if less.len() != cube.len() {
            law_ctg_end(log, h, setting, frame, less, keep, full, parameter, 0);
        }
    }
}

/// Whether an attempt to block ended before `at` for one of the reasons that there are: no cube is
/// left to try, the last request says that a predecessor may be an initial state, or it gives a
/// predecessor of the first frame.
pub open spec fn ends_unblocked(log: Seq<Event>, at: int, limit: usize) -> bool {
    ||| limit == 0
    ||| log[at - 1].call is CubeSubsumeInit && yes(log, at - 1)
    ||| log[at - 1].call == (Call::GetPred { frame: 1, strengthen: false })
}

/// Whether the last event before `at` adds a lemma, for no obligation.
pub open spec fn ends_learned(log: Seq<Event>, at: int, frame: usize) -> bool {
    log[at - 1].call matches Call::AddLemma { frame: f, owner, .. } && f >= frame && owner is None
}

/// How an attempt to block a cube ends.
proof fn lemma_trivial_end(
    log: Seq<Event>,
    at: int,
    setting: Setting,
    frame: usize,
    lemma: Seq<Lit>,
    constraint: Seq<Seq<Lit>>,
    limit: usize,
    parameter: DropVarParameter,
)
    requires
        0 <= at <= log.len(),
        0 < frame <= setting.level < usize::MAX,
    ensures
        trivial_run(log, at, setting, frame, lemma, constraint, limit, parameter) matches Some(
            (r, limit2, at2),
        ) ==> {
            &&& limit2 <= limit
            &&& r == Ok::<bool, Fault>(true) ==> limit2 < limit && ends_learned(log, at2, frame)
            &&& r == Ok::<bool, Fault>(false) ==> ends_unblocked(log, at2, limit2)
        },
    decreases log.len() - at, 1int,
{
    let whole = trivial_run(log, at, setting, frame, lemma, constraint, limit, parameter);
    if whole is Some {
        if asked(log, at, Call::CubeSubsumeInit { cube: lemma }) && !yes(log, at) && limit > 0 {
            assert(whole == trivial_loop(
                log,
                at + 1,
                setting,
                frame,
                lemma,
                constraint,
                (limit - 1) as usize,
                parameter,
            )) by {
                reveal(trivial_run);
                reveal(trivial_loop);
            }
            lemma_trivial_loop_end(
                log,
                at + 1,
                setting,
                frame,
                lemma,
                constraint,
                (limit - 1) as usize,
                parameter,
            );
        } else {
            assert(asked(log, at, Call::CubeSubsumeInit { cube: lemma }) && (yes(log, at) || limit
                == 0) && whole == Some((Ok::<bool, Fault>(false), limit, at + 1))) by {
                reveal(trivial_run);
            }
        }
    }
}

/// How the attempts on one cube end.
proof fn lemma_trivial_loop_end(
    log: Seq<Event>,
    at: int,
    setting: Setting,
    frame: usize,
    lemma: Seq<Lit>,
    constraint: Seq<Seq<Lit>>,
    limit: usize,
    parameter: DropVarParameter,
)
    requires
        0 <= at <= log.len(),
        0 < frame <= setting.level < usize::MAX,
    ensures
        trivial_loop(log, at, setting, frame, lemma, constraint, limit, parameter) matches Some(
            (r, limit2, at2),
        ) ==> {
            &&& limit2 <= limit
            &&& r == Ok::<bool, Fault>(true) ==> ends_learned(log, at2, frame)
            &&& r == Ok::<bool, Fault>(false) ==> ends_unblocked(log, at2, limit2)
        },
    decreases log.len() - at, 0int,
{
    let whole = trivial_loop(log, at, setting, frame, lemma, constraint, limit, parameter);
    if whole is Some {
        assert(asked(
            log,
            at,
            Call::BlockedUnder { frame, cube: lemma, strengthen: true, constraint },
        )) by {
            reveal(trivial_loop);
        }
        if yes(log, at) {
            let core = log[at + 1].reply->Cube_0;
            let mic = drop_run(log, at + 2, setting, frame, core, constraint, parameter);
            assert(mic is Some && match mic->0 {
                (Err(f), at2) => whole == Some((Err::<bool, Fault>(f), limit, at2)),
                (Ok(c), at2) => learn_run(log, at2, setting.level, frame, c) is Some && whole
                    == Some(
                    (
                        Ok::<bool, Fault>(true),
                        limit,
                        learn_run(log, at2, setting.level, frame, c)->0,
                    ),
                ),
            }) by {
                reveal(trivial_loop);
                reveal(drop_run);
            }
            if let (Ok(c), at2) = mic->0 {
                law_learned(log, at2, setting.level, frame, c);
            }
        } else if limit == 0 {
            assert(whole == Some((Ok::<bool, Fault>(false), limit, at + 1))) by {
                reveal(trivial_loop);
            }
        } else {
            let model = sorted(log[at + 1].reply->Pred_0);
            let before = (frame - 1) as usize;
            let inner = trivial_run(
                log,
                at + 2,
                setting,
                before,
                model,
                constraint,
                limit,
                parameter,
            );
            assert(asked(log, at + 1, Call::GetPred { frame, strengthen: false }) && inner is Some
                && match inner->0 {
                (Ok(true), limit2, at2) => at < at2 <= log.len() && whole == trivial_loop(
                    log,
                    at2,
                    setting,
                    frame,
                    lemma,
                    constraint,
                    limit2,
                    parameter,
                ),
                (_, _, _) => whole == inner,
            }) by {
                reveal(trivial_loop);
                reveal(trivial_run);
            }
            if before > 0 {
                lemma_trivial_end(
                    log,
                    at + 2,
                    setting,
                    before,
                    model,
                    constraint,
                    limit,
                    parameter,
                );
            } else {
                assert(inner == Some((Ok::<bool, Fault>(false), limit, at + 2))) by {
                    reveal(trivial_run);
                }
            }
            if let (Ok(true), limit2, at2) = inner->0 {
                lemma_trivial_loop_end(
                    log,
                    at2,
                    setting,
                    frame,
                    lemma,
                    constraint,
                    limit2,
                    parameter,
                );
            }
        }
    }
}

/// An attempt to block a cube: the cube must not be one that may meet the initial states, and it is
/// one of those that may be tried. Where it is found blocked, the core is generalized, and a lemma
/// that excludes it is added, to the frame or to a later one. Otherwise, where more cubes may be
/// tried, its predecessor is to be blocked one frame earlier. The attempt fails only for one of the
/// reasons that there are; where it succeeds, at least one cube fewer is left to try.
pub proof fn law_trivial(
    log: Seq<Event>,
    at: int,
    setting: Setting,
    frame: usize,
    lemma: Seq<Lit>,
    constraint: Seq<Seq<Lit>>,
    limit: usize,
    parameter: DropVarParameter,
)
    requires
        0 <= at <= log.len(),
        0 < frame <= setting.level < usize::MAX,
        trivial_run(log, at, setting, frame, lemma, constraint, limit, parameter) is Some,
    ensures
        ({
            let (r, limit2, at2) = trivial_run(
                log,
                at,
                setting,
                frame,
                lemma,
                constraint,
                limit,
                parameter,
            )->0;
            let goes_on = !yes(log, at) && limit > 0;
            let mic = drop_run(
                log,
                at + 3,
                setting,
                frame,
                log[at + 2].reply->Cube_0,
                constraint,
                parameter,
            );
            &&& asked(log, at, Call::CubeSubsumeInit { cube: lemma })
            &&& !goes_on ==> r == Ok::<bool, Fault>(false) && limit2 == limit && at2 == at + 1
            &&& goes_on ==> asked(
                log,
                at + 1,
                Call::BlockedUnder { frame, cube: lemma, strengthen: true, constraint },
            )
            &&& goes_on && yes(log, at + 1) ==> {
                &&& asked(log, at + 2, Call::InductiveCore { solver: (frame - 1) as usize })
                &&& limit2 == limit - 1
                &&& mic matches Some((Ok(c), at3)) ==> {
                    &&& r == Ok::<bool, Fault>(true)
                    &&& learn_run(log, at3, setting.level, frame, c) == Some(at2)
                }
                &&& mic matches Some((Err(f), _)) ==> r == Err::<bool, Fault>(f)
                &&& mic is Some
            }
            &&& goes_on && !yes(log, at + 1) && limit == 1 ==> r == Ok::<bool, Fault>(false)
                && limit2 == 0 && at2 == at + 2
            &&& goes_on && !yes(log, at + 1) && limit > 1 ==> {
                &&& asked(log, at + 2, Call::GetPred { frame, strengthen: false })
                &&& frame > 1 ==> asked(
                    log,
                    at + 3,
                    Call::CubeSubsumeInit { cube: sorted(log[at + 2].reply->Pred_0) },
                )
            }
            &&& limit2 <= limit
            &&& r == Ok::<bool, Fault>(true) ==> limit2 < limit && ends_learned(log, at2, frame)
            &&& r == Ok::<bool, Fault>(false) ==> ends_unblocked(log, at2, limit2)
        }),
{
    let whole = trivial_run(log, at, setting, frame, lemma, constraint, limit, parameter);
    lemma_trivial_end(log, at, setting, frame, lemma, constraint, limit, parameter);
    assert(asked(log, at, Call::CubeSubsumeInit { cube: lemma }) && (yes(log, at) || limit == 0
        ==> whole == Some((Ok::<bool, Fault>(false), limit, at + 1)))) by {
        reveal(trivial_run);
    }
    if !yes(log, at) && limit > 0 {
        let left = (limit - 1) as usize;
        let inner = trivial_loop(
            log,
            at + 1,
            setting,
            frame,
            lemma,
            constraint,
            left,
            parameter,
        );
        assert(whole == inner) by {
            reveal(trivial_run);
            reveal(trivial_loop);
        }
        assert(asked(
            log,
            at + 1,
            Call::BlockedUnder { frame, cube: lemma, strengthen: true, constraint },
        )) by {
            reveal(trivial_loop);
        }
        let core = log[at + 2].reply->Cube_0;
        let mic = drop_run(log, at + 3, setting, frame, core, constraint, parameter);
        if yes(log, at + 1) {
            assert(asked(log, at + 2, Call::InductiveCore { solver: (frame - 1) as usize }) && mic
                is Some && match mic->0 {
                (Err(f), at2) => inner == Some((Err::<bool, Fault>(f), left, at2)),
                (Ok(c), at2) => learn_run(log, at2, setting.level, frame, c) is Some && inner
                    == Some(
                    (
                        Ok::<bool, Fault>(true),
                        left,
                        learn_run(log, at2, setting.level, frame, c)->0,
                    ),
                ),
            }) by {
                reveal(trivial_loop);
                reveal(drop_run);
            }
        } else if limit == 1 {
            assert(inner == Some((Ok::<bool, Fault>(false), left, at + 2))) by {
                reveal(trivial_loop);
            }
        } else {
            let model = sorted(log[at + 2].reply->Pred_0);
            let before = (frame - 1) as usize;
            assert(asked(log, at + 2, Call::GetPred { frame, strengthen: false }) && trivial_run(
                log,
                at + 3,
                setting,
                before,
                model,
                constraint,
                left,
                parameter,
            ) is Some) by {
                reveal(trivial_loop);
                reveal(trivial_run);
            }
            assert(frame > 1 ==> asked(log, at + 3, Call::CubeSubsumeInit { cube: model })) by {
                reveal(trivial_run);
            }
        }
    }
}

/// An attempt that may block predecessors is counted, and starts with none blocked.
pub proof fn law_ctg_start(
    log: Seq<Event>,
    at: int,
    setting: Setting,
    frame: usize,
    cube: Seq<Lit>,
    keep: Set<u32>,
    full: Seq<Lit>,
    parameter: DropVarParameter,
)
    requires
        ctg_run(log, at, setting, frame, cube, keep, full, parameter) is Some,
    ensures
        asked(log, at, Call::Count { tally: Tally::Down }),
        asked(log, at + 1, Call::CubeSubsumeInit { cube }),
        ctg_run(log, at, setting, frame, cube, keep, full, parameter) == ctg_loop(
            log,
            at + 1,
            setting,
            frame,
            cube,
            keep,
            full,
            parameter,
            0,
        ),
{
    assert(asked(log, at, Call::Count { tally: Tally::Down }) && ctg_run(
        log,
        at,
        setting,
        frame,
        cube,
        keep,
        full,
        parameter,
    ) == ctg_loop(log, at + 1, setting, frame, cube, keep, full, parameter, 0)) by {
        reveal(ctg_run);
        reveal(ctg_loop);
    }
    law_ctg_end(log, at + 1, setting, frame, cube, keep, full, parameter, 0);
}

/// An attempt that blocks none is counted, and starts with no step seen.
pub proof fn law_down_start(
    log: Seq<Event>,
    at: int,
    frame: usize,
    cube: Seq<Lit>,
    keep: Set<u32>,
    full: Seq<Lit>,
    constraint: Seq<Seq<Lit>>,
)
    requires
        down_run(log, at, frame, cube, keep, full, constraint) is Some,
    ensures
        asked(log, at, Call::Count { tally: Tally::Down }),
        asked(log, at + 1, Call::CubeSubsumeInit { cube }),
        down_loop(log, at + 1, frame, cube, keep, full, constraint, seq![]) matches Some(
            (r, _, at2),
        ) && down_run(log, at, frame, cube, keep, full, constraint) == Some((r, at2)),
{
    reveal(down_run);
    reveal(descend_run);
    law_down(log, at + 1, frame, cube, keep, full, constraint, seq![]);
}

/// A model that is held against a cube adds its step to those that were seen, as a state and its
/// successor. Where no literal to keep is lost, what the model needs of the cube is tried next, and
/// where that is the whole cube, the search is over.
pub proof fn law_down_model(
    log: Seq<Event>,
    at: int,
    frame: usize,
    cube: Seq<Lit>,
    keep: Set<u32>,
    full: Seq<Lit>,
    constraint: Seq<Seq<Lit>>,
    cex: Seq<(Seq<Lit>, Seq<Lit>)>,
)
    requires
        down_loop(log, at, frame, cube, keep, full, constraint, cex) is Some,
        !yes(log, at),
        !admits(cube, cex),
        !yes(log, at + 2),
    ensures
        ({
            let (r, all, end) = down_loop(
                log,
                at,
                frame,
                cube,
                keep,
                full,
                constraint,
                cex,
            )->0;
            let solver = (frame - 1) as usize;
            shrink_run(log, at + 3, solver, keep, cube, 0, seq![]) matches Some((rest, lost, at2))
                && {
                step_run(log, at2, solver, full, 0, seq![], seq![]) matches Some(
                    (before, after, at3),
                ) && {
                    let seen = cex.push((before, after));
                    &&& lost ==> r == Ok::<Option<Seq<Lit>>, Fault>(None) && all == seen && end
                        == at3
                    &&& !lost && rest.len() == cube.len() ==> r == Err::<Option<Seq<Lit>>, Fault>(
                        Fault::NoProgress,
                    ) && end == at3
                    &&& !lost && rest.len() != cube.len() ==> down_loop(
                        log,
                        at3,
                        frame,
                        rest,
                        keep,
                        full,
                        constraint,
                        seen,
                    ) == Some((r, all, end))
                }
            }
        }),
{
    reveal_with_fuel(down_loop, 2);
}

/// A cube admits a step that was seen where the successor has all its literals, and the state does
/// not, by number or by one that it lacks.
pub proof fn law_admits(cube: Seq<Lit>, cex: Seq<(Seq<Lit>, Seq<Lit>)>)
    ensures
        admits(cube, cex) <==> exists|i: int|
            {
                let (before, after) = #[trigger] cex[i];
                &&& 0 <= i < cex.len()
                &&& cube.len() <= after.len() && within(cube, after)
                &&& cube.len() > before.len() || exists|k: int|
                    0 <= k < cube.len() && !before.contains(#[trigger] cube[k])
            },
{
    assert forall|d: Seq<Lit>| #[trigger] subsumes(cube, d) <==> cube.len() <= d.len() && within(
        cube,
        d,
    ) by {
        if within(cube, d) {
            assert forall|i: int| 0 <= i < cube.len() implies d.contains(#[trigger] cube[i]) by {
                assert(cube.contains(cube[i]));
            }
        }
    }
    assert forall|i: int| 0 <= i < cex.len() implies (subsumes(cube, (#[trigger] cex[i]).0)
        <==> !(cube.len() > cex[i].0.len() || exists|k: int|
        0 <= k < cube.len() && !cex[i].0.contains(#[trigger] cube[k]))) by {
    }
}

/// When shrinking a cube is over at once: where it may meet the initial states or admits a step that
/// was seen, it is given up, without a question; and where it is found blocked, the core is what
/// comes out. No step is added then.
pub proof fn law_down_over(
    log: Seq<Event>,
    at: int,
    frame: usize,
    cube: Seq<Lit>,
    keep: Set<u32>,
    full: Seq<Lit>,
    constraint: Seq<Seq<Lit>>,
    cex: Seq<(Seq<Lit>, Seq<Lit>)>,
)
    ensures
        down_loop(log, at, frame, cube, keep, full, constraint, cex) matches Some((r, all, at2))
            ==> {
            let over = yes(log, at) || admits(cube, cex);
            &&& over ==> r == Ok::<Option<Seq<Lit>>, Fault>(None) && all == cex && at2 == at + 1
            &&& !over && yes(log, at + 2) ==> {
                &&& r == Ok::<Option<Seq<Lit>>, Fault>(Some(log[at + 3].reply->Cube_0))
                &&& asked(log, at + 3, Call::InductiveCore { solver: (frame - 1) as usize })
                &&& all == cex && at2 == at + 4
            }
        },
{
    reveal(down_loop);
}

/// When shrinking a cube with predecessors is over at once: where the cube may meet the initial
/// states, or the model or the predecessor lacks a literal to keep, it is given up; and where it is
/// found blocked, the core is what comes out.
pub proof fn law_ctg_over(
    log: Seq<Event>,
    at: int,
    setting: Setting,
    frame: usize,
    cube: Seq<Lit>,
    keep: Set<u32>,
    full: Seq<Lit>,
    parameter: DropVarParameter,
    ctg: int,
)
    ensures
        ctg_loop(log, at, setting, frame, cube, keep, full, parameter, ctg) matches Some((r, at2))
            ==> {
            let solver = (frame - 1) as usize;
            let none = Ok::<Option<Seq<Lit>>, Fault>(None);
            &&& yes(log, at) ==> r == none && at2 == at + 1
            &&& !yes(log, at) && yes(log, at + 2) ==> {
                &&& r == Ok::<Option<Seq<Lit>>, Fault>(Some(log[at + 3].reply->Cube_0))
                &&& asked(log, at + 3, Call::InductiveCore { solver })
                &&& at2 == at + 4
            }
            &&& !yes(log, at) && !yes(log, at + 2) ==> (keeps_run(
                log,
                at + 3,
                solver,
                keep,
                cube,
                0,
            ) matches Some((all, g)) && {
                &&& !all ==> r == none && at2 == g
                &&& all && lacks(cube, keep, log[g].reply->Pred_0) ==> r == none && at2 == g + 1
            })
        },
{
    let turn = ctg_turn(log, at, frame, cube, keep, ctg < parameter.max);
    let whole = ctg_loop(log, at, setting, frame, cube, keep, full, parameter, ctg);
    if whole is Some {
        assert(!(turn is Off) && (turn matches CtgTurn::Over(r, at2) ==> whole == Some(
            (Ok::<Option<Seq<Lit>>, Fault>(r), at2),
        ))) by {
            reveal(ctg_loop);
        }
    }
}

} // verus!
