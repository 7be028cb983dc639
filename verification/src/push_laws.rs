//! What pushing a cube and reading off a model come to, request by request.

use vstd::prelude::*;

use crate::lit::Lit;
use crate::mic::{keeps_run, learn_run, push_run};
use crate::session::{asked, yes, Call, Event};
use crate::shrink::{shrink_run, step_run};

verus! {

/// The cube that is asked about after `k` frames: the one that is pushed, and then the last core.
pub open spec fn core_after(log: Seq<Event>, at: int, cube: Seq<Lit>, k: int) -> Seq<Lit> {
    if k == 0 {
        cube
    } else {
        log[at + 2 * k - 1].reply->Cube_0
    }
}

/// Whether the cube got past one more frame after `k`: it is inductive there, and shrunk to the
/// core.
pub open spec fn got_past(log: Seq<Event>, at: int, frame: int, cube: Seq<Lit>, k: int) -> bool {
    let solver = (frame + k) as usize;
    &&& asked(
        log,
        at + 2 * k,
        Call::Inductive { solver, cube: core_after(log, at, cube, k), strengthen: true },
    )
    &&& yes(log, at + 2 * k)
    &&& asked(log, at + 2 * k + 1, Call::InductiveCore { solver })
}

/// A cube is pushed from frame to frame as long as it is inductive, and to the core each time. The
/// frame that is reached counts the answers that said so. What is left is the last core, or the
/// cube where there is none. The last frame is passed unless an answer says that the cube is not
/// inductive, and that answer is the last.
pub proof fn law_pushed(log: Seq<Event>, at: int, level: usize, frame: int, cube: Seq<Lit>)
    requires
        0 <= frame <= level,
    ensures
        push_run(log, at, level, frame + 1, cube) matches Some((reached, left, at2)) ==> {
            let n = reached - frame - 1;
            &&& frame < reached <= level + 1
            &&& forall|k: int| 0 <= k < n ==> #[trigger] got_past(log, at, frame, cube, k)
            &&& left == core_after(log, at, cube, n)
            &&& reached > level ==> at2 == at + 2 * n
            &&& reached <= level ==> {
                &&& at2 == at + 2 * n + 1
                &&& asked(
                    log,
                    at + 2 * n,
                    Call::Inductive {
                        solver: (reached - 1) as usize,
                        cube: left,
                        strengthen: true,
                    },
                )
                &&& !yes(log, at + 2 * n)
            }
        },
    decreases level - frame,
{
    if frame < level {
        if let Some((reached, left, at2)) = push_run(log, at, level, frame + 1, cube) {
            if yes(log, at) {
                let core = log[at + 1].reply->Cube_0;
                law_pushed(log, at + 2, level, frame + 1, core);
                let n = reached - frame - 1;
                assert forall|k: int| 0 <= k < n implies #[trigger] got_past(
                    log,
                    at,
                    frame,
                    cube,
                    k,
                ) by {
                    if k > 0 {
                        assert(got_past(log, at + 2, frame + 1, core, k - 1));
                        assert(at + 2 + 2 * (k - 1) == at + 2 * k);
                    }
                }
                assert(at + 2 + 2 * (n - 1) == at + 2 * n);
            }
        }
    }
}

/// A lemma that is learned is added to the frame before the first that its cube did not get past,
/// as it is left there: the last request adds it, and the one before it says that the next frame
/// does not exclude it, unless it is the last frame.
pub proof fn law_learned(log: Seq<Event>, at: int, level: usize, frame: usize, cube: Seq<Lit>)
    requires
        frame <= level < usize::MAX,
    ensures
        learn_run(log, at, level, frame, cube) matches Some(at2) ==> {
            &&& log[at2 - 1].call matches Call::AddLemma {
                frame: f,
                cube: c,
                contained_check,
                owner,
            } && {
                let n = f - frame;
                &&& frame <= f <= level
                &&& c == core_after(log, at, cube, n)
                &&& !contained_check
                &&& owner is None
                &&& forall|k: int|
                    0 <= k < n ==> #[trigger] got_past(log, at, frame as int, cube, k)
                &&& f < level ==> log[at2 - 2].call == (Call::Inductive {
                    solver: f,
                    cube: c,
                    strengthen: true,
                }) && !yes(log, at2 - 2)
            }
        },
{
    law_pushed(log, at, level, frame as int, cube);
}

/// Whether a literal is found to hold in the model of a solver, between two events.
pub open spec fn found_true(log: Seq<Event>, at: int, to: int, solver: usize, lit: Lit) -> bool {
    exists|p: int|
        at <= p < to && #[trigger] asked(log, p, Call::SatValue { solver, lit })
            && log[p].reply->Value_0 == Some(true)
}

/// All literals to keep are found to hold, or the last one that is asked about is found not to.
proof fn lemma_kept(
    log: Seq<Event>,
    at: int,
    solver: usize,
    keep: Set<u32>,
    cube: Seq<Lit>,
    k: int,
)
    requires
        0 <= k,
    ensures
        keeps_run(log, at, solver, keep, cube, k) matches Some((all, at2)) ==> {
            &&& at <= at2
            &&& all ==> forall|i: int|
                k <= i < cube.len() && keep.contains((#[trigger] cube[i]).0) ==> found_true(
                    log,
                    at,
                    at2,
                    solver,
                    cube[i],
                )
            &&& !all ==> exists|i: int|
                k <= i < cube.len() && keep.contains((#[trigger] cube[i]).0) && at < at2 && asked(
                    log,
                    at2 - 1,
                    Call::SatValue { solver, lit: cube[i] },
                ) && log[at2 - 1].reply->Value_0 != Some(true)
        },
    decreases cube.len() - k,
{
    if k < cube.len() {
        if !keep.contains(cube[k].0) {
            lemma_kept(log, at, solver, keep, cube, k + 1);
        } else if asked(log, at, Call::SatValue { solver, lit: cube[k] }) {
            if log[at].reply->Value_0 == Some(true) {
                lemma_kept(log, at + 1, solver, keep, cube, k + 1);
                if let Some((all, at2)) = keeps_run(log, at, solver, keep, cube, k) {
                    if all {
                        assert forall|i: int|
                            k <= i < cube.len() && keep.contains(
                                (#[trigger] cube[i]).0,
                            ) implies found_true(log, at, at2, solver, cube[i]) by {
                            if i > k {
                                assert(found_true(log, at + 1, at2, solver, cube[i]));
                            }
                        }
                    }
                }
            } else {
                assert(keep.contains(cube[k].0));
            }
        }
    }
}

/// The literals to keep are said to hold where each of them in the cube is found to hold in the
/// model. Otherwise the last request finds one of them not to hold.
pub proof fn law_kept(log: Seq<Event>, at: int, solver: usize, keep: Set<u32>, cube: Seq<Lit>)
    ensures
        keeps_run(log, at, solver, keep, cube, 0) matches Some((all, at2)) ==> {
            &&& all ==> forall|i: int|
                0 <= i < cube.len() && keep.contains((#[trigger] cube[i]).0) ==> found_true(
                    log,
                    at,
                    at2,
                    solver,
                    cube[i],
                )
            &&& !all ==> exists|i: int|
                0 <= i < cube.len() && keep.contains((#[trigger] cube[i]).0) && at < at2 && asked(
                    log,
                    at2 - 1,
                    Call::SatValue { solver, lit: cube[i] },
                ) && log[at2 - 1].reply->Value_0 != Some(true)
        },
{
    lemma_kept(log, at, solver, keep, cube, 0);
}

/// Whether the event at `p` asks for the value of a literal, and what follows says that the literal
/// is to stay: it holds, and is to be kept or the model rests on it.
pub open spec fn stays(
    log: Seq<Event>,
    p: int,
    solver: usize,
    keep: Set<u32>,
    lit: Lit,
) -> bool {
    &&& asked(log, p, Call::SatValue { solver, lit })
    &&& log[p].reply->Value_0 == Some(true)
    &&& keep.contains(lit.0) || asked(
        log,
        p + 1,
        Call::FlipToNone { solver, var: lit.var_spec() },
    ) && !yes(log, p + 1)
}

/// Whether the event at `p` asks for the value of a literal, and what follows says that it can go:
/// it is not to be kept, and does not hold or the model does without it.
pub open spec fn goes(
    log: Seq<Event>,
    p: int,
    solver: usize,
    keep: Set<u32>,
    lit: Lit,
) -> bool {
    &&& asked(log, p, Call::SatValue { solver, lit })
    &&& !keep.contains(lit.0)
    &&& log[p].reply->Value_0 == Some(true) ==> asked(
        log,
        p + 1,
        Call::FlipToNone { solver, var: lit.var_spec() },
    ) && yes(log, p + 1)
}

/// Whether a literal is to stay by some event between two.
pub open spec fn has_to_stay(
    log: Seq<Event>,
    at: int,
    to: int,
    solver: usize,
    keep: Set<u32>,
    lit: Lit,
) -> bool {
    exists|p: int| at <= p < to && #[trigger] stays(log, p, solver, keep, lit)
}

/// Whether a literal can go by some event between two.
pub open spec fn can_go(
    log: Seq<Event>,
    at: int,
    to: int,
    solver: usize,
    keep: Set<u32>,
    lit: Lit,
) -> bool {
    exists|p: int| at <= p < to && #[trigger] goes(log, p, solver, keep, lit)
}

/// Shrinking keeps what has to stay, and takes out only what can go.
proof fn lemma_shrunk(
    log: Seq<Event>,
    start: int,
    at: int,
    solver: usize,
    keep: Set<u32>,
    cube: Seq<Lit>,
    k: int,
    kept: Seq<Lit>,
)
    requires
        start <= at,
        0 <= k <= cube.len(),
        forall|j: int|
            0 <= j < kept.len() ==> has_to_stay(
                log,
                start,
                at,
                solver,
                keep,
                #[trigger] kept[j],
            ),
        forall|i: int|
            0 <= i < k ==> kept.contains(#[trigger] cube[i]) || can_go(
                log,
                start,
                at,
                solver,
                keep,
                cube[i],
            ),
    ensures
        shrink_run(log, at, solver, keep, cube, k, kept) matches Some((rest, lost, at2)) ==> {
            &&& at <= at2
            &&& forall|j: int|
                0 <= j < rest.len() ==> has_to_stay(
                    log,
                    start,
                    at2,
                    solver,
                    keep,
                    #[trigger] rest[j],
                )
            &&& !lost ==> forall|i: int|
                0 <= i < cube.len() ==> rest.contains(#[trigger] cube[i]) || can_go(
                    log,
                    start,
                    at2,
                    solver,
                    keep,
                    cube[i],
                )
            &&& lost ==> exists|i: int|
                0 <= i < cube.len() && keep.contains((#[trigger] cube[i]).0) && asked(
                    log,
                    at2 - 1,
                    Call::SatValue { solver, lit: cube[i] },
                ) && log[at2 - 1].reply->Value_0 != Some(true)
        },
    decreases cube.len() - k,
{
    if k < cube.len() && shrink_run(log, at, solver, keep, cube, k, kept) is Some {
        let lit = cube[k];
        let holds = log[at].reply->Value_0 == Some(true);
        if keep.contains(lit.0) && !holds {
            assert(keep.contains(cube[k].0));
            assert forall|j: int| 0 <= j < kept.len() implies has_to_stay(
                log,
                start,
                at + 1,
                solver,
                keep,
                #[trigger] kept[j],
            ) by {
                assert(has_to_stay(log, start, at, solver, keep, kept[j]));
            }
        } else {
            let asks = holds && !keep.contains(lit.0);
            let at2 = if asks {
                at + 2
            } else {
                at + 1
            };
            let stay = holds && (keep.contains(lit.0) || !yes(log, at + 1));
            let kept2 = if stay {
                kept.push(lit)
            } else {
                kept
            };
            if stay {
                assert(stays(log, at, solver, keep, lit));
                assert(kept2[kept.len() as int] == lit);
            } else {
                assert(goes(log, at, solver, keep, lit));
            }
            assert forall|j: int| 0 <= j < kept2.len() implies has_to_stay(
                log,
                start,
                at2,
                solver,
                keep,
                #[trigger] kept2[j],
            ) by {
                if j < kept.len() {
                    assert(has_to_stay(log, start, at, solver, keep, kept[j]));
                }
            }
            assert forall|i: int| 0 <= i < k + 1 implies kept2.contains(#[trigger] cube[i])
                || can_go(log, start, at2, solver, keep, cube[i]) by {
                if i < k {
                    if kept.contains(cube[i]) {
                        let j = choose|j: int| 0 <= j < kept.len() && kept[j] == cube[i];
                        assert(kept2[j] == cube[i]);
                    } else {
                        assert(can_go(log, start, at, solver, keep, cube[i]));
                    }
                }
            }
            lemma_shrunk(log, start, at2, solver, keep, cube, k + 1, kept2);
        }
    }
}

/// Shrinking a cube with a model keeps the literals that hold in it and that are to be kept or
/// that the model rests on, and takes out each other literal that was found not to hold or not to
/// be needed. It ends early only where a literal to keep is found not to hold.
pub proof fn law_shrunk(log: Seq<Event>, at: int, solver: usize, keep: Set<u32>, cube: Seq<Lit>)
    ensures
        shrink_run(log, at, solver, keep, cube, 0, seq![]) matches Some((rest, lost, at2)) ==> {
            &&& forall|j: int|
                0 <= j < rest.len() ==> has_to_stay(
                    log,
                    at,
                    at2,
                    solver,
                    keep,
                    #[trigger] rest[j],
                )
            &&& !lost ==> forall|i: int|
                0 <= i < cube.len() ==> rest.contains(#[trigger] cube[i]) || can_go(
                    log,
                    at,
                    at2,
                    solver,
                    keep,
                    cube[i],
                )
            &&& lost ==> exists|i: int|
                0 <= i < cube.len() && keep.contains((#[trigger] cube[i]).0) && asked(
                    log,
                    at2 - 1,
                    Call::SatValue { solver, lit: cube[i] },
                ) && log[at2 - 1].reply->Value_0 != Some(true)
        },
{
    lemma_shrunk(log, at, at, solver, keep, cube, 0, seq![]);
}

/// Whether the answers of a solver are true of a step of its model: `m` has the values before it
/// and of the literals that stand for those after it, and `m2` the values after it.
pub open spec fn true_values(
    log: Seq<Event>,
    solver: usize,
    m: spec_fn(Lit) -> bool,
    m2: spec_fn(Lit) -> bool,
) -> bool {
    &&& forall|p: int| 0 <= p < log.len() ==> #[trigger] true_value(log, p, solver, m, m2)
    &&& forall|l: Lit| #[trigger] m(l.negation()) == !m(l)
    &&& forall|l: Lit| #[trigger] m2(l.negation()) == !m2(l)
}

/// The same of one answer.
pub open spec fn true_value(
    log: Seq<Event>,
    p: int,
    solver: usize,
    m: spec_fn(Lit) -> bool,
    m2: spec_fn(Lit) -> bool,
) -> bool {
    match log[p].call {
        Call::SatValue { solver: s, lit } => s == solver ==> (
        log[p].reply->Value_0 matches Some(v) ==> m(lit) == v),
        Call::Next { lit } => m(log[p].reply->Literal_0) == m2(lit),
        _ => true,
    }
}

/// Whether the event at `p` asks for the literal that stands for another after the step, and the
/// next one for its value; where there is one, the literal that has it is among some.
pub open spec fn told_after(
    log: Seq<Event>,
    p: int,
    solver: usize,
    lit: Lit,
    after: Seq<Lit>,
) -> bool {
    &&& asked(log, p, Call::Next { lit })
    &&& asked(log, p + 1, Call::SatValue { solver, lit: log[p].reply->Literal_0 })
    &&& log[p + 1].reply->Value_0 matches Some(v) ==> after.contains(lit.negation_if(!v))
}

/// Whether the event at `p` asks for the value of a literal before the step; where there is one,
/// the next asks whether the model does without it, and unless it does, the literal that has the
/// value is among some.
pub open spec fn told_before(
    log: Seq<Event>,
    p: int,
    solver: usize,
    lit: Lit,
    before: Seq<Lit>,
) -> bool {
    &&& asked(log, p, Call::SatValue { solver, lit })
    &&& log[p].reply->Value_0 matches Some(v) ==> asked(
        log,
        p + 1,
        Call::FlipToNone { solver, var: lit.var_spec() },
    ) && (yes(log, p + 1) || before.contains(lit.negation_if(!v)))
}

/// Whether a literal is looked at so, before and after the step.
pub open spec fn seen(
    log: Seq<Event>,
    solver: usize,
    lit: Lit,
    before: Seq<Lit>,
    after: Seq<Lit>,
) -> bool {
    &&& exists|p: int| #[trigger] told_before(log, p, solver, lit, before)
    &&& exists|p: int| #[trigger] told_after(log, p, solver, lit, after)
}

/// A step that is read off a model is one of it.
proof fn lemma_step_true(
    log: Seq<Event>,
    m: spec_fn(Lit) -> bool,
    m2: spec_fn(Lit) -> bool,
    at: int,
    solver: usize,
    full: Seq<Lit>,
    k: int,
    before: Seq<Lit>,
    after: Seq<Lit>,
)
    requires
        true_values(log, solver, m, m2),
        0 <= k,
    ensures
        step_run(log, at, solver, full, k, before, after) matches Some((all, all2, _)) ==> {
            &&& before.is_prefix_of(all)
            &&& after.is_prefix_of(all2)
            &&& forall|j: int| before.len() <= j < all.len() ==> m(#[trigger] all[j])
            &&& forall|j: int| after.len() <= j < all2.len() ==> m2(#[trigger] all2[j])
            &&& forall|i: int|
                k <= i < full.len() ==> #[trigger] seen(log, solver, full[i], all, all2)
        },
    decreases full.len() - k,
{
    if k < full.len() {
        if let Some((all, all2, _)) = step_run(log, at, solver, full, k, before, after) {
            let l = full[k];
            let (before2, at2) = match log[at].reply->Value_0 {
                Some(v) => (
                    if yes(log, at + 1) {
                        before
                    } else {
                        before.push(l.negation_if(!v))
                    },
                    at + 2,
                ),
                None => (before, at + 1),
            };
            let after2 = match log[at2 + 1].reply->Value_0 {
                Some(v) => after.push(l.negation_if(!v)),
                None => after,
            };
            assert(true_value(log, at, solver, m, m2));
            assert(true_value(log, at2, solver, m, m2));
            assert(true_value(log, at2 + 1, solver, m, m2));
            lemma_step_true(log, m, m2, at2 + 2, solver, full, k + 1, before2, after2);
            if before2.len() > before.len() {
                assert(all[before.len() as int] == before2[before.len() as int]);
                assert(m(all[before.len() as int]));
            }
            if after2.len() > after.len() {
                assert(all2[after.len() as int] == after2[after.len() as int]);
                assert(m2(all2[after.len() as int]));
            }
            assert(told_before(log, at, solver, l, all));
            assert(told_after(log, at2, solver, l, all2));
        }
    }
}

/// A step that is read off a model that the answers are true of is one of it: the literals of the
/// state before it hold before it, and those of the state after it hold after it. No literal of the
/// cube is passed over: where the model has a value for it after the step, that is told, and where
/// it has one before the step, too, unless it does without it.
pub proof fn law_step(
    log: Seq<Event>,
    m: spec_fn(Lit) -> bool,
    m2: spec_fn(Lit) -> bool,
    at: int,
    solver: usize,
    full: Seq<Lit>,
)
    requires
        true_values(log, solver, m, m2),
    ensures
        step_run(log, at, solver, full, 0, seq![], seq![]) matches Some((before, after, _)) ==> {
            &&& forall|j: int| 0 <= j < before.len() ==> m(#[trigger] before[j])
            &&& forall|j: int| 0 <= j < after.len() ==> m2(#[trigger] after[j])
            &&& forall|i: int|
                0 <= i < full.len() ==> #[trigger] seen(log, solver, full[i], before, after)
        },
{
    lemma_step_true(log, m, m2, at, solver, full, 0, seq![], seq![]);
}

} // verus!
