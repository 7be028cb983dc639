//! Generalization: shrinking a cube that a frame excludes to one that it still excludes.
//!
//! As in [`crate::shrink`], each procedure has a `.._run` function that reads off a log what the
//! procedure makes of the answers in it.

use vstd::prelude::*;

use crate::collections::{empty_set, insert_member, is_member, members, set_of, NumberSet};
use crate::fault::Fault;
use crate::lit::{
    codes, common, common_lits, concat_lits, copy_lits, cubes, lemma_common, lit_codes, negate_lits,
    negated, reverse_lits, sort_lits, sorted, Lit,
};
use crate::param::DropVarParameter;
use crate::session::{asked, extends, yes, Call, Event, Reasoner, Session, Tally};
use crate::shrink::{down_run, shrunk, steps, Step};

verus! {

/// In which order the literals of a cube are tried.
#[derive(Clone, Copy, PartialEq, Eq, Structural, Debug)]
pub struct Order {
    /// By topology and activity mixed.
    pub hybrid: bool,
    /// Otherwise, by code; and otherwise by activity.
    pub topo: bool,
    /// From the other end.
    pub reverse: bool,
}

/// What a generalization goes by besides the cube.
#[derive(Clone, Copy, PartialEq, Eq, Structural, Debug)]
pub struct Setting {
    /// The order of the literals.
    pub order: Order,
    /// The number of the last frame.
    pub level: usize,
}

/// The cube of an outcome.
pub open spec fn outcome(r: Result<Vec<Lit>, Fault>) -> Result<Seq<Lit>, Fault> {
    match r {
        Ok(c) => Ok(c@),
        Err(f) => Err(f),
    }
}

/// The cube in the order in which its literals are tried.
pub open spec fn order_run(
    log: Seq<Event>,
    at: int,
    order: Order,
    frame: usize,
    cube: Seq<Lit>,
) -> Option<(Seq<Lit>, int)> {
    if order.hybrid {
        if asked(log, at, Call::SortHybrid { cube, frame, reverse: order.reverse }) {
            Some((log[at].reply->Cube_0, at + 1))
        } else {
            None
        }
    } else if order.topo {
        Some((
            if order.reverse {
                sorted(cube).reverse()
            } else {
                sorted(cube)
            },
            at,
        ))
    } else if asked(log, at, Call::SortByActivity { cube, ascending: !order.reverse }) {
        Some((log[at].reply->Cube_0, at + 1))
    } else {
        None
    }
}

/// Restricts a solver to the variables of the cube, before and after a step.
pub open spec fn domain_run(
    log: Seq<Event>,
    at: int,
    solver: usize,
    cube: Seq<Lit>,
) -> Option<int> {
    if asked(log, at, Call::LitsNext { cube }) && asked(
        log,
        at + 1,
        Call::SetDomain { solver, lits: log[at].reply->Cube_0 + cube },
    ) {
        Some(at + 2)
    } else {
        None
    }
}

/// Pushes a cube from frame to frame as long as it is inductive there, and shrinks it to the core
/// at each. The frame `i` is the next to try. The outcome is the first frame at which the cube is
/// not inductive.
pub open spec fn push_run(
    log: Seq<Event>,
    at: int,
    level: usize,
    i: int,
    cube: Seq<Lit>,
) -> Option<(int, Seq<Lit>, int)>
    decreases level + 1 - i,
{
    let solver = (i - 1) as usize;
    if i > level {
        Some((level + 1, cube, at))
    } else if !asked(log, at, Call::Inductive { solver, cube, strengthen: true }) {
        None
    } else if !yes(log, at) {
        Some((i, cube, at + 1))
    } else if !asked(log, at + 1, Call::InductiveCore { solver }) {
        None
    } else {
        push_run(log, at + 2, level, i + 1, log[at + 1].reply->Cube_0)
    }
}

/// Whether every literal of `keep` among those of the cube from `k` on holds in the model of the
/// solver; the search ends at the first that does not.
pub open spec fn keeps_run(
    log: Seq<Event>,
    at: int,
    solver: usize,
    keep: Set<u32>,
    cube: Seq<Lit>,
    k: int,
) -> Option<(bool, int)>
    decreases cube.len() - k,
{
    if k >= cube.len() {
        Some((true, at))
    } else if !keep.contains(cube[k].0) {
        keeps_run(log, at, solver, keep, cube, k + 1)
    } else if !asked(log, at, Call::SatValue { solver, lit: cube[k] }) {
        None
    } else if log[at].reply->Value_0 == Some(true) {
        keeps_run(log, at + 1, solver, keep, cube, k + 1)
    } else {
        Some((false, at + 1))
    }
}

/// Whether a literal of the cube that is in `keep` is missing from the model.
pub open spec fn loses(cube: Seq<Lit>, keep: Set<u32>, model: Seq<Lit>) -> bool {
    exists|i: int|
        0 <= i < cube.len() && keep.contains((#[trigger] cube[i]).0) && !model.contains(cube[i])
}

/// The clause that excludes a cube, as the only constraint.
pub open spec fn excluding(cube: Seq<Lit>) -> Seq<Seq<Lit>> {
    seq![negated(cube)]
}

/// What one query of [`ctg_loop`] leads to.
pub enum CtgTurn {
    /// The log holds other requests.
    Off,
    /// The search is over: with a core, or without.
    Over(Option<Seq<Lit>>, int),
    /// The cube is to be intersected with a predecessor.
    Shrink(Seq<Lit>, int),
    /// A predecessor is to be blocked first, if that can be done.
    Block(Seq<Lit>, int),
}

/// One query of [`ctg_loop`].
pub open spec fn ctg_turn(
    log: Seq<Event>,
    at: int,
    frame: usize,
    cube: Seq<Lit>,
    keep: Set<u32>,
    more: bool,
) -> CtgTurn {
    let solver = (frame - 1) as usize;
    if !asked(log, at, Call::CubeSubsumeInit { cube }) {
        CtgTurn::Off
    } else if yes(log, at) {
        CtgTurn::Over(None, at + 1)
    } else if !asked(log, at + 1, Call::Count { tally: Tally::DownSat }) || !asked(
        log,
        at + 2,
        Call::Blocked { frame, cube, strengthen: true },
    ) {
        CtgTurn::Off
    } else if yes(log, at + 2) {
        if asked(log, at + 3, Call::InductiveCore { solver }) {
            CtgTurn::Over(Some(log[at + 3].reply->Cube_0), at + 4)
        } else {
            CtgTurn::Off
        }
    } else {
        match keeps_run(log, at + 3, solver, keep, cube, 0) {
            None => CtgTurn::Off,
            Some((false, at2)) => CtgTurn::Over(None, at2),
            Some((true, at2)) => if !asked(log, at2, Call::GetPred { frame, strengthen: false }) {
                CtgTurn::Off
            } else {
                let model = log[at2].reply->Pred_0;
                if loses(cube, keep, model) {
                    CtgTurn::Over(None, at2 + 1)
                } else if !more || frame <= 1 {
                    CtgTurn::Shrink(model, at2 + 1)
                } else if !asked(log, at2 + 1, Call::CubeSubsumeInit { cube: model }) {
                    CtgTurn::Off
                } else if yes(log, at2 + 1) {
                    CtgTurn::Shrink(model, at2 + 2)
                } else {
                    CtgTurn::Block(model, at2 + 2)
                }
            },
        }
    }
}

/// Shrinks a cube until it is blocked, by intersecting it with the predecessors that the solver
/// finds, unless such a predecessor can itself be blocked in the frame before; at most
/// `parameter.max` are blocked in a row, and `ctg` have been so far.
#[verifier::opaque]
pub open spec fn ctg_loop(
    log: Seq<Event>,
    at: int,
    setting: Setting,
    frame: usize,
    cube: Seq<Lit>,
    keep: Set<u32>,
    full: Seq<Lit>,
    parameter: DropVarParameter,
    ctg: int,
) -> Option<(Result<Option<Seq<Lit>>, Fault>, int)>
    decreases parameter.level, 0int, log.len() - at, 0int, 0int,
{
    match ctg_turn(log, at, frame, cube, keep, ctg < parameter.max) {
        CtgTurn::Off => None,
        CtgTurn::Over(r, at2) => Some((Ok(r), at2)),
        CtgTurn::Shrink(model, at2) => if common(cube, model).len() == cube.len() {
            Some((Err(Fault::NoProgress), at2))
        } else if at < at2 <= log.len() {
            ctg_loop(
                log,
                at2,
                setting,
                frame,
                common(cube, model),
                keep,
                full,
                parameter,
                0,
            )
        } else {
            None
        },
        CtgTurn::Block(model, at2) => if parameter.level == 0 {
            None
        } else {
            match trivial_run(
                log,
                at2,
                setting,
                (frame - 1) as usize,
                sorted(model),
                excluding(full),
                parameter.limit,
                parameter.sub_level_spec(),
            ) {
                None => None,
                Some((Err(f), _, at3)) => Some((Err(f), at3)),
                Some((Ok(blocked), _, at3)) => if !blocked && common(cube, model).len()
                    == cube.len() {
                    Some((Err(Fault::NoProgress), at3))
                } else if at < at3 <= log.len() {
                    ctg_loop(
                        log,
                        at3,
                        setting,
                        frame,
                        if blocked {
                            cube
                        } else {
                            common(cube, model)
                        },
                        keep,
                        full,
                        parameter,
                        if blocked {
                            ctg + 1
                        } else {
                            0
                        },
                    )
                } else {
                    None
                },
            }
        },
    }
}

/// The whole of such an attempt: it is counted, and then goes as [`ctg_loop`] says.
#[verifier::opaque]
pub open spec fn ctg_run(
    log: Seq<Event>,
    at: int,
    setting: Setting,
    frame: usize,
    cube: Seq<Lit>,
    keep: Set<u32>,
    full: Seq<Lit>,
    parameter: DropVarParameter,
) -> Option<(Result<Option<Seq<Lit>>, Fault>, int)>
    decreases parameter.level, 0int, log.len() - at, 1int, 0int,
{
    if !asked(log, at, Call::Count { tally: Tally::Down }) {
        None
    } else {
        ctg_loop(log, at + 1, setting, frame, cube, keep, full, parameter, 0)
    }
}

/// Tries to block a cube in a frame, and where that takes it the predecessors of the cube, with
/// at most `limit` cubes in all. The outcome says whether the cube was blocked, and how many
/// cubes are left to try.
#[verifier::opaque]
pub open spec fn trivial_run(
    log: Seq<Event>,
    at: int,
    setting: Setting,
    frame: usize,
    lemma: Seq<Lit>,
    constraint: Seq<Seq<Lit>>,
    limit: usize,
    parameter: DropVarParameter,
) -> Option<(Result<bool, Fault>, usize, int)>
    decreases parameter.level, 2int, log.len() - at, 1int, 0int,
{
    if frame == 0 {
        Some((Ok(false), limit, at))
    } else if !asked(log, at, Call::CubeSubsumeInit { cube: lemma }) {
        None
    } else if yes(log, at) || limit == 0 {
        Some((Ok(false), limit, at + 1))
    } else {
        trivial_loop(
            log,
            at + 1,
            setting,
            frame,
            lemma,
            constraint,
            (limit - 1) as usize,
            parameter,
        )
    }
}

/// Pushes a cube that `frame` excludes, and adds it as a lemma where it gets to.
pub open spec fn learn_run(
    log: Seq<Event>,
    at: int,
    level: usize,
    frame: usize,
    cube: Seq<Lit>,
) -> Option<int> {
    match push_run(log, at, level, frame + 1, cube) {
        None => None,
        Some((reached, pushed, at2)) => if asked(
            log,
            at2,
            Call::AddLemma {
                frame: (reached - 1) as usize,
                cube: pushed,
                contained_check: false,
                owner: None,
            },
        ) {
            Some(at2 + 1)
        } else {
            None
        },
    }
}

/// The attempts of [`trivial_run`] on one cube: it is tried, and tried again after each
/// predecessor that was blocked.
#[verifier::opaque]
pub open spec fn trivial_loop(
    log: Seq<Event>,
    at: int,
    setting: Setting,
    frame: usize,
    lemma: Seq<Lit>,
    constraint: Seq<Seq<Lit>>,
    limit: usize,
    parameter: DropVarParameter,
) -> Option<(Result<bool, Fault>, usize, int)>
    decreases parameter.level, 2int, log.len() - at, 0int, 0int,
{
    if !asked(
        log,
        at,
        Call::BlockedUnder { frame, cube: lemma, strengthen: true, constraint },
    ) {
        None
    } else if yes(log, at) {
        if !asked(log, at + 1, Call::InductiveCore { solver: (frame - 1) as usize }) {
            None
        } else {
            match drop_run(
                log,
                at + 2,
                setting,
                frame,
                log[at + 1].reply->Cube_0,
                constraint,
                parameter,
            ) {
                None => None,
                Some((Err(f), at2)) => Some((Err(f), limit, at2)),
                Some((Ok(mic), at2)) => match learn_run(log, at2, setting.level, frame, mic) {
                    None => None,
                    Some(at3) => Some((Ok(true), limit, at3)),
                },
            }
        }
    } else if limit == 0 {
        Some((Ok(false), limit, at + 1))
    } else if !asked(log, at + 1, Call::GetPred { frame, strengthen: false }) {
        None
    } else {
        match trivial_run(
            log,
            at + 2,
            setting,
            (frame - 1) as usize,
            sorted(log[at + 1].reply->Pred_0),
            constraint,
            limit,
            parameter,
        ) {
            None => None,
            Some((Err(f), limit2, at2)) => Some((Err(f), limit2, at2)),
            Some((Ok(false), limit2, at2)) => Some((Ok(false), limit2, at2)),
            Some((Ok(true), limit2, at2)) => if at < at2 <= log.len() {
                trivial_loop(log, at2, setting, frame, lemma, constraint, limit2, parameter)
            } else {
                None
            },
        }
    }
}

/// Drops literals from a cube, with the solver restricted to the variables of the cube where no
/// nested attempts are made.
#[verifier::opaque]
pub open spec fn drop_run(
    log: Seq<Event>,
    at: int,
    setting: Setting,
    frame: usize,
    cube: Seq<Lit>,
    constraint: Seq<Seq<Lit>>,
    parameter: DropVarParameter,
) -> Option<(Result<Seq<Lit>, Fault>, int)>
    decreases parameter.level, 1int, log.len() - at, 2int, 0int,
{
    let solver = (frame - 1) as usize;
    if parameter.level > 0 {
        drop_var_run(log, at, setting, frame, cube, constraint, parameter, false)
    } else if !asked(log, at, Call::UnsetDomain { solver }) {
        None
    } else {
        match domain_run(log, at + 1, solver, cube) {
            None => None,
            Some(at2) => match drop_var_run(
                log,
                at2,
                setting,
                frame,
                cube,
                constraint,
                parameter,
                false,
            ) {
                None => None,
                Some((Err(f), at3)) => Some((Err(f), at3)),
                Some((Ok(c), at3)) => if asked(log, at3, Call::UnsetDomain { solver }) {
                    Some((Ok(c), at3 + 1))
                } else {
                    None
                },
            },
        }
    }
}

/// Puts the literals of a cube in order, and tries to drop each. With `manage_domain`, and where
/// no nested attempts are made, the solver is restricted to the variables of the cube meanwhile.
#[verifier::opaque]
pub open spec fn drop_var_run(
    log: Seq<Event>,
    at: int,
    setting: Setting,
    frame: usize,
    cube: Seq<Lit>,
    constraint: Seq<Seq<Lit>>,
    parameter: DropVarParameter,
    manage_domain: bool,
) -> Option<(Result<Seq<Lit>, Fault>, int)>
    decreases parameter.level, 1int, log.len() - at, 1int, 0int,
{
    let solver = (frame - 1) as usize;
    let manage = parameter.level == 0 && manage_domain;
    let start = if manage {
        domain_run(log, at, solver, cube)
    } else {
        Some(at)
    };
    match start {
        None => None,
        Some(at1) => if !asked(
            log,
            at1,
            Call::Count { tally: Tally::MicCubeLen(cube.len() as usize) },
        ) || !asked(log, at1 + 1, Call::Count { tally: Tally::Mic }) {
            None
        } else {
            match order_run(log, at1 + 2, setting.order, frame, cube) {
                None => None,
                Some((tried, at2)) => drop_var_loop(
                    log,
                    at2,
                    setting,
                    frame,
                    tried,
                    constraint,
                    parameter,
                    manage,
                    Set::empty(),
                    0,
                ),
            }
        },
    }
}

/// The first of the literals from `k` on that is not among `done`, by its index.
pub open spec fn first_new(lits: Seq<Lit>, done: Seq<Lit>, k: int) -> int
    decreases lits.len() - k,
{
    if k >= lits.len() || !done.contains(lits[k]) {
        k
    } else {
        first_new(lits, done, k + 1)
    }
}

/// What a smaller cube makes of the cube whose literals up to `i` have been dealt with: what is
/// left of it, and the first literal to go on with. A literal at or before `i` cannot be it.
pub open spec fn resumed(cube: Seq<Lit>, i: int, smaller: Seq<Lit>) -> Result<
    (Seq<Lit>, int),
    Fault,
> {
    let rest = common(cube, smaller);
    let next = first_new(rest, cube.take(i), 0);
    if next < rest.len() && cube.take(i + 1).contains(rest[next]) {
        Err(Fault::StrangeCore)
    } else {
        Ok((rest, next))
    }
}

/// What an attempt to drop one literal leads to.
pub enum DropTurn {
    /// The log holds other requests.
    Off,
    /// The search cannot go on.
    Failed(Fault, int),
    /// The search goes on with a cube, the codes of the literals to keep, and an index.
    Next(Seq<Lit>, Set<u32>, int, int),
}

/// What is made of an attempt to drop the literal at `i`, given what it came to.
pub open spec fn drop_turn(
    log: Seq<Event>,
    solver: usize,
    cube: Seq<Lit>,
    manage: bool,
    keep: Set<u32>,
    i: int,
    tried: Option<(Result<Option<Seq<Lit>>, Fault>, int)>,
) -> DropTurn {
    match tried {
        None => DropTurn::Off,
        Some((Err(f), at)) => DropTurn::Failed(f, at),
        Some((Ok(None), at)) => if asked(
            log,
            at,
            Call::Count { tally: Tally::MicDrop(false) },
        ) {
            DropTurn::Next(cube, keep.insert(cube[i].0), i + 1, at + 1)
        } else {
            DropTurn::Off
        },
        Some((Ok(Some(smaller)), at)) => if !asked(
            log,
            at,
            Call::Count { tally: Tally::MicDrop(true) },
        ) {
            DropTurn::Off
        } else {
            match resumed(cube, i, smaller) {
                Err(f) => DropTurn::Failed(f, at + 1),
                Ok((rest, next)) => if !manage {
                    DropTurn::Next(rest, keep, next, at + 1)
                } else if !asked(log, at + 1, Call::UnsetDomain { solver }) {
                    DropTurn::Off
                } else {
                    match domain_run(log, at + 2, solver, rest) {
                        None => DropTurn::Off,
                        Some(at2) => DropTurn::Next(rest, keep, next, at2),
                    }
                },
            }
        },
    }
}

/// The end of the search for literals to drop.
pub open spec fn drop_end(
    log: Seq<Event>,
    at: int,
    solver: usize,
    cube: Seq<Lit>,
    manage: bool,
) -> Option<(Result<Seq<Lit>, Fault>, int)> {
    let at2 = if manage {
        at + 1
    } else {
        at
    };
    if (manage ==> asked(log, at, Call::UnsetDomain { solver })) && asked(
        log,
        at2,
        Call::BumpCubeActivity { cube },
    ) {
        Some((Ok(cube), at2 + 1))
    } else {
        None
    }
}

/// Tries to drop each literal of the cube from `i` on. Those in `keep` stay.
#[verifier::opaque]
pub open spec fn drop_var_loop(
    log: Seq<Event>,
    at: int,
    setting: Setting,
    frame: usize,
    cube: Seq<Lit>,
    constraint: Seq<Seq<Lit>>,
    parameter: DropVarParameter,
    manage: bool,
    keep: Set<u32>,
    i: int,
) -> Option<(Result<Seq<Lit>, Fault>, int)>
    decreases parameter.level, 1int, log.len() - at, 0int, cube.len() - i,
{
    let solver = (frame - 1) as usize;
    if i >= cube.len() {
        drop_end(log, at, solver, cube, manage)
    } else if keep.contains(cube[i].0) {
        drop_var_loop(
            log,
            at,
            setting,
            frame,
            cube,
            constraint,
            parameter,
            manage,
            keep,
            i + 1,
        )
    } else {
        let tried = if parameter.level == 0 {
            down_run(log, at, frame, cube.remove(i), keep, cube, constraint)
        } else {
            ctg_run(log, at, setting, frame, cube.remove(i), keep, cube, parameter)
        };
        match drop_turn(log, solver, cube, manage, keep, i, tried) {
            DropTurn::Off => None,
            DropTurn::Failed(f, at2) => Some((Err(f), at2)),
            DropTurn::Next(rest, keep2, next, at2) => if at < at2 <= log.len() {
                drop_var_loop(
                    log,
                    at2,
                    setting,
                    frame,
                    rest,
                    constraint,
                    parameter,
                    manage,
                    keep2,
                    next,
                )
            } else {
                None
            },
        }
    }
}

/// Where a smaller cube lets the search for literals to drop go on, less is left to try.
proof fn lemma_resumed(cube: Seq<Lit>, i: int, smaller: Seq<Lit>)
    requires
        0 <= i < cube.len(),
        resumed(cube, i, smaller) is Ok,
    ensures
        0 <= resumed(cube, i, smaller)->Ok_0.1 <= resumed(cube, i, smaller)->Ok_0.0.len(),
        resumed(cube, i, smaller)->Ok_0.0.len() - resumed(cube, i, smaller)->Ok_0.1 < cube.len()
            - i,
{
    let rest = common(cube, smaller);
    let next = first_new(rest, cube.take(i), 0);
    let head = cube.take(i + 1);
    let tail = cube.skip(i + 1);
    let pred = |l: Lit| smaller.contains(l);
    assert(cube =~= head + tail);
    Seq::filter_distributes_over_add(head, tail, pred);
    assert(rest == common(head, smaller) + common(tail, smaller));
    lemma_common(head, smaller);
    lemma_common(tail, smaller);
    lemma_first_new(rest, cube.take(i), 0);
    if next < common(head, smaller).len() {
        assert(rest[next] == common(head, smaller)[next]);
        assert(common(head, smaller).contains(rest[next]));
        assert(head.contains(rest[next]));
    }
}

/// The index that [`first_new`] finds: those before it are among `done`, and it is not.
proof fn lemma_first_new(lits: Seq<Lit>, done: Seq<Lit>, k: int)
    requires
        0 <= k <= lits.len(),
    ensures
        k <= first_new(lits, done, k) <= lits.len(),
        forall|j: int| k <= j < first_new(lits, done, k) ==> done.contains(#[trigger] lits[j]),
        first_new(lits, done, k) < lits.len() ==> !done.contains(
            lits[first_new(lits, done, k)],
        ),
    decreases lits.len() - k,
{
    if k < lits.len() && done.contains(lits[k]) {
        lemma_first_new(lits, done, k + 1);
    }
}

/// Whether a literal is among the first `n`.
fn among_first(lits: &Vec<Lit>, n: usize, lit: Lit) -> (r: bool)
    requires
        n <= lits.len(),
    ensures
        r == lits@.take(n as int).contains(lit),
{
    let mut i: usize = 0;
    while i < n
        invariant
            i <= n <= lits.len(),
            forall|j: int| 0 <= j < i ==> lits@[j] != lit,
        decreases n - i,
    {
        if lits[i] == lit {
            assert(lits@.take(n as int)[i as int] == lit);
            return true;
        }
        i = i + 1;
    }
    false
}

/// Takes the result of an attempt to drop the literal at `i`: the cube loses what the smaller
/// one lost, and the search goes on at the first literal that has not been dealt with. A smaller
/// cube that would have it go on at `i` or before is refused.
pub fn handle_down_success(cube: &Vec<Lit>, i: usize, new_cube: &Vec<Lit>) -> (r: Result<
    (Vec<Lit>, usize),
    Fault,
>)
    requires
        i < cube.len(),
    ensures
        match r {
            Ok((rest, next)) => {
                &&& resumed(cube@, i as int, new_cube@) == Ok::<(Seq<Lit>, int), Fault>(
                    (rest@, next as int),
                )
                &&& next <= rest.len()
                &&& rest.len() - next < cube.len() - i
            },
            Err(f) => resumed(cube@, i as int, new_cube@) == Err::<(Seq<Lit>, int), Fault>(f),
        },
{
    let rest: Vec<Lit> = common_lits(cube, new_cube);
    let mut next: usize = 0;
    while next < rest.len() && among_first(cube, i, rest[next])
        invariant
            i < cube.len(),
            next <= rest.len(),
            first_new(rest@, cube@.take(i as int), 0) == first_new(
                rest@,
                cube@.take(i as int),
                next as int,
            ),
        decreases rest.len() - next,
    {
        next = next + 1;
    }
    if next < rest.len() && among_first(cube, i + 1, rest[next]) {
        return Err(Fault::StrangeCore);
    }
    proof {
        lemma_resumed(cube@, i as int, new_cube@);
    }
    Ok((rest, next))
}

/// The cube without the literal at `i`.
fn without(cube: &Vec<Lit>, i: usize) -> (r: Vec<Lit>)
    requires
        i < cube.len(),
    ensures
        r@ == cube@.remove(i as int),
{
    let mut r: Vec<Lit> = copy_lits(cube);
    r.remove(i);
    r
}

impl<R: Reasoner> Session<R> {
    /// Puts a cube in order; see [`order_run`].
    fn order_cube(&mut self, order: Order, frame: usize, cube: Vec<Lit>) -> (r: Vec<Lit>)
        ensures
            final(self).asks(*old(self)),
            forall|l: Seq<Event>|
                extends(l, final(self).log()) ==> #[trigger] order_run(
                    l,
                    old(self).log().len() as int,
                    order,
                    frame,
                    cube@,
                ) == Some((r@, final(self).log().len() as int)),
    {
        if order.hybrid {
            self.sort_hybrid(&cube, frame, order.reverse)
        } else if order.topo {
            let tried: Vec<Lit> = sort_lits(&cube);
            if order.reverse {
                reverse_lits(&tried)
            } else {
                tried
            }
        } else {
            self.sort_by_activity(&cube, !order.reverse)
        }
    }

    /// Restricts a solver to the variables of a cube; see [`domain_run`].
    pub fn restrict_domain(&mut self, solver: usize, cube: &Vec<Lit>)
        ensures
            final(self).asks(*old(self)),
            forall|l: Seq<Event>|
                extends(l, final(self).log()) ==> #[trigger] domain_run(
                    l,
                    old(self).log().len() as int,
                    solver,
                    cube@,
                ) == Some(final(self).log().len() as int),
    {
        let primed: Vec<Lit> = self.lits_next(cube);
        let lits: Vec<Lit> = concat_lits(&primed, cube);
        self.set_domain(solver, &lits);
    }

    /// Pushes a cube that `frame` excludes as far as it goes; see [`push_run`].
    pub fn push_lemma(&mut self, level: usize, frame: usize, cube: Vec<Lit>) -> (r: (
        usize,
        Vec<Lit>,
    ))
        requires
            level < usize::MAX,
        ensures
            final(self).asks(*old(self)),
            1 <= r.0 <= level + 1,
            forall|l: Seq<Event>|
                extends(l, final(self).log()) ==> #[trigger] push_run(
                    l,
                    old(self).log().len() as int,
                    level,
                    frame + 1,
                    cube@,
                ) == Some((r.0 as int, r.1@, final(self).log().len() as int)),
    {
        let ghost start = self.log().len() as int;
        let mut rest: Vec<Lit> = cube;
        let mut done: usize = frame;
        while done < level
            invariant
                frame <= done,
                done <= level || done == frame,
                level < usize::MAX,
                start == old(self).log().len(),
                self.asks(*old(self)),
                forall|l: Seq<Event>|
                    extends(l, self.log()) ==> #[trigger] push_run(
                        l,
                        start,
                        level,
                        frame + 1,
                        cube@,
                    ) == push_run(l, self.log().len() as int, level, done + 1, rest@),
            decreases level - done,
        {
            if self.inductive(done, &rest, true) {
                rest = self.inductive_core(done);
            } else {
                return (done + 1, rest);
            }
            done = done + 1;
        }
        (level + 1, rest)
    }

    /// Whether the literals to keep hold in the model of a solver; see [`keeps_run`].
    fn keeps(&mut self, solver: usize, keep: &NumberSet, cube: &Vec<Lit>) -> (r: bool)
        ensures
            final(self).asks(*old(self)),
            forall|l: Seq<Event>|
                extends(l, final(self).log()) ==> #[trigger] keeps_run(
                    l,
                    old(self).log().len() as int,
                    solver,
                    members(*keep),
                    cube@,
                    0,
                ) == Some((r, final(self).log().len() as int)),
    {
        let ghost start = self.log().len() as int;
        let mut k: usize = 0;
        while k < cube.len()
            invariant
                k <= cube.len(),
                start == old(self).log().len(),
                self.asks(*old(self)),
                forall|l: Seq<Event>|
                    extends(l, self.log()) ==> #[trigger] keeps_run(
                        l,
                        start,
                        solver,
                        members(*keep),
                        cube@,
                        0,
                    ) == keeps_run(
                        l,
                        self.log().len() as int,
                        solver,
                        members(*keep),
                        cube@,
                        k as int,
                    ),
            decreases cube.len() - k,
        {
            if is_member(keep, cube[k].0) {
                let holds: bool = match self.sat_value(solver, cube[k]) {
                    Some(v) => v,
                    None => false,
                };
                if !holds {
                    return false;
                }
            }
            k = k + 1;
        }
        true
    }
}

/// The set of the codes of some literals.
pub fn lit_set(lits: &Vec<Lit>) -> (r: NumberSet)
    ensures
        members(r) == codes(lits@),
{
    set_of(lit_codes(lits))
}

/// Whether the model, given by the codes of its literals, lacks a literal to keep.
fn loses_one(cube: &Vec<Lit>, keep: &NumberSet, model: &Vec<Lit>, cex_set: &NumberSet) -> (r: bool)
    requires
        members(*cex_set) == codes(model@),
    ensures
        r == loses(cube@, members(*keep), model@),
{
    let mut k: usize = 0;
    while k < cube.len()
        invariant
            k <= cube.len(),
            members(*cex_set) == codes(model@),
            forall|j: int|
                0 <= j < k ==> !(members(*keep).contains((#[trigger] cube@[j]).0)
                    && !model@.contains(cube@[j])),
        decreases cube.len() - k,
    {
        assert(members(*cex_set).contains(cube@[k as int].0) == model@.contains(cube@[k as int]));
        if is_member(keep, cube[k].0) && !is_member(cex_set, cube[k].0) {
            return true;
        }
        k = k + 1;
    }
    false
}

/// What one query of a search leads to.
enum CtgMove {
    Over(Option<Vec<Lit>>),
    Shrink(Vec<Lit>),
    Block(Vec<Lit>),
}

impl CtgMove {
    /// The turn that ends at `at`.
    spec fn turn(self, at: int) -> CtgTurn {
        match self {
            CtgMove::Over(Some(c)) => CtgTurn::Over(Some(c@), at),
            CtgMove::Over(None) => CtgTurn::Over(None, at),
            CtgMove::Shrink(m) => CtgTurn::Shrink(m@, at),
            CtgMove::Block(m) => CtgTurn::Block(m@, at),
        }
    }
}

impl<R: Reasoner> Session<R> {
    /// Makes one query of [`Session::ctg_down`]; see [`ctg_turn`].
    fn ctg_query(&mut self, frame: usize, cube: &Vec<Lit>, keep: &NumberSet, more: bool) -> (r:
        CtgMove)
        requires
            frame > 0,
        ensures
            final(self).asks(*old(self)),
            old(self).log().len() < final(self).log().len(),
            forall|l: Seq<Event>|
                extends(l, final(self).log()) ==> #[trigger] ctg_turn(
                    l,
                    old(self).log().len() as int,
                    frame,
                    cube@,
                    members(*keep),
                    more,
                ) == r.turn(final(self).log().len() as int),
            r is Block ==> more && frame > 1,
    {
        let solver: usize = frame - 1;
        if self.cube_subsume_init(cube) {
            return CtgMove::Over(None);
        }
        self.tally(Tally::DownSat);
        if self.blocked_with_ordered(frame, cube, true) {
            return CtgMove::Over(Some(self.inductive_core(solver)));
        }
        if !self.keeps(solver, keep, cube) {
            return CtgMove::Over(None);
        }
        let (model, inputs) = self.get_pred(frame, false);
        let cex_set: NumberSet = lit_set(&model);
        if loses_one(cube, keep, &model, &cex_set) {
            return CtgMove::Over(None);
        }
        if more && frame > 1 && !self.cube_subsume_init(&model) {
            CtgMove::Block(model)
        } else {
            CtgMove::Shrink(model)
        }
    }

    /// Shrinks a cube until it is blocked, and blocks predecessors on the way; see [`ctg_run`].
    #[verifier::rlimit(80)]
    pub fn ctg_down(
        &mut self,
        setting: Setting,
        frame: usize,
        cube: &Vec<Lit>,
        keep: &NumberSet,
        full: &Vec<Lit>,
        parameter: DropVarParameter,
    ) -> (r: Result<Option<Vec<Lit>>, Fault>)
        requires
            frame > 0,
            setting.level < usize::MAX,
            parameter.max > 0 && frame > 1 ==> parameter.level > 0,
        ensures
            final(self).asks(*old(self)),
            old(self).log().len() < final(self).log().len(),
            forall|l: Seq<Event>|
                extends(l, final(self).log()) ==> #[trigger] ctg_run(
                    l,
                    old(self).log().len() as int,
                    setting,
                    frame,
                    cube@,
                    members(*keep),
                    full@,
                    parameter,
                ) == Some((shrunk(r), final(self).log().len() as int)),
        decreases parameter.level, 0int, 0int,
    {
        let ghost start = self.log().len() as int;
        let ghost kept = members(*keep);
        let solver: usize = frame - 1;
        let mut rest: Vec<Lit> = copy_lits(cube);
        let mut ctg: usize = 0;
        self.tally(Tally::Down);
        proof {
            reveal(ctg_run);
            assert forall|l: Seq<Event>| extends(l, self.log()) implies #[trigger] ctg_run(
                l,
                start,
                setting,
                frame,
                cube@,
                kept,
                full@,
                parameter,
            ) == ctg_loop(l, start + 1, setting, frame, cube@, kept, full@, parameter, 0) by {
                reveal(ctg_loop);
            }
        }
        loop
            invariant
                frame > 0,
                setting.level < usize::MAX,
                parameter.max > 0 && frame > 1 ==> parameter.level > 0,
                solver == frame - 1,
                ctg <= parameter.max,
                start == old(self).log().len(),
                start < self.log().len(),
                kept == members(*keep),
                self.asks(*old(self)),
                forall|l: Seq<Event>|
                    extends(l, self.log()) ==> #[trigger] ctg_run(
                        l,
                        start,
                        setting,
                        frame,
                        cube@,
                        kept,
                        full@,
                        parameter,
                    ) == ctg_loop(
                        l,
                        self.log().len() as int,
                        setting,
                        frame,
                        rest@,
                        kept,
                        full@,
                        parameter,
                        ctg as int,
                    ),
            decreases rest.len(), parameter.max - ctg,
        {
            let ghost head = self.log().len() as int;
            let turn: CtgMove = self.ctg_query(frame, &rest, keep, ctg < parameter.max);
            let ghost mid = self.log().len() as int;
            let (model, block) = match turn {
                CtgMove::Over(r) => {
                    proof {
                        assert forall|l: Seq<Event>| extends(l, self.log()) implies #[trigger] ctg_run(
                            l,
                            start,
                            setting,
                            frame,
                            cube@,
                            kept,
                            full@,
                            parameter,
                        ) == Some((shrunk(Ok(r)), mid)) by {
                            reveal(ctg_loop);
                            let t = ctg_turn(l, head, frame, rest@, kept, ctg < parameter.max);
                        }
                    }
                    return Ok(r);
                },
                CtgMove::Shrink(m) => (m, false),
                CtgMove::Block(m) => (m, true),
            };
            let blocked: bool = if block {
                let lemma: Vec<Lit> = sort_lits(&model);
                let mut constraint: Vec<Vec<Lit>> = Vec::new();
                constraint.push(negate_lits(full));
                assert(cubes(constraint@) =~= excluding(full@));
                match self.trivial_block(
                    setting,
                    frame - 1,
                    &lemma,
                    &constraint,
                    parameter.sub_level(),
                ) {
                    Ok(b) => b,
                    Err(f) => {
                        proof {
                            assert forall|l: Seq<Event>| extends(l, self.log()) implies #[trigger] ctg_run(
                                l,
                                start,
                                setting,
                                frame,
                                cube@,
                                kept,
                                full@,
                                parameter,
                            ) == Some((Err::<Option<Seq<Lit>>, Fault>(f), self.log().len() as int)) by {
                                reveal(ctg_loop);
                                reveal(trivial_run);
                                let t = ctg_turn(l, head, frame, rest@, kept, ctg < parameter.max);
                                let n = trivial_run(
                                    l,
                                    mid,
                                    setting,
                                    (frame - 1) as usize,
                                    sorted(model@),
                                    excluding(full@),
                                    parameter.limit,
                                    parameter.sub_level_spec(),
                                );
                            }
                        }
                        return Err(f);
                    },
                }
            } else {
                false
            };
            let needed: Vec<Lit> = common_lits(&rest, &model);
            let ghost stuck = !blocked && needed.len() == rest.len();
            proof {
                lemma_common(rest@, model@);
                assert forall|l: Seq<Event>| extends(l, self.log()) implies #[trigger] ctg_run(
                    l,
                    start,
                    setting,
                    frame,
                    cube@,
                    kept,
                    full@,
                    parameter,
                ) == if stuck {
                    Some((Err::<Option<Seq<Lit>>, Fault>(Fault::NoProgress), self.log().len() as int))
                } else {
                    ctg_loop(
                        l,
                        self.log().len() as int,
                        setting,
                        frame,
                        if blocked {
                            rest@
                        } else {
                            needed@
                        },
                        kept,
                        full@,
                        parameter,
                        if blocked {
                            ctg + 1
                        } else {
                            0
                        },
                    )
                } by {
                    reveal(ctg_loop);
                    reveal(trivial_run);
                    let t = ctg_turn(l, head, frame, rest@, kept, ctg < parameter.max);
                    let n = trivial_run(
                        l,
                        mid,
                        setting,
                        (frame - 1) as usize,
                        sorted(model@),
                        excluding(full@),
                        parameter.limit,
                        parameter.sub_level_spec(),
                    );
                }
            }
            if blocked {
                ctg = ctg + 1;
                continue ;
            }
            ctg = 0;
            if needed.len() == rest.len() {
                return Err(Fault::NoProgress);
            }
            rest = needed;
        }
    }

    /// Tries to block a cube, with as many cubes as the parameter allows; see [`trivial_run`].
    pub fn trivial_block(
        &mut self,
        setting: Setting,
        frame: usize,
        lemma: &Vec<Lit>,
        constraint: &Vec<Vec<Lit>>,
        parameter: DropVarParameter,
    ) -> (r: Result<bool, Fault>)
        requires
            setting.level < usize::MAX,
        ensures
            final(self).asks(*old(self)),
            forall|l: Seq<Event>|
                extends(l, final(self).log()) ==> (#[trigger] trivial_run(
                    l,
                    old(self).log().len() as int,
                    setting,
                    frame,
                    lemma@,
                    cubes(constraint@),
                    parameter.limit,
                    parameter,
                ) matches Some(t) && t.0 == r && t.2 == final(self).log().len()),
        decreases parameter.level, 3int, 0int,
    {
        let mut limit: usize = parameter.limit;
        self.trivial_block_rec(setting, frame, lemma, constraint, &mut limit, parameter)
    }

    /// Tries to block a cube, and its predecessors before it; see [`trivial_run`].
    #[verifier::rlimit(80)]
    pub fn trivial_block_rec(
        &mut self,
        setting: Setting,
        frame: usize,
        lemma: &Vec<Lit>,
        constraint: &Vec<Vec<Lit>>,
        limit: &mut usize,
        parameter: DropVarParameter,
    ) -> (r: Result<bool, Fault>)
        requires
            setting.level < usize::MAX,
        ensures
            final(self).asks(*old(self)),
            *final(limit) <= *old(limit),
            r == Ok::<bool, Fault>(true) ==> *final(limit) < *old(limit),
            forall|l: Seq<Event>|
                extends(l, final(self).log()) ==> #[trigger] trivial_run(
                    l,
                    old(self).log().len() as int,
                    setting,
                    frame,
                    lemma@,
                    cubes(constraint@),
                    *old(limit),
                    parameter,
                ) == Some((r, *final(limit), final(self).log().len() as int)),
        decreases parameter.level, 2int, *old(limit),
    {
        let ghost start = self.log().len() as int;
        proof {
            reveal(trivial_run);
        }
        if frame == 0 {
            return Ok(false);
        }
        if self.cube_subsume_init(lemma) {
            return Ok(false);
        }
        if *limit == 0 {
            return Ok(false);
        }
        *limit = *limit - 1;
        proof {
            assert forall|l: Seq<Event>| extends(l, self.log()) implies #[trigger] trivial_run(
                l,
                start,
                setting,
                frame,
                lemma@,
                cubes(constraint@),
                *old(limit),
                parameter,
            ) == trivial_loop(
                l,
                start + 1,
                setting,
                frame,
                lemma@,
                cubes(constraint@),
                *limit,
                parameter,
            ) by {
                reveal(trivial_loop);
            }
        }
        loop
            invariant
                frame > 0,
                setting.level < usize::MAX,
                *limit < *old(limit),
                start == old(self).log().len(),
                start < self.log().len(),
                self.asks(*old(self)),
                forall|l: Seq<Event>|
                    extends(l, self.log()) ==> #[trigger] trivial_run(
                        l,
                        start,
                        setting,
                        frame,
                        lemma@,
                        cubes(constraint@),
                        *old(limit),
                        parameter,
                    ) == trivial_loop(
                        l,
                        self.log().len() as int,
                        setting,
                        frame,
                        lemma@,
                        cubes(constraint@),
                        *limit,
                        parameter,
                    ),
            decreases *limit,
        {
            let ghost head = self.log().len() as int;
            let ghost left = *limit;
            if self.blocked_with_ordered_with_constrain(frame, lemma, true, constraint) {
                let core: Vec<Lit> = self.inductive_core(frame - 1);
                let ghost core_lits = core@;
                let ghost mid = self.log().len() as int;
                let dropped: Result<Vec<Lit>, Fault> = self.mic_by_dropping(
                    setting,
                    frame,
                    core,
                    constraint,
                    parameter,
                );
                let ghost mid2 = self.log().len() as int;
                proof {
                    assert forall|l: Seq<Event>| extends(l, self.log()) implies #[trigger] trivial_run(
                        l,
                        start,
                        setting,
                        frame,
                        lemma@,
                        cubes(constraint@),
                        *old(limit),
                        parameter,
                    ) == match dropped {
                        Err(f) => Some((Err::<bool, Fault>(f), left, mid2)),
                        Ok(mic) => match learn_run(l, mid2, setting.level, frame, mic@) {
                            None => None,
                            Some(at3) => Some((Ok::<bool, Fault>(true), left, at3)),
                        },
                    } by {
                        reveal(trivial_loop);
                        reveal(drop_run);
                        let d = drop_run(
                            l,
                            mid,
                            setting,
                            frame,
                            core_lits,
                            cubes(constraint@),
                            parameter,
                        );
                    }
                }
                let mic: Vec<Lit> = match dropped {
                    Ok(c) => c,
                    Err(f) => {
                        return Err(f);
                    },
                };
                let (reached, pushed) = self.push_lemma(setting.level, frame, mic);
                self.add_lemma(reached - 1, &pushed, false, None);
                return Ok(true);
            } else {
                if *limit == 0 {
                    proof {
                        reveal(trivial_loop);
                    }
                    return Ok(false);
                }
                let (model, inputs) = self.get_pred(frame, false);
                let before: Vec<Lit> = sort_lits(&model);
                let ghost mid = self.log().len() as int;
                let nested: Result<bool, Fault> = self.trivial_block_rec(
                    setting,
                    frame - 1,
                    &before,
                    constraint,
                    limit,
                    parameter,
                );
                proof {
                    assert forall|l: Seq<Event>| extends(l, self.log()) implies #[trigger] trivial_run(
                        l,
                        start,
                        setting,
                        frame,
                        lemma@,
                        cubes(constraint@),
                        *old(limit),
                        parameter,
                    ) == if nested == Ok::<bool, Fault>(true) {
                        trivial_loop(
                            l,
                            self.log().len() as int,
                            setting,
                            frame,
                            lemma@,
                            cubes(constraint@),
                            *limit,
                            parameter,
                        )
                    } else {
                        Some((nested, *limit, self.log().len() as int))
                    } by {
                        reveal(trivial_loop);
                        reveal(trivial_run);
                        let n = trivial_run(
                            l,
                            mid,
                            setting,
                            (frame - 1) as usize,
                            sorted(model@),
                            cubes(constraint@),
                            left,
                            parameter,
                        );
                    }
                }
                match nested {
                    Ok(blocked) => {
                        if !blocked {
                            return Ok(false);
                        }
                    },
                    Err(f) => {
                        return Err(f);
                    },
                }
            }
        }
    }

    /// Drops literals from a cube, with the solver restricted; see [`drop_run`].
    pub fn mic_by_dropping(
        &mut self,
        setting: Setting,
        frame: usize,
        cube: Vec<Lit>,
        constraint: &Vec<Vec<Lit>>,
        parameter: DropVarParameter,
    ) -> (r: Result<Vec<Lit>, Fault>)
        requires
            frame > 0,
            setting.level < usize::MAX,
        ensures
            final(self).asks(*old(self)),
            forall|l: Seq<Event>|
                extends(l, final(self).log()) ==> #[trigger] drop_run(
                    l,
                    old(self).log().len() as int,
                    setting,
                    frame,
                    cube@,
                    cubes(constraint@),
                    parameter,
                ) == Some((outcome(r), final(self).log().len() as int)),
        decreases parameter.level, 1int, 1int,
    {
        let ghost start = self.log().len() as int;
        let ghost lits = cube@;
        if parameter.level == 0 {
            self.unset_domain(frame - 1);
            self.restrict_domain(frame - 1, &cube);
        }
        let ghost mid = self.log().len() as int;
        let tried: Result<Vec<Lit>, Fault> = self.mic_by_drop_var(
            setting,
            frame,
            cube,
            constraint,
            parameter,
            false,
        );
        let ghost mid2 = self.log().len() as int;
        if parameter.level == 0 && tried.is_ok() {
            self.unset_domain(frame - 1);
        }
        proof {
            assert forall|l: Seq<Event>| extends(l, self.log()) implies #[trigger] drop_run(
                l,
                start,
                setting,
                frame,
                cube@,
                cubes(constraint@),
                parameter,
            ) == Some((outcome(tried), self.log().len() as int)) by {
                reveal(drop_run);
                reveal(drop_var_run);
                let d = domain_run(l, start + 1, (frame - 1) as usize, lits);
                let n = drop_var_run(
                    l,
                    mid,
                    setting,
                    frame,
                    lits,
                    cubes(constraint@),
                    parameter,
                    false,
                );
            }
        }
        tried
    }

    /// Tries to drop each literal of a cube; see [`drop_var_run`].
    #[verifier::rlimit(80)]
    pub fn mic_by_drop_var(
        &mut self,
        setting: Setting,
        frame: usize,
        cube: Vec<Lit>,
        constraint: &Vec<Vec<Lit>>,
        parameter: DropVarParameter,
        manage_domain: bool,
    ) -> (r: Result<Vec<Lit>, Fault>)
        requires
            frame > 0,
            setting.level < usize::MAX,
        ensures
            final(self).asks(*old(self)),
            forall|l: Seq<Event>|
                extends(l, final(self).log()) ==> #[trigger] drop_var_run(
                    l,
                    old(self).log().len() as int,
                    setting,
                    frame,
                    cube@,
                    cubes(constraint@),
                    parameter,
                    manage_domain,
                ) == Some((outcome(r), final(self).log().len() as int)),
        decreases parameter.level, 1int, 0int,
    {
        let ghost start = self.log().len() as int;
        let solver: usize = frame - 1;
        let manage: bool = parameter.level == 0 && manage_domain;
        if manage {
            self.restrict_domain(solver, &cube);
        }
        self.tally(Tally::MicCubeLen(cube.len()));
        self.tally(Tally::Mic);
        let mut rest: Vec<Lit> = self.order_cube(setting.order, frame, copy_lits(&cube));
        let mut keep: NumberSet = empty_set();
        let mut i: usize = 0;
        proof {
            assert forall|l: Seq<Event>| extends(l, self.log()) implies #[trigger] drop_var_run(
                l,
                start,
                setting,
                frame,
                cube@,
                cubes(constraint@),
                parameter,
                manage_domain,
            ) == drop_var_loop(
                l,
                self.log().len() as int,
                setting,
                frame,
                rest@,
                cubes(constraint@),
                parameter,
                manage,
                Set::empty(),
                0,
            ) by {
                reveal(drop_var_run);
                reveal(drop_var_loop);
            }
        }
        while i < rest.len()
            invariant
                frame > 0,
                setting.level < usize::MAX,
                solver == frame - 1,
                manage == (parameter.level == 0 && manage_domain),
                i <= rest.len(),
                start == old(self).log().len(),
                self.asks(*old(self)),
                forall|l: Seq<Event>|
                    extends(l, self.log()) ==> #[trigger] drop_var_run(
                        l,
                        start,
                        setting,
                        frame,
                        cube@,
                        cubes(constraint@),
                        parameter,
                        manage_domain,
                    ) == drop_var_loop(
                        l,
                        self.log().len() as int,
                        setting,
                        frame,
                        rest@,
                        cubes(constraint@),
                        parameter,
                        manage,
                        members(keep),
                        i as int,
                    ),
            decreases rest.len() - i,
        {
            let ghost head = self.log().len() as int;
            if is_member(&keep, rest[i].0) {
                proof {
                    assert forall|l: Seq<Event>| extends(l, self.log()) implies #[trigger] drop_var_run(
                        l,
                        start,
                        setting,
                        frame,
                        cube@,
                        cubes(constraint@),
                        parameter,
                        manage_domain,
                    ) == drop_var_loop(
                        l,
                        head,
                        setting,
                        frame,
                        rest@,
                        cubes(constraint@),
                        parameter,
                        manage,
                        members(keep),
                        i + 1,
                    ) by {
                        reveal(drop_var_loop);
                    }
                }
                i = i + 1;
                continue ;
            }
            let removed: Vec<Lit> = without(&rest, i);
            let tried: Result<Option<Vec<Lit>>, Fault> = if parameter.level == 0 {
                let mut seen: Vec<Step> = Vec::new();
                assert(steps(seen@) =~= seq![]);
                self.down(frame, &removed, &keep, &rest, constraint, &mut seen)
            } else {
                self.ctg_down(setting, frame, &removed, &keep, &rest, parameter)
            };
            let ghost mid = self.log().len() as int;
            let ghost (rest0, keep0, i0) = (rest@, members(keep), i as int);
            let ghost came = Some((shrunk(tried), mid));
            proof {
                assert forall|l: Seq<Event>| extends(l, self.log()) implies #[trigger] drop_var_run(
                    l,
                    start,
                    setting,
                    frame,
                    cube@,
                    cubes(constraint@),
                    parameter,
                    manage_domain,
                ) == match drop_turn(l, solver, rest0, manage, keep0, i0, came) {
                    DropTurn::Off => None,
                    DropTurn::Failed(f, at2) => Some((Err(f), at2)),
                    DropTurn::Next(rest2, keep2, next, at2) => if head < at2 <= l.len() {
                        drop_var_loop(
                            l,
                            at2,
                            setting,
                            frame,
                            rest2,
                            cubes(constraint@),
                            parameter,
                            manage,
                            keep2,
                            next,
                        )
                    } else {
                        None
                    },
                } by {
                    reveal(drop_var_loop);
                    reveal(ctg_run);
                    if parameter.level == 0 {
                        reveal(down_run);
                        let d = down_run(
                            l,
                            head,
                            frame,
                            rest0.remove(i0),
                            keep0,
                            rest0,
                            cubes(constraint@),
                        );
                        assert(d == came);
                    } else {
                        let d = ctg_run(
                            l,
                            head,
                            setting,
                            frame,
                            rest0.remove(i0),
                            keep0,
                            rest0,
                            parameter,
                        );
                        assert(d == came);
                    }
                    match drop_turn(l, solver, rest0, manage, keep0, i0, came) {
                        DropTurn::Next(rest2, keep2, next, at2) => {
                            let n = drop_var_loop(
                                l,
                                at2,
                                setting,
                                frame,
                                rest2,
                                cubes(constraint@),
                                parameter,
                                manage,
                                keep2,
                                next,
                            );
                        },
                        _ => {},
                    }
                }
            }
            match tried {
                Err(f) => {
                    return Err(f);
                },
                Ok(Some(smaller)) => {
                    self.tally(Tally::MicDrop(true));
                    match handle_down_success(&rest, i, &smaller) {
                        Err(f) => {
                            return Err(f);
                        },
                        Ok((left, next)) => {
                            rest = left;
                            i = next;
                        },
                    }
                    if manage {
                        self.unset_domain(solver);
                        self.restrict_domain(solver, &rest);
                    }
                },
                Ok(None) => {
                    self.tally(Tally::MicDrop(false));
                    insert_member(&mut keep, rest[i].0);
                    i = i + 1;
                },
            }
        }
        let ghost head = self.log().len() as int;
        if manage {
            self.unset_domain(solver);
        }
        self.bump_cube_activity(&rest);
        proof {
            assert forall|l: Seq<Event>| extends(l, self.log()) implies #[trigger] drop_var_run(
                l,
                start,
                setting,
                frame,
                cube@,
                cubes(constraint@),
                parameter,
                manage_domain,
            ) == Some((Ok::<Seq<Lit>, Fault>(rest@), self.log().len() as int)) by {
                reveal(drop_var_loop);
            }
        }
        Ok(rest)
    }
}

} // verus!
