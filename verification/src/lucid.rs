//! What more it is for answers to be true: of models, of the shape of cubes, and of the queue.
//!
//! The laws on verdicts need none of this. It is what keeps the engine from meeting an answer with
//! which it cannot go on.

use vstd::prelude::*;

use crate::lit::Lit;
use crate::meaning::{
    admitted, holds, last_query, lit_holds, meets_init, query_of, same_members, within, Query,
    System,
};
use crate::obligation::FrameLemmaView;
use crate::session::{Call, Event};

verus! {

/// Whether a state is outside of the cube of the question at `q`, and agrees with the values that
/// the solver gives for the literals of the cube until it is asked again.
pub open spec fn fits(log: Seq<Event>, q: int, solver: int, query: Query, a: Set<u32>) -> bool {
    &&& !holds(a, query.cube)
    &&& forall|p: int|
        #![trigger log[p]]
        q < p < log.len() && last_query(log, p, solver) == Some(q) ==> match log[p].call {
            Call::SatValue { solver: s, lit } => s == solver && query.cube.contains(lit) ==> (
            log[p].reply->Value_0 matches Some(v) ==> lit_holds(a, lit) == v),
            _ => true,
        }
}

/// Whether the model behind a negative answer is one: where the state before the step is to lie
/// outside of the cube, it does.
pub open spec fn true_model(log: Seq<Event>, q: int, solver: int) -> bool {
    match query_of(log[q].call, solver) {
        None => true,
        Some(query) => !log[q].reply->Flag_0 && query.strengthen ==> exists|a: Set<u32>| #[trigger]
            fits(log, q, solver, query, a),
    }
}

/// Whether a core has only literals of the cube of the last question, where that was answered
/// positively, and none of them twice.
pub open spec fn shaped_core(log: Seq<Event>, p: int, solver: int) -> bool {
    let c = log[p].reply->Cube_0;
    match last_query(log, p, solver) {
        None => true,
        Some(q) => log[q].reply->Flag_0 ==> within(c, query_of(log[q].call, solver)->0.cube)
            && c.no_duplicates(),
    }
}

/// Whether a state of the frame before the last question, which was answered negatively, is in a
/// predecessor, and outside of the cube of the question where it is to be.
pub open spec fn shaped_pred(log: Seq<Event>, p: int, solver: int) -> bool {
    let model = log[p].reply->Pred_0;
    match last_query(log, p, solver) {
        None => true,
        Some(q) => {
            let query = query_of(log[q].call, solver)->0;
            !log[q].reply->Flag_0 ==> exists|a: Set<u32>| #[trigger]
                admitted(log, q, solver, a) && holds(a, model) && (query.strengthen ==> !holds(
                    a,
                    query.cube,
                ))
        },
    }
}

/// The frame at which an obligation was put into the queue last, if it was.
pub open spec fn place(log: Seq<Event>, n: int, id: usize) -> Option<usize>
    decreases n,
{
    if n <= 0 {
        None
    } else {
        match log[n - 1].call {
            Call::AddObligation { id: i, po } => if i == id {
                Some(po.frame)
            } else {
                place(log, n - 1, id)
            },
            Call::RequeueObligation { id: i, po } => if i == id {
                Some(po.frame)
            } else {
                place(log, n - 1, id)
            },
            _ => place(log, n - 1, id),
        }
    }
}

/// Whether the event at `q` adds a lemma with the literals and for the obligation of the given one.
pub open spec fn adds_for(log: Seq<Event>, q: int, lemma: FrameLemmaView) -> bool {
    match log[q].call {
        Call::AddLemma { cube, owner, .. } => same_members(cube, lemma.cube) && owner == lemma.po,
        _ => false,
    }
}

/// Whether a constraint was found to be violated before.
pub open spec fn reported(log: Seq<Event>, n: int, l: Lit) -> bool {
    exists|q: int| 0 <= q < n && #[trigger] reports(log, q, l)
}

/// Whether the event at `q` finds a constraint violated.
pub open spec fn reports(log: Seq<Event>, q: int, l: Lit) -> bool {
    log[q].call is CheckWitnessByBmc && (log[q].reply->MaybeCube_0 matches Some(more)
        && more.contains(l))
}

/// Whether an answer is true in this sense. With `inn` the initial values of the latches leave open
/// more than there is.
pub open spec fn lucid_event(sys: System, log: Seq<Event>, p: int, inn: bool) -> bool {
    let reply = log[p].reply;
    match log[p].call {
        Call::Blocked { frame, .. } => true_model(log, p, frame - 1),
        Call::BlockedUnder { frame, .. } => true_model(log, p, frame - 1),
        Call::Inductive { solver, .. } => true_model(log, p, solver as int),
        Call::InductiveCore { solver } => shaped_core(log, p, solver as int),
        Call::GetPred { frame, .. } => shaped_pred(log, p, frame - 1),
        Call::SortHybrid { cube, .. } => cube.no_duplicates() ==> reply->Cube_0.no_duplicates(),
        Call::SortByActivity { cube, .. } => cube.no_duplicates()
            ==> reply->Cube_0.no_duplicates(),
        Call::CubeSubsumeInit { cube } => !inn && reply->Flag_0 ==> meets_init(sys, cube),
        Call::Solve { solver, cube } => solver == 0 && reply->Flag_0 ==> meets_init(sys, cube),
        Call::PopObligation { level } => reply->Index_0 matches Some(id) ==> (place(log, p, id)
            matches Some(f) && f <= level),
        Call::TrivialContained { cube, .. } => reply->Index_0 matches Some(k) ==> {
            &&& k < usize::MAX
            &&& forall|a: Set<u32>| #[trigger] admitted(log, p, k as int, a) ==> !holds(a, cube)
        },
        Call::GetBad { level } => reply->BadState_0 matches Some((model, _)) ==> {
            &&& exists|a: Set<u32>| #[trigger]
                admitted(log, p, level as int, a) && holds(a, model)
            &&& sys.exact ==> forall|a: Set<u32>| #[trigger] holds(a, model) ==> sys.is_goal(a)
        },
        Call::FrameLemmas { .. } => forall|i: int|
            #![trigger reply->Lemmas_0[i]]
            0 <= i < reply->Lemmas_0.len() ==> exists|q: int|
                0 <= q < p && #[trigger] adds_for(log, q, reply->Lemmas_0[i]),
        Call::CheckWitnessByBmc { .. } => reply->MaybeCube_0 matches Some(more) ==> {
            &&& more.no_duplicates()
            &&& forall|l: Lit| #[trigger] more.contains(l) ==> !reported(log, p, l)
        },
        _ => true,
    }
}

/// Whether all answers in a log are true in this sense.
pub open spec fn lucid(sys: System, log: Seq<Event>, inn: bool) -> bool {
    forall|p: int| 0 <= p < log.len() ==> #[trigger] lucid_event(sys, log, p, inn)
}

} // verus!
