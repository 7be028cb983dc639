//! What a verdict comes after.

use vstd::prelude::*;

use crate::block::{block_run, turn_run, Turn};
use crate::engine::{
    advance_level_run, base_run, check_run, extend_run, last_obligation, search_run,
};
use crate::session::{Call, Event};
use crate::state::StateView;

verus! {

/// Whether a log ends before `at` with the obligation that a counterexample starts from: one that
/// was queued at the first frame; or, where constraints were left out, one that was queued, and
/// then confirmed under all of them.
pub open spec fn ends_reached(log: Seq<Event>, at: int, s: StateView) -> bool {
    ||| at > 0 && (log[at - 1].call matches Call::AddObligation { id, po } && {
        &&& id < s.obligations.len()
        &&& s.obligations[id as int] == po
        &&& po.frame == 0
    })
    ||| s.options.ic3.abs_cst && at > 1 && log[at - 1].reply->MaybeCube_0 is None && (
    log[at - 2].call matches Call::AddObligation { id, po } && {
        &&& id < s.obligations.len()
        &&& s.obligations[id as int] == po
        &&& log[at - 1].call == Call::CheckWitnessByBmc { id }
    })
}

/// What comes before obligations reach an initial state.
proof fn lemma_reached_end(log: Seq<Event>, at: int, s: StateView, rounds: u64)
    ensures
        block_run(log, at, s, rounds) matches Some((Ok(Turn::Reached), s2, _, at2))
            ==> ends_reached(log, at2, s2),
    decreases rounds,
{
    reveal(block_run);
    if rounds > 0 {
        if let Some((Ok(Turn::More), s2, at2)) = turn_run(log, at, s) {
            lemma_reached_end(log, at2, s2, (rounds - 1) as u64);
        }
    }
}

/// What comes before a verdict of the search after the first frame.
proof fn lemma_search_end(log: Seq<Event>, at: int, s: StateView, rounds: u64)
    ensures
        search_run(log, at, s, rounds) matches Some((Ok(Some(true)), _, at2)) ==> at2 > 0
            && log[at2 - 1].call == Call::Verify,
        search_run(log, at, s, rounds) matches Some((Ok(Some(false)), s2, at2)) ==> ends_reached(
            log,
            at2,
            s2,
        ),
    decreases rounds,
{
    reveal(search_run);
    lemma_reached_end(log, at, s, rounds);
    if let Some((Ok(Turn::Drained), s2, left, at2)) = block_run(log, at, s, rounds) {
        if left < rounds {
            if let Some((model, input)) = log[at2].reply->BadState_0 {
                let po = last_obligation(s2.level(), model, input);
                lemma_search_end(log, at2 + 2, s2.with_obligation(po), left);
            } else if let Some((Ok(false), s3, at3)) = advance_level_run(log, at2 + 1, s2) {
                lemma_search_end(log, at3, s3, left);
            }
        }
    }
}

/// Before the verdict that no bad state can be reached, the last request is to verify the
/// certificate. Before the verdict that one can, it is to queue the obligation at the first frame
/// that the counterexample starts from, or, where constraints were left out, to confirm the
/// counterexample after that.
pub proof fn law_verdict(
    log: Seq<Event>,
    at: int,
    s: StateView,
    rounds: u64,
)
    requires
        s.obligations.len() <= usize::MAX,
    ensures
        check_run(log, at, s, rounds) matches Some((Ok(Some(true)), _, at2)) ==> at2 > 0 && log[at2
            - 1].call == Call::Verify,
        check_run(log, at, s, rounds) matches Some((Ok(Some(false)), s2, at2)) ==> ends_reached(
            log,
            at2,
            s2,
        ),
{
    if let Some((more, s2, at2)) = base_run(log, at, s) {
        if more {
            lemma_search_end(log, at2, s2, rounds);
        } else {
            reveal(extend_run);
        }
    }
}

} // verus!
