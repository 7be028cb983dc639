//! What propagation makes of true answers.

use vstd::prelude::*;

use crate::block_laws::{
    all_earnest, follows, kept, lemma_earnest_moved, lemma_equal, lemma_standing, standing,
};
use crate::fault::Fault;
use crate::keeping::{
    blockable, clear, lemma_blockable_later, lemma_quiet, lemma_sound_add, lemma_sound_quiet, quiet,
};
use crate::lit::Lit;
use crate::meaning::{
    adds, admitted, equal_at, holds, init_free, last_query, lemma_admitted, lemma_at,
    lemma_same_members, no_step, query_of, true_event, truthful, Query, System,
};
use crate::mic_laws::{covers, lemma_conclude, lemma_core, lemma_mic, sound_somehow};
use crate::multi::mic_run;
use crate::obligation::FrameLemmaView;
use crate::param::{DropVarParameter, MicType};
use crate::propagate::{
    advance_run, carry_run, core_run, ctp_run, frames_run, max_tries, move_run, moves_run,
    propagate_run, Ctp,
};
use crate::session::{yes, Call, Event};
use crate::state::StateView;

verus! {

/// What is to be added to the next frame may be excluded from it.
proof fn lemma_lemma_core(
    sys: System,
    log: Seq<Event>,
    at: int,
    inn: bool,
    frame: usize,
    cube: Seq<Lit>,
    pend: Seq<(Seq<Lit>, int)>,
)
    requires
        truthful(sys, log),
        0 < at <= log.len(),
        frame < usize::MAX,
        init_free(sys, cube),
        log[at - 1].call == (Call::Blocked {
            frame: (frame + 1) as usize,
            cube,
            strengthen: false,
        }),
        yes(log, at - 1),
        core_run(log, at, inn, frame, cube) is Some,
    ensures
        ({
            let (core, at2) = core_run(log, at, inn, frame, cube)->0;
            &&& at <= at2 <= log.len()
            &&& quiet(log, at, at2)
            &&& blockable(sys, log, at2, frame + 1, core, pend)
        }),
{
    let q = at - 1;
    let query = Query { cube, strengthen: false, constraint: seq![] };
    assert(query_of(log[q].call, frame as int) == Some(query));
    assert(covers(query.constraint, pend, frame + 1));
    assert(last_query(log, at, frame as int) == Some(q));
    if !inn {
        lemma_core(sys, log, q, at, (frame + 1) as usize, query, pend);
        lemma_blockable_later(sys, log, at, at + 1, frame + 1, log[at].reply->Cube_0, pend);
    } else if yes(log, at) {
        assert(true_event(sys, log, q));
        assert(no_step(sys, log, q, frame as int, query, cube));
        assert forall|a: Set<u32>, b: Set<u32>|
            admitted(log, at + 1, frame as int, a) && !holds(a, cube) && clear(pend, frame + 1, a)
                && #[trigger] sys.walks(a, b) implies !holds(b, cube) by {
            lemma_admitted(log, q, at + 1, frame as int, frame as int, a);
        }
    } else {
        assert(last_query(log, at + 1, frame as int) == last_query(log, at, frame as int));
        lemma_core(sys, log, q, at + 1, (frame + 1) as usize, query, pend);
        lemma_blockable_later(
            sys,
            log,
            at + 1,
            at + 2,
            frame + 1,
            log[at + 1].reply->Cube_0,
            pend,
        );
    }
}

/// Moving an obligation on leaves it what it is.
proof fn lemma_advance(
    sys: System,
    log: Seq<Event>,
    at: int,
    s: StateView,
    frame: usize,
    owner: Option<usize>,
)
    requires
        0 <= at <= log.len(),
        all_earnest(sys, s.obligations),
        frame + 2 <= usize::MAX,
        advance_run(log, at, s, frame, owner) is Some,
    ensures
        ({
            let (r, s2, at2) = advance_run(log, at, s, frame, owner)->0;
            &&& at <= at2 <= log.len()
            &&& quiet(log, at, at2)
            &&& all_earnest(sys, s2.obligations)
            &&& follows(s2, s)
        }),
{
    if let Some(id) = owner {
        let to = (frame + 2) as usize;
        if id < s.obligations.len() {
            lemma_earnest_moved(sys, s, id, to);
        }
    }
}

/// Adding a lemma to the next frame keeps what holds.
pub proof fn lemma_carry(
    sys: System,
    log: Seq<Event>,
    at: int,
    s: StateView,
    frame: usize,
    lemma: FrameLemmaView,
    tried: bool,
    pend: Seq<(Seq<Lit>, int)>,
)
    requires
        truthful(sys, log),
        standing(sys, log, at, s, pend),
        frame < s.level(),
        0 < at,
        init_free(sys, lemma.cube),
        log[at - 1].call == (Call::Blocked {
            frame: (frame + 1) as usize,
            cube: lemma.cube,
            strengthen: false,
        }),
        yes(log, at - 1),
        carry_run(log, at, s, frame, lemma, tried) is Some,
    ensures
        ({
            let (r, s2, at2) = carry_run(log, at, s, frame, lemma, tried)->0;
            &&& at <= at2 <= log.len()
            &&& match r {
                Err(_) => sound_somehow(sys, log, at2),
                Ok(_) => kept(sys, log, at2, s, s2, false, false, pend),
            }
        }),
{
    lemma_lemma_core(sys, log, at, s.options.ic3.inn, frame, lemma.cube, pend);
    let (core, at2) = core_run(log, at, s.options.ic3.inn, frame, lemma.cube)->0;
    lemma_advance(sys, log, at2, s, frame, lemma.po);
    let (r, s2, at3) = advance_run(log, at2, s, frame, lemma.po)->0;
    assert(quiet(log, at, at3));
    lemma_sound_quiet(sys, log, at, at3, pend);
    if r is Ok {
        lemma_blockable_later(sys, log, at2, at3, frame + 1, core, pend);
        lemma_sound_add(sys, log, at3, (frame + 1) as usize, core, pend);
        lemma_sound_quiet(sys, log, at3 + 1, at3 + 2, pend);
        lemma_standing(sys, log, at, at3 + 2, s, s2, pend, pend);
    }
}

/// Excluding a counterexample keeps what holds.
pub proof fn lemma_ctp(
    sys: System,
    log: Seq<Event>,
    at: int,
    s: StateView,
    frame: usize,
    pend: Seq<(Seq<Lit>, int)>,
)
    requires
        truthful(sys, log),
        standing(sys, log, at, s, pend),
        0 < frame < s.level(),
        ctp_run(log, at, s, frame) is Some,
    ensures
        ({
            let (r, at2) = ctp_run(log, at, s, frame)->0;
            &&& at <= at2 <= log.len()
            &&& match r {
                Err(_) => sound_somehow(sys, log, at2),
                Ok(ctp) => kept(sys, log, at2, s, s, ctp == Ctp::Equal, false, pend),
            }
        }),
{
    let model = log[at].reply->Pred_0;
    lemma_sound_quiet(sys, log, at, at + 2, pend);
    lemma_standing(sys, log, at, at + 2, s, s, pend, pend);
    if !yes(log, at + 1) {
        assert(true_event(sys, log, at + 1));
        lemma_sound_quiet(sys, log, at, at + 3, pend);
        lemma_standing(sys, log, at, at + 3, s, s, pend, pend);
        if yes(log, at + 2) {
            let core = log[at + 3].reply->Cube_0;
            let query = Query { cube: model, strengthen: true, constraint: seq![] };
            let mic_type = MicType::DropVar(DropVarParameter::zero());
            assert(query_of(log[at + 2].call, frame - 1) == Some(query));
            assert(last_query(log, at + 3, frame - 1) == Some(at + 2));
            assert(covers(query.constraint, pend, frame as int));
            lemma_core(sys, log, at + 2, at + 3, frame, query, pend);
            assert(true_event(sys, log, at + 3));
            lemma_sound_quiet(sys, log, at, at + 4, pend);
            lemma_blockable_later(sys, log, at + 3, at + 4, frame as int, core, pend);
            let pend2 = lemma_mic(
                sys,
                log,
                at + 4,
                s.setting(),
                s.options.ic3.inn,
                frame,
                core,
                seq![],
                mic_type,
                pend,
            );
            let (r, at2) = mic_run(
                log,
                at + 4,
                s.setting(),
                s.options.ic3.inn,
                frame,
                core,
                seq![],
                mic_type,
            )->0;
            if let Ok(mic) = r {
                lemma_conclude(sys, log, at2, at2, frame, mic, frame + 1, mic, pend);
                lemma_standing(sys, log, at, at2 + 1, s, s, pend, pend);
                if yes(log, at2) {
                    lemma_equal(sys, log, at2, frame, s.level() as int);
                }
            }
        }
    }
}

/// Trying to move a lemma keeps what holds, and where two frames are said to be equal they are.
pub proof fn lemma_move(
    sys: System,
    log: Seq<Event>,
    at: int,
    s: StateView,
    frame: usize,
    lemma: FrameLemmaView,
    tries: nat,
    tried: bool,
    pend: Seq<(Seq<Lit>, int)>,
)
    requires
        truthful(sys, log),
        standing(sys, log, at, s, pend),
        0 < frame < s.level(),
        init_free(sys, lemma.cube),
        move_run(log, at, s, frame, lemma, tries, tried) is Some,
    ensures
        ({
            let (r, s2, at2) = move_run(log, at, s, frame, lemma, tries, tried)->0;
            &&& at <= at2 <= log.len()
            &&& match r {
                Err(_) => sound_somehow(sys, log, at2),
                Ok(equal) => kept(sys, log, at2, s, s2, equal, false, pend),
            }
        }),
    decreases tries,
{
    if tries > 0 {
        lemma_sound_quiet(sys, log, at, at + 1, pend);
        lemma_standing(sys, log, at, at + 1, s, s, pend, pend);
        if yes(log, at) {
            lemma_carry(sys, log, at + 1, s, frame, lemma, tried, pend);
        } else if s.options.ic3.ctp {
            lemma_ctp(sys, log, at + 1, s, frame, pend);
            let (r, at2) = ctp_run(log, at + 1, s, frame)->0;
            if r == Ok::<Ctp, Fault>(Ctp::Excluded) {
                lemma_move(sys, log, at2, s, frame, lemma, (tries - 1) as nat, true, pend);
            }
        }
    }
}

/// The same for several lemmas.
pub proof fn lemma_moves(
    sys: System,
    log: Seq<Event>,
    at: int,
    s: StateView,
    frame: usize,
    lemmas: Seq<FrameLemmaView>,
    k: int,
    pend: Seq<(Seq<Lit>, int)>,
)
    requires
        truthful(sys, log),
        standing(sys, log, at, s, pend),
        0 < frame < s.level(),
        0 <= k,
        forall|i: int| 0 <= i < lemmas.len() ==> init_free(sys, (#[trigger] lemmas[i]).cube),
        moves_run(log, at, s, frame, lemmas, k) is Some,
    ensures
        ({
            let (r, s2, at2) = moves_run(log, at, s, frame, lemmas, k)->0;
            &&& at <= at2 <= log.len()
            &&& match r {
                Err(_) => sound_somehow(sys, log, at2),
                Ok(equal) => kept(sys, log, at2, s, s2, equal, false, pend),
            }
        }),
    decreases lemmas.len() - k,
{
    if k < lemmas.len() {
        lemma_sound_quiet(sys, log, at, at + 1, pend);
        lemma_standing(sys, log, at, at + 1, s, s, pend, pend);
        if !yes(log, at) {
            lemma_moves(sys, log, at + 1, s, frame, lemmas, k + 1, pend);
        } else {
            lemma_move(sys, log, at + 1, s, frame, lemmas[k], max_tries(), false, pend);
            let (r, s2, at2) = move_run(
                log,
                at + 1,
                s,
                frame,
                lemmas[k],
                max_tries(),
                false,
            )->0;
            if r == Ok::<bool, Fault>(false) {
                lemma_moves(sys, log, at2, s2, frame, lemmas, k + 1, pend);
            }
        }
    }
}

/// The lemmas of a frame exclude no initial state.
pub proof fn lemma_frame_lemmas(
    sys: System,
    log: Seq<Event>,
    p: int,
    frame: usize,
    s: StateView,
    pend: Seq<(Seq<Lit>, int)>,
)
    requires
        truthful(sys, log),
        standing(sys, log, p, s, pend),
        p < log.len(),
        log[p].call == (Call::FrameLemmas { frame }),
    ensures
        forall|i: int|
            0 <= i < log[p].reply->Lemmas_0.len() ==> init_free(
                sys,
                (#[trigger] log[p].reply->Lemmas_0[i]).cube,
            ),
{
    let lemmas = log[p].reply->Lemmas_0;
    assert(true_event(sys, log, p));
    assert forall|i: int| 0 <= i < lemmas.len() implies init_free(
        sys,
        (#[trigger] lemmas[i]).cube,
    ) by {
        let q = choose|q: int| 0 <= q < p && #[trigger] adds(log, q, lemmas[i].cube);
        let c = match lemma_at(log, q) {
            Some((_, c)) => c,
            None => seq![],
        };
        assert(init_free(sys, c));
        lemma_same_members(sys, c, lemmas[i].cube);
    }
}

/// The same for all lemmas of some frames.
proof fn lemma_frames(
    sys: System,
    log: Seq<Event>,
    at: int,
    s: StateView,
    frame: usize,
    pend: Seq<(Seq<Lit>, int)>,
)
    requires
        truthful(sys, log),
        standing(sys, log, at, s, pend),
        0 < frame,
        frames_run(log, at, s, frame) is Some,
    ensures
        ({
            let (r, s2, at2) = frames_run(log, at, s, frame)->0;
            &&& at <= at2 <= log.len()
            &&& match r {
                Err(_) => sound_somehow(sys, log, at2),
                Ok(equal) => kept(sys, log, at2, s, s2, equal, false, pend),
            }
        }),
    decreases s.level() - frame,
{
    reveal(frames_run);
    if frame >= s.level() {
        lemma_sound_quiet(sys, log, at, at + 1, pend);
        lemma_standing(sys, log, at, at + 1, s, s, pend, pend);
    } else {
        lemma_sound_quiet(sys, log, at, at + 2, pend);
        lemma_sound_quiet(sys, log, at, at + 1, pend);
        lemma_standing(sys, log, at, at + 1, s, s, pend, pend);
        lemma_standing(sys, log, at, at + 2, s, s, pend, pend);
        let lemmas = log[at + 1].reply->Lemmas_0;
        lemma_frame_lemmas(sys, log, at + 1, frame, s, pend);
        lemma_moves(sys, log, at + 2, s, frame, lemmas, 0, pend);
        let (r, s2, at2) = moves_run(log, at + 2, s, frame, lemmas, 0)->0;
        if r == Ok::<bool, Fault>(false) {
            lemma_sound_quiet(sys, log, at2, at2 + 1, pend);
            lemma_standing(sys, log, at2, at2 + 1, s2, s2, pend, pend);
            if yes(log, at2) {
                assert(true_event(sys, log, at2));
                assert(equal_at(log, at2 + 1, frame as int)) by {
                    assert forall|a: Set<u32>| #[trigger]
                        admitted(log, at2 + 1, frame + 1, a) implies admitted(
                        log,
                        at2 + 1,
                        frame as int,
                        a,
                    ) by {
                        lemma_quiet(log, at2, at2 + 1, frame + 1, a);
                        lemma_quiet(log, at2, at2 + 1, frame as int, a);
                    }
                }
            } else {
                lemma_frames(sys, log, at2 + 1, s2, (frame + 1) as usize, pend);
            }
        }
    }
}

/// Propagation keeps what holds, and where two frames are said to be equal they are.
pub proof fn lemma_propagate(
    sys: System,
    log: Seq<Event>,
    at: int,
    s: StateView,
    from: Option<usize>,
    pend: Seq<(Seq<Lit>, int)>,
)
    requires
        truthful(sys, log),
        standing(sys, log, at, s, pend),
        propagate_run(log, at, s, from) is Some,
    ensures
        ({
            let (r, s2, at2) = propagate_run(log, at, s, from)->0;
            &&& at <= at2 <= log.len()
            &&& match r {
                Err(_) => sound_somehow(sys, log, at2),
                Ok(equal) => kept(sys, log, at2, s, s2, equal, false, pend),
            }
        }),
{
    let first = match from {
        Some(f) => f,
        None => log[at].reply->Size_0,
    };
    let frame: usize = if first < 1 {
        1
    } else {
        first
    };
    if from is None {
        lemma_sound_quiet(sys, log, at, at + 1, pend);
        lemma_standing(sys, log, at, at + 1, s, s, pend, pend);
        lemma_frames(sys, log, at + 1, s, frame, pend);
    } else {
        lemma_frames(sys, log, at, s, frame, pend);
    }
}

} // verus!
