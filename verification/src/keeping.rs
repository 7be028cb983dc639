//! The invariant that the lemmas of the frames keep, as long as the answers are true.
//!
//! Each lemma excludes no initial state, and no step leads from the frame before that of the
//! lemma into its cube. While a cube is generalized, lemmas may rest on its being excluded before
//! it is: such a cube is pending, up to the frame of the lemmas that rest on it.

use vstd::prelude::*;

use crate::lit::Lit;
use crate::meaning::{
    admitted, holds, init_free, lemma_admitted, lemma_at, lemma_within, within, System,
};
use crate::session::Event;

verus! {

/// Whether a state is outside of the pending cubes that lemmas of frame `j` may rest on.
pub open spec fn clear(pend: Seq<(Seq<Lit>, int)>, j: int, a: Set<u32>) -> bool {
    forall|i: int| 0 <= i < pend.len() && j <= (#[trigger] pend[i]).1 ==> !holds(a, pend[i].0)
}

/// Whether no state that is reached within `k` steps is in a cube.
pub open spec fn excluded(sys: System, c: Seq<Lit>, k: int) -> bool {
    forall|a: Set<u32>, i: nat| #[trigger] sys.walked(a, i) && i <= k ==> !holds(a, c)
}

/// Whether no step leads into a cube from the states of frame `j - 1` that are in no pending cube.
pub open spec fn kept_out(
    sys: System,
    log: Seq<Event>,
    n: int,
    j: int,
    c: Seq<Lit>,
    pend: Seq<(Seq<Lit>, int)>,
) -> bool {
    forall|a: Set<u32>, b: Set<u32>|
        admitted(log, n, j - 1, a) && clear(pend, j, a) && #[trigger] sys.walks(a, b) ==> !holds(
            b,
            c,
        )
}

/// Whether a cube may be excluded from frame `j`: no initial state is in it, and no step leads
/// into it from the states outside of it in frame `j - 1` that are in no pending cube.
pub open spec fn blockable(
    sys: System,
    log: Seq<Event>,
    n: int,
    j: int,
    c: Seq<Lit>,
    pend: Seq<(Seq<Lit>, int)>,
) -> bool {
    &&& init_free(sys, c)
    &&& forall|a: Set<u32>, b: Set<u32>|
        admitted(log, n, j - 1, a) && !holds(a, c) && clear(pend, j, a) && #[trigger] sys.walks(
            a,
            b,
        ) ==> !holds(b, c)
}

/// The invariant of the first `n` events.
pub open spec fn sound(sys: System, log: Seq<Event>, n: int, pend: Seq<(Seq<Lit>, int)>) -> bool {
    &&& forall|p: int|
        0 <= p < n ==> match #[trigger] lemma_at(log, p) {
            Some((j, c)) => init_free(sys, c) && (j >= 1 ==> kept_out(
                sys,
                log,
                n,
                j as int,
                c,
                pend,
            )),
            None => true,
        }
    &&& forall|i: int|
        0 <= i < pend.len() ==> excluded(sys, (#[trigger] pend[i]).0, pend[i].1)
}

/// Whether each pending cube may itself be excluded, from the frame after those that rest on it.
pub open spec fn backed(sys: System, log: Seq<Event>, n: int, pend: Seq<(Seq<Lit>, int)>) -> bool {
    forall|i: int|
        0 <= i < pend.len() ==> (#[trigger] pend[i]).1 >= 0 && blockable(
            sys,
            log,
            n,
            pend[i].1 + 1,
            pend[i].0,
            pend,
        )
}

/// Whether no lemma is added between two events.
pub open spec fn quiet(log: Seq<Event>, from: int, to: int) -> bool {
    forall|p: int| from <= p < to ==> #[trigger] lemma_at(log, p) is None
}

/// Where no lemma is added, frames stay as they are.
pub proof fn lemma_quiet(log: Seq<Event>, n: int, m: int, k: int, a: Set<u32>)
    requires
        0 <= n <= m,
        quiet(log, n, m),
    ensures
        admitted(log, n, k, a) == admitted(log, m, k, a),
{
    if admitted(log, n, k, a) {
        assert forall|p: int| 0 <= p < m implies match #[trigger] lemma_at(log, p) {
            Some((j, c)) => j >= k ==> !holds(a, c),
            None => true,
        } by {
            if p < n {
            }
        }
    }
    if admitted(log, m, k, a) {
        lemma_admitted(log, n, m, k, k, a);
    }
}

/// The states that are reached within `k` steps are in frame `k`.
pub proof fn lemma_reached(
    sys: System,
    log: Seq<Event>,
    n: int,
    pend: Seq<(Seq<Lit>, int)>,
    a: Set<u32>,
    k: nat,
)
    requires
        sound(sys, log, n, pend),
        sys.walked(a, k),
    ensures
        admitted(log, n, k as int, a),
    decreases k,
{
    assert forall|p: int| 0 <= p < n implies match #[trigger] lemma_at(log, p) {
        Some((j, c)) => j >= k ==> !holds(a, c),
        None => true,
    } by {
        if let Some((j, c)) = lemma_at(log, p) {
            if j >= k {
                if k == 0 {
                    assert(sys.starts(a));
                } else {
                    let b = choose|b: Set<u32>|
                        sys.walked(b, (k - 1) as nat) && #[trigger] sys.walks(b, a);
                    lemma_reached(sys, log, n, pend, b, (k - 1) as nat);
                    lemma_admitted(log, n, n, j - 1, k - 1, b);
                    assert(clear(pend, j as int, b)) by {
                        assert forall|i: int|
                            0 <= i < pend.len() && j <= (#[trigger] pend[i]).1 implies !holds(
                            b,
                            pend[i].0,
                        ) by {
                            assert(excluded(sys, pend[i].0, pend[i].1));
                        }
                    }
                    assert(kept_out(sys, log, n, j as int, c, pend));
                }
            }
        }
    }
}

/// A cube that may be excluded from a frame holds in no state that is reached within its number
/// of steps.
pub proof fn lemma_excluded(
    sys: System,
    log: Seq<Event>,
    n: int,
    pend: Seq<(Seq<Lit>, int)>,
    j: int,
    c: Seq<Lit>,
)
    requires
        sound(sys, log, n, pend),
        blockable(sys, log, n, j, c, pend),
    ensures
        excluded(sys, c, j),
{
    assert forall|a: Set<u32>, i: nat| #[trigger] sys.walked(a, i) && i <= j implies !holds(
        a,
        c,
    ) by {
        lemma_excluded_at(sys, log, n, pend, j, c, a, i);
    }
}

/// The same for one state.
proof fn lemma_excluded_at(
    sys: System,
    log: Seq<Event>,
    n: int,
    pend: Seq<(Seq<Lit>, int)>,
    j: int,
    c: Seq<Lit>,
    a: Set<u32>,
    k: nat,
)
    requires
        sound(sys, log, n, pend),
        blockable(sys, log, n, j, c, pend),
        sys.walked(a, k),
        k <= j,
    ensures
        !holds(a, c),
    decreases k,
{
    if k == 0 {
        assert(sys.starts(a));
    } else {
        let b = choose|b: Set<u32>| sys.walked(b, (k - 1) as nat) && #[trigger] sys.walks(b, a);
        lemma_excluded_at(sys, log, n, pend, j, c, b, (k - 1) as nat);
        lemma_reached(sys, log, n, pend, b, (k - 1) as nat);
        lemma_admitted(log, n, n, j - 1, k - 1, b);
        assert(clear(pend, j, b)) by {
            assert forall|i: int|
                0 <= i < pend.len() && j <= (#[trigger] pend[i]).1 implies !holds(
                b,
                pend[i].0,
            ) by {
                assert(excluded(sys, pend[i].0, pend[i].1));
            }
        }
    }
}

/// What may be excluded still may after more events.
pub proof fn lemma_blockable_later(
    sys: System,
    log: Seq<Event>,
    n: int,
    m: int,
    j: int,
    c: Seq<Lit>,
    pend: Seq<(Seq<Lit>, int)>,
)
    requires
        n <= m,
        blockable(sys, log, n, j, c, pend),
    ensures
        blockable(sys, log, m, j, c, pend),
{
    assert forall|a: Set<u32>, b: Set<u32>|
        admitted(log, m, j - 1, a) && !holds(a, c) && clear(pend, j, a) && #[trigger] sys.walks(
            a,
            b,
        ) implies !holds(b, c) by {
        lemma_admitted(log, n, m, j - 1, j - 1, a);
    }
}

/// What may be excluded from a frame may be from those before it.
pub proof fn lemma_blockable_before(
    sys: System,
    log: Seq<Event>,
    n: int,
    i: int,
    j: int,
    c: Seq<Lit>,
    pend: Seq<(Seq<Lit>, int)>,
)
    requires
        i <= j,
        blockable(sys, log, n, j, c, pend),
    ensures
        blockable(sys, log, n, i, c, pend),
{
    assert forall|a: Set<u32>, b: Set<u32>|
        admitted(log, n, i - 1, a) && !holds(a, c) && clear(pend, i, a) && #[trigger] sys.walks(
            a,
            b,
        ) implies !holds(b, c) by {
        lemma_admitted(log, n, n, j - 1, i - 1, a);
        assert(clear(pend, j, a));
    }
}

/// What may be excluded may be on the strength of more pending cubes, and on that of fewer where
/// those that go concern earlier frames only.
pub proof fn lemma_blockable_pending(
    sys: System,
    log: Seq<Event>,
    n: int,
    j: int,
    c: Seq<Lit>,
    pend: Seq<(Seq<Lit>, int)>,
    other: Seq<(Seq<Lit>, int)>,
)
    requires
        blockable(sys, log, n, j, c, pend),
        forall|a: Set<u32>| #[trigger] clear(other, j, a) ==> clear(pend, j, a),
    ensures
        blockable(sys, log, n, j, c, other),
{
}

/// Where no lemma is added, the invariant stays.
pub proof fn lemma_sound_quiet(
    sys: System,
    log: Seq<Event>,
    n: int,
    m: int,
    pend: Seq<(Seq<Lit>, int)>,
)
    requires
        0 <= n <= m,
        quiet(log, n, m),
        sound(sys, log, n, pend),
    ensures
        sound(sys, log, m, pend),
{
    assert forall|p: int| 0 <= p < m implies match #[trigger] lemma_at(log, p) {
        Some((j, c)) => init_free(sys, c) && (j >= 1 ==> kept_out(
            sys,
            log,
            m,
            j as int,
            c,
            pend,
        )),
        None => true,
    } by {
        if p < n {
            if let Some((j, c)) = lemma_at(log, p) {
                if j >= 1 {
                    assert(kept_out(sys, log, n, j as int, c, pend));
                    assert forall|a: Set<u32>, b: Set<u32>|
                        admitted(log, m, j - 1, a) && clear(pend, j as int, a)
                            && #[trigger] sys.walks(a, b) implies !holds(b, c) by {
                        lemma_admitted(log, n, m, j - 1, j - 1, a);
                    }
                }
            }
        }
    }
}

/// Adding a lemma that may be added keeps the invariant.
pub proof fn lemma_sound_add(
    sys: System,
    log: Seq<Event>,
    n: int,
    j: usize,
    c: Seq<Lit>,
    pend: Seq<(Seq<Lit>, int)>,
)
    requires
        0 <= n < log.len(),
        lemma_at(log, n) == Some((j, c)),
        sound(sys, log, n, pend),
        init_free(sys, c),
        j >= 1 ==> blockable(sys, log, n, j as int, c, pend),
    ensures
        sound(sys, log, n + 1, pend),
{
    assert forall|p: int| 0 <= p < n + 1 implies match #[trigger] lemma_at(log, p) {
        Some((i, d)) => init_free(sys, d) && (i >= 1 ==> kept_out(
            sys,
            log,
            n + 1,
            i as int,
            d,
            pend,
        )),
        None => true,
    } by {
        if let Some((i, d)) = lemma_at(log, p) {
            if i >= 1 {
                assert forall|a: Set<u32>, b: Set<u32>|
                    admitted(log, n + 1, i - 1, a) && clear(pend, i as int, a)
                        && #[trigger] sys.walks(a, b) implies !holds(b, d) by {
                    lemma_admitted(log, n, n + 1, i - 1, i - 1, a);
                    if p < n {
                        assert(kept_out(sys, log, n, i as int, d, pend));
                    } else {
                        assert(lemma_at(log, n) == Some((j, c)));
                        assert(!holds(a, c));
                    }
                }
            }
        }
    }
}

/// The invariant holds on the strength of other pending cubes where those exclude as much.
pub proof fn lemma_sound_pending(
    sys: System,
    log: Seq<Event>,
    n: int,
    pend: Seq<(Seq<Lit>, int)>,
    other: Seq<(Seq<Lit>, int)>,
)
    requires
        sound(sys, log, n, pend),
        forall|j: int, a: Set<u32>| #[trigger] clear(other, j, a) ==> clear(pend, j, a),
        forall|i: int| 0 <= i < other.len() ==> excluded(sys, (#[trigger] other[i]).0, other[i].1),
    ensures
        sound(sys, log, n, other),
{
    assert forall|p: int| 0 <= p < n implies match #[trigger] lemma_at(log, p) {
        Some((j, c)) => init_free(sys, c) && (j >= 1 ==> kept_out(
            sys,
            log,
            n,
            j as int,
            c,
            other,
        )),
        None => true,
    } by {
        if let Some((j, c)) = lemma_at(log, p) {
            if j >= 1 {
                assert(kept_out(sys, log, n, j as int, c, pend));
                assert forall|a: Set<u32>, b: Set<u32>|
                    admitted(log, n, j - 1, a) && clear(other, j as int, a) && #[trigger] sys.walks(
                        a,
                        b,
                    ) implies !holds(b, c) by {
                    assert(clear(pend, j as int, a));
                }
            }
        }
    }
}

/// One more pending cube, which may be excluded from the frame after those that rest on it.
pub proof fn lemma_pend(
    sys: System,
    log: Seq<Event>,
    n: int,
    pend: Seq<(Seq<Lit>, int)>,
    frame: int,
    c: Seq<Lit>,
)
    requires
        sound(sys, log, n, pend),
        blockable(sys, log, n, frame, c, pend),
    ensures
        sound(sys, log, n, pend.push((c, frame - 1))),
{
    let other = pend.push((c, frame - 1));
    lemma_excluded(sys, log, n, pend, frame, c);
    assert forall|j: int, a: Set<u32>| #[trigger] clear(other, j, a) implies clear(pend, j, a) by {
        lemma_clear_less(pend, (c, frame - 1), j, a);
    }
    assert forall|i: int| 0 <= i < other.len() implies excluded(
        sys,
        (#[trigger] other[i]).0,
        other[i].1,
    ) by {
        if i < pend.len() {
            assert(other[i] == pend[i]);
            assert(excluded(sys, pend[i].0, pend[i].1));
        }
    }
    lemma_sound_pending(sys, log, n, pend, other);
}

/// A state outside of more pending cubes is outside of fewer.
pub proof fn lemma_clear_less(
    pend: Seq<(Seq<Lit>, int)>,
    one: (Seq<Lit>, int),
    j: int,
    a: Set<u32>,
)
    requires
        clear(pend.push(one), j, a),
    ensures
        clear(pend, j, a),
        j <= one.1 ==> !holds(a, one.0),
{
    let other = pend.push(one);
    assert forall|i: int| 0 <= i < pend.len() && j <= (#[trigger] pend[i]).1 implies !holds(
        a,
        pend[i].0,
    ) by {
        assert(other[i] == pend[i]);
    }
    assert(other[pend.len() as int] == one);
}

/// A state outside of pending cubes is outside of one more where that holds of the one.
pub proof fn lemma_clear_more(
    pend: Seq<(Seq<Lit>, int)>,
    one: (Seq<Lit>, int),
    j: int,
    a: Set<u32>,
)
    requires
        clear(pend, j, a),
        j <= one.1 ==> !holds(a, one.0),
    ensures
        clear(pend.push(one), j, a),
{
    let other = pend.push(one);
    assert forall|i: int| 0 <= i < other.len() && j <= (#[trigger] other[i]).1 implies !holds(
        a,
        other[i].0,
    ) by {
        if i < pend.len() {
            assert(other[i] == pend[i]);
        }
    }
}

/// Pending cubes that may be excluded still may after more events.
pub proof fn lemma_backed_later(
    sys: System,
    log: Seq<Event>,
    n: int,
    m: int,
    pend: Seq<(Seq<Lit>, int)>,
)
    requires
        n <= m,
        backed(sys, log, n, pend),
    ensures
        backed(sys, log, m, pend),
{
    assert forall|i: int| 0 <= i < pend.len() implies (#[trigger] pend[i]).1 >= 0 && blockable(
        sys,
        log,
        m,
        pend[i].1 + 1,
        pend[i].0,
        pend,
    ) by {
        lemma_blockable_later(sys, log, n, m, pend[i].1 + 1, pend[i].0, pend);
    }
}

/// One more pending cube that may be excluded leaves that so for all.
pub proof fn lemma_backed_more(
    sys: System,
    log: Seq<Event>,
    n: int,
    pend: Seq<(Seq<Lit>, int)>,
    frame: int,
    c: Seq<Lit>,
)
    requires
        frame > 0,
        backed(sys, log, n, pend),
        blockable(sys, log, n, frame, c, pend),
    ensures
        backed(sys, log, n, pend.push((c, frame - 1))),
{
    let one = (c, frame - 1);
    let more = pend.push(one);
    assert forall|i: int| 0 <= i < more.len() implies (#[trigger] more[i]).1 >= 0 && blockable(
        sys,
        log,
        n,
        more[i].1 + 1,
        more[i].0,
        more,
    ) by {
        let j = more[i].1 + 1;
        assert forall|a: Set<u32>| #[trigger] clear(more, j, a) implies clear(pend, j, a) by {
            lemma_clear_less(pend, one, j, a);
        }
        if i < pend.len() {
            assert(more[i] == pend[i]);
        }
        lemma_blockable_pending(sys, log, n, j, more[i].0, pend, more);
    }
}

/// A pending cube may be replaced by a part of it that may be excluded too.
pub proof fn lemma_repend(
    sys: System,
    log: Seq<Event>,
    n: int,
    pend: Seq<(Seq<Lit>, int)>,
    frame: int,
    c: Seq<Lit>,
    d: Seq<Lit>,
)
    requires
        sound(sys, log, n, pend.push((c, frame - 1))),
        within(d, c),
        blockable(sys, log, n, frame, d, pend),
    ensures
        sound(sys, log, n, pend.push((d, frame - 1))),
{
    let one = (c, frame - 1);
    let other = (d, frame - 1);
    assert(blockable(sys, log, n, frame, d, pend.push(one))) by {
        assert forall|a: Set<u32>| #[trigger] clear(pend.push(one), frame, a) implies clear(
            pend,
            frame,
            a,
        ) by {
            lemma_clear_less(pend, one, frame, a);
        }
        lemma_blockable_pending(sys, log, n, frame, d, pend, pend.push(one));
    }
    lemma_excluded(sys, log, n, pend.push(one), frame, d);
    assert forall|j: int, a: Set<u32>| #[trigger] clear(pend.push(other), j, a) implies clear(
        pend.push(one),
        j,
        a,
    ) by {
        lemma_clear_less(pend, other, j, a);
        if j <= frame - 1 && holds(a, c) {
            lemma_within(a, d, c);
        }
        lemma_clear_more(pend, one, j, a);
    }
    assert forall|i: int| 0 <= i < pend.push(other).len() implies excluded(
        sys,
        (#[trigger] pend.push(other)[i]).0,
        pend.push(other)[i].1,
    ) by {
        if i < pend.len() {
            assert(pend.push(one)[i] == pend[i]);
            assert(excluded(sys, pend.push(one)[i].0, pend.push(one)[i].1));
        }
    }
    lemma_sound_pending(sys, log, n, pend.push(one), pend.push(other));
}

/// A pending cube is settled once a lemma excludes it from the frames that rest on it.
pub proof fn lemma_settle(
    sys: System,
    log: Seq<Event>,
    n: int,
    pend: Seq<(Seq<Lit>, int)>,
    c: Seq<Lit>,
    bound: int,
    p: int,
)
    requires
        sound(sys, log, n, pend.push((c, bound))),
        0 <= p < n,
        lemma_at(log, p) matches Some((j, d)) && j >= bound - 1 && within(d, c),
    ensures
        sound(sys, log, n, pend),
{
    let one = (c, bound);
    let full = pend.push(one);
    assert forall|q: int| 0 <= q < n implies match #[trigger] lemma_at(log, q) {
        Some((j, e)) => init_free(sys, e) && (j >= 1 ==> kept_out(
            sys,
            log,
            n,
            j as int,
            e,
            pend,
        )),
        None => true,
    } by {
        if let Some((j, e)) = lemma_at(log, q) {
            if j >= 1 {
                assert(kept_out(sys, log, n, j as int, e, full));
                assert forall|a: Set<u32>, b: Set<u32>|
                    admitted(log, n, j - 1, a) && clear(pend, j as int, a) && #[trigger] sys.walks(
                        a,
                        b,
                    ) implies !holds(b, e) by {
                    if j <= bound && holds(a, c) {
                        let d = lemma_at(log, p)->Some_0.1;
                        lemma_within(a, d, c);
                        assert(!holds(a, d));
                    }
                    lemma_clear_more(pend, one, j as int, a);
                }
            }
        }
    }
    assert forall|i: int| 0 <= i < pend.len() implies excluded(
        sys,
        (#[trigger] pend[i]).0,
        pend[i].1,
    ) by {
        assert(full[i] == pend[i]);
        assert(excluded(sys, full[i].0, full[i].1));
    }
}

} // verus!
