//! What comes of trying the literals of a cube in several orders.

use vstd::prelude::*;

use crate::fault::Fault;
use crate::lit::{law_sorted, sorted, Lit};
use crate::mic::{drop_var_run, order_run, Order, Setting};
use crate::mic_laws::{is_permutation, lemma_shuffle, lemma_variants};
use crate::multi::{
    collect_run, exchanged, fixed_variants, identity, multi_loop, multi_run, prepared_run,
    random_run, random_variants, reordered, shuffle_run, variant_run, variants_run, VariantView,
};
use crate::param::DropVarParameter;
use crate::session::{asked, Call, Event, Tally};
use crate::trial_laws::{both, law_needed, lemma_both};

verus! {

/// Whether dropping literals from a variant of a cube, in the order of the variant, runs from `p`
/// to `q` and leaves some: for the mixed order, from the cube as it came back in that order. Where
/// no nested attempts are made, the solver is restricted to that cube, before and after a step.
#[verifier::opaque]
pub open spec fn leaves(
    log: Seq<Event>,
    p: int,
    q: int,
    setting: Setting,
    frame: usize,
    constraint: Seq<Seq<Lit>>,
    parameter: DropVarParameter,
    variant: VariantView,
    left: Seq<Lit>,
) -> bool {
    let before = if parameter.level == 0 {
        p - 3
    } else {
        p - 1
    };
    let (order, cube) = if variant.hybrid {
        (setting.order, log[before].reply->Cube_0)
    } else {
        (Order { hybrid: false, topo: variant.topo, reverse: variant.reverse }, variant.cube)
    };
    &&& variant.hybrid ==> asked(
        log,
        before,
        Call::SortHybrid { cube: variant.cube, frame, reverse: setting.order.reverse },
    )
    &&& parameter.level == 0 ==> {
        &&& asked(log, p - 2, Call::LitsNext { cube })
        &&& log[p - 1].call matches Call::SetDomain { solver, lits } && solver == (frame
            - 1) as usize && both(lits, cube, log[p - 2].reply->Cube_0)
    }
    &&& drop_var_run(
        log,
        p,
        Setting { order, level: setting.level },
        frame,
        cube,
        constraint,
        parameter,
        false,
    ) == Some((Ok::<Seq<Lit>, Fault>(left), q))
}

/// Whether what is left of a variant between two events is among some cubes.
pub open spec fn collected(
    log: Seq<Event>,
    from: int,
    to: int,
    setting: Setting,
    frame: usize,
    constraint: Seq<Seq<Lit>>,
    parameter: DropVarParameter,
    variant: VariantView,
    all: Seq<Seq<Lit>>,
) -> bool {
    exists|p: int, q: int, left: Seq<Lit>|
        from <= p < q <= to && all.contains(left) && #[trigger] leaves(
            log,
            p,
            q,
            setting,
            frame,
            constraint,
            parameter,
            variant,
            left,
        )
}

/// Whether a cube is what is left of one of some variants, between two events.
pub open spec fn left_of_one(
    log: Seq<Event>,
    from: int,
    to: int,
    setting: Setting,
    frame: usize,
    constraint: Seq<Seq<Lit>>,
    parameter: DropVarParameter,
    variants: Seq<VariantView>,
    left: Seq<Lit>,
) -> bool {
    exists|p: int, q: int, k: int|
        from <= p < q <= to && 0 <= k < variants.len() && #[trigger] leaves(
            log,
            p,
            q,
            setting,
            frame,
            constraint,
            parameter,
            variants[k],
            left,
        )
}

/// What is left of a variant is where generalizing it ends.
proof fn lemma_leaves(
    log: Seq<Event>,
    at: int,
    setting: Setting,
    frame: usize,
    constraint: Seq<Seq<Lit>>,
    parameter: DropVarParameter,
    variant: VariantView,
)
    requires
        0 <= at,
    ensures
        variant_run(log, at, setting, frame, constraint, parameter, variant) matches Some(
            (Ok(left), q),
        ) ==> exists|p: int|
            at <= p < q && #[trigger] leaves(
                log,
                p,
                q,
                setting,
                frame,
                constraint,
                parameter,
                variant,
                left,
            ),
{
    if let Some((Ok(left), q)) = variant_run(
        log,
        at,
        setting,
        frame,
        constraint,
        parameter,
        variant,
    ) {
        let (cube, order, at1) = prepared_run(log, at, setting.order, frame, variant)->0;
        let p = if parameter.level == 0 {
            at1 + 2
        } else {
            at1
        };
        law_needed(
            log,
            p,
            Setting { order, level: setting.level },
            frame,
            cube,
            constraint,
            parameter,
            false,
        );
        if parameter.level == 0 {
            lemma_both(cube, log[p - 2].reply->Cube_0);
        }
        assert(leaves(log, p, q, setting, frame, constraint, parameter, variant, left)) by {
            reveal(leaves);
        }
    }
}

/// What was collected before stays so.
proof fn lemma_collected(
    log: Seq<Event>,
    from: int,
    to: int,
    to2: int,
    setting: Setting,
    frame: usize,
    constraint: Seq<Seq<Lit>>,
    parameter: DropVarParameter,
    variant: VariantView,
    all: Seq<Seq<Lit>>,
    all2: Seq<Seq<Lit>>,
)
    requires
        collected(log, from, to, setting, frame, constraint, parameter, variant, all),
        to <= to2,
        all.is_prefix_of(all2),
    ensures
        collected(log, from, to2, setting, frame, constraint, parameter, variant, all2),
{
    let (p, q, left) = choose|p: int, q: int, left: Seq<Lit>|
        from <= p < q <= to && all.contains(left) && #[trigger] leaves(
            log,
            p,
            q,
            setting,
            frame,
            constraint,
            parameter,
            variant,
            left,
        );
    let i = choose|i: int| 0 <= i < all.len() && all[i] == left;
    assert(all2[i] == left);
    assert(leaves(log, p, q, setting, frame, constraint, parameter, variant, left));
}

/// Where fewer cubes come out than were wanted, what is left of each variant is among them; and
/// nothing else is.
proof fn lemma_multi_collected(
    log: Seq<Event>,
    start: int,
    at: int,
    setting: Setting,
    frame: usize,
    constraint: Seq<Seq<Lit>>,
    parameter: DropVarParameter,
    num_clauses: usize,
    variants: Seq<VariantView>,
    k: int,
    clauses: Seq<Seq<Lit>>,
)
    requires
        0 <= start <= at,
        0 <= k <= variants.len(),
        forall|i: int|
            0 <= i < k ==> collected(
                log,
                start,
                at,
                setting,
                frame,
                constraint,
                parameter,
                #[trigger] variants[i],
                clauses,
            ),
        forall|i: int|
            0 <= i < clauses.len() ==> left_of_one(
                log,
                start,
                at,
                setting,
                frame,
                constraint,
                parameter,
                variants,
                #[trigger] clauses[i],
            ),
    ensures
        multi_loop(
            log,
            at,
            setting,
            frame,
            constraint,
            parameter,
            num_clauses,
            variants,
            k,
            clauses,
        ) matches Some((Ok(all), at2)) ==> {
            &&& at <= at2
            &&& all.len() < num_clauses ==> forall|i: int|
                0 <= i < variants.len() ==> collected(
                    log,
                    start,
                    at2,
                    setting,
                    frame,
                    constraint,
                    parameter,
                    #[trigger] variants[i],
                    all,
                )
            &&& forall|i: int|
                0 <= i < all.len() ==> left_of_one(
                    log,
                    start,
                    at2,
                    setting,
                    frame,
                    constraint,
                    parameter,
                    variants,
                    #[trigger] all[i],
                )
        },
    decreases variants.len() - k,
{
    let solver = (frame - 1) as usize;
    if k < variants.len() && clauses.len() < num_clauses {
        let one = variant_run(log, at, setting, frame, constraint, parameter, variants[k]);
        if let Some((Ok(c), at2)) = one {
            if let Some((clauses2, at3)) = collect_run(
                log,
                at2,
                solver,
                parameter.level,
                clauses,
                c,
            ) {
                lemma_leaves(log, at, setting, frame, constraint, parameter, variants[k]);
                let p = choose|p: int|
                    at <= p < at2 && #[trigger] leaves(
                        log,
                        p,
                        at2,
                        setting,
                        frame,
                        constraint,
                        parameter,
                        variants[k],
                        c,
                    );
                assert(clauses.is_prefix_of(clauses2));
                assert(clauses2.contains(c)) by {
                    if !clauses.contains(c) {
                        assert(clauses2[clauses.len() as int] == c);
                    }
                }
                assert forall|i: int| 0 <= i < k + 1 implies collected(
                    log,
                    start,
                    at3,
                    setting,
                    frame,
                    constraint,
                    parameter,
                    #[trigger] variants[i],
                    clauses2,
                ) by {
                    if i < k {
                        lemma_collected(
                            log,
                            start,
                            at,
                            at3,
                            setting,
                            frame,
                            constraint,
                            parameter,
                            variants[i],
                            clauses,
                            clauses2,
                        );
                    } else {
                        assert(leaves(
                            log,
                            p,
                            at2,
                            setting,
                            frame,
                            constraint,
                            parameter,
                            variants[i],
                            c,
                        ));
                    }
                }
                assert forall|i: int| 0 <= i < clauses2.len() implies left_of_one(
                    log,
                    start,
                    at3,
                    setting,
                    frame,
                    constraint,
                    parameter,
                    variants,
                    #[trigger] clauses2[i],
                ) by {
                    if i < clauses.len() {
                        assert(clauses2[i] == clauses[i]);
                        assert(left_of_one(
                            log,
                            start,
                            at,
                            setting,
                            frame,
                            constraint,
                            parameter,
                            variants,
                            clauses[i],
                        ));
                    } else {
                        assert(clauses2[i] == c);
                        assert(leaves(
                            log,
                            p,
                            at2,
                            setting,
                            frame,
                            constraint,
                            parameter,
                            variants[k],
                            c,
                        ));
                    }
                }
                lemma_multi_collected(
                    log,
                    start,
                    at3,
                    setting,
                    frame,
                    constraint,
                    parameter,
                    num_clauses,
                    variants,
                    k + 1,
                    clauses2,
                );
            }
        }
    }
}

/// The variants that are drawn come after those that are there already, and the last two words
/// that are drawn for one decide its order.
proof fn lemma_drawn(log: Seq<Event>, at: int, cube: Seq<Lit>, n: int, variants: Seq<VariantView>)
    requires
        0 <= at <= log.len(),
        cube.len() <= usize::MAX,
    ensures
        random_run(log, at, cube, n, variants) matches Some((all, at2)) ==> {
            &&& at <= at2
            &&& variants.is_prefix_of(all)
            &&& all.len() == variants.len() + if n > 0 {
                n
            } else {
                0
            }
            &&& forall|i: int| variants.len() <= i < all.len() ==> !(#[trigger] all[i]).hybrid
            &&& n > 0 ==> all.last().topo == (log[at2 - 2].reply->Word_0 % 2 == 0)
                && all.last().reverse == (log[at2 - 1].reply->Word_0 % 2 == 0)
        },
    decreases n,
{
    if n > 0 {
        let base = identity(cube.len());
        if let Some((s, at2)) = shuffle_run(log, at, base, 0) {
            lemma_identity(cube.len());
            lemma_shuffle(log, at, base, 0, cube.len());
            let one = VariantView {
                cube: reordered(cube, s),
                hybrid: false,
                topo: log[at2].reply->Word_0 % 2 == 0,
                reverse: log[at2 + 1].reply->Word_0 % 2 == 0,
            };
            if asked(log, at2, Call::Draw) && asked(log, at2 + 1, Call::Draw) {
                lemma_drawn(log, at2 + 2, cube, n - 1, variants.push(one));
            }
            if let Some((all, _)) = random_run(log, at, cube, n, variants) {
                assert(variants.push(one)[variants.len() as int] == one);
                assert(all[variants.len() as int] == one);
            }
        }
    }
}

/// The indices in order are a permutation.
proof fn lemma_identity(n: nat)
    requires
        n <= usize::MAX,
    ensures
        is_permutation(identity(n), n),
{
    assert forall|k: usize| k < n implies #[trigger] identity(n).contains(k) by {
        assert(identity(n)[k as int] == k);
    }
}

/// How many orders are tried: one where no more than one cube is wanted, or internal signals are
/// worked on; and otherwise four, the mixed one where it is set and more than four cubes are
/// wanted, and up to three that are drawn where even more are.
pub open spec fn orders_tried(order: Order, inn: bool, num_clauses: usize) -> int {
    if inn || num_clauses <= 1 {
        1
    } else if num_clauses <= 4 {
        4
    } else if num_clauses < 7 || order.hybrid && num_clauses < 8 {
        num_clauses as int
    } else if order.hybrid {
        8
    } else {
        7
    }
}

/// The variants of a cube: the first is in the order that is set. Where there are more, the next
/// ones are in the same order from the other end, and in the other order from both ends, all of the
/// cube itself; the mixed order is among them where it is set and more than four cubes are wanted,
/// and nowhere else.
pub proof fn law_variants(
    log: Seq<Event>,
    at: int,
    cube: Seq<Lit>,
    order: Order,
    inn: bool,
    num_clauses: usize,
)
    requires
        0 <= at <= log.len(),
        cube.len() <= usize::MAX,
    ensures
        variants_run(log, at, cube, order, inn, num_clauses) matches Some((all, at2)) ==> {
            &&& all.len() == orders_tried(order, inn, num_clauses)
            &&& all[0] == (VariantView {
                cube,
                hybrid: false,
                topo: order.topo,
                reverse: order.reverse,
            })
            &&& all.len() > 1 ==> forall|topo: bool, reverse: bool|
                all.take(4).contains(#[trigger] plain(cube, topo, reverse))
            &&& forall|i: int|
                0 <= i < all.len() ==> ((#[trigger] all[i]).hybrid <==> i == 4 && order.hybrid
                    && num_clauses > 4 && !inn)
            &&& all.len() > 4 && order.hybrid ==> all[4].cube == cube
            &&& all.len() <= 4 ==> at2 == at
        },
{
    let fixed = fixed_variants(cube, order, inn, num_clauses);
    let n = if inn {
        0
    } else {
        random_variants(num_clauses, order.hybrid)
    };
    lemma_drawn(log, at, cube, n, fixed);
    if let Some((all, _)) = random_run(log, at, cube, n, fixed) {
        assert(all[0] == fixed[0]);
        if all.len() > 1 {
            assert forall|topo: bool, reverse: bool| all.take(4).contains(
                #[trigger] plain(cube, topo, reverse),
            ) by {
                let i = if topo == order.topo {
                    if reverse == order.reverse {
                        0int
                    } else {
                        1int
                    }
                } else if reverse == order.reverse {
                    2int
                } else {
                    3int
                };
                assert(all[i] == fixed[i]);
                assert(all.take(4)[i] == plain(cube, topo, reverse));
            }
        }
        assert forall|i: int| 0 <= i < all.len() implies ((#[trigger] all[i]).hybrid <==> i == 4
            && order.hybrid && num_clauses > 4 && !inn) by {
            if i < fixed.len() {
                assert(all[i] == fixed[i]);
            }
        }
        if all.len() > 4 && order.hybrid {
            assert(all[4] == fixed[4]);
        }
    }
}

/// The cube itself, in an order other than the mixed one.
pub open spec fn plain(cube: Seq<Lit>, topo: bool, reverse: bool) -> VariantView {
    VariantView { cube, hybrid: false, topo, reverse }
}

/// Where fewer cubes come out than were wanted, what dropping literals leaves in each order that is
/// tried is among them: in the order that is set, and, where several were wanted and no internal
/// signals are worked on, in each of the plain orders. Every cube that comes out is what is left in
/// one of the orders.
pub proof fn law_collected(
    log: Seq<Event>,
    at: int,
    setting: Setting,
    inn: bool,
    frame: usize,
    cube: Seq<Lit>,
    constraint: Seq<Seq<Lit>>,
    parameter: DropVarParameter,
    num_clauses: usize,
)
    requires
        0 <= at <= log.len(),
        cube.len() <= usize::MAX,
    ensures
        multi_run(
            log,
            at,
            setting,
            inn,
            frame,
            cube,
            constraint,
            parameter,
            num_clauses,
        ) matches Some((Ok(all), at2)) ==> {
            let first = if parameter.level == 0 {
                at + 3
            } else {
                at + 2
            };
            let (variants, _) = variants_run(log, first, cube, setting.order, inn, num_clauses)->0;
            &&& all.len() < num_clauses ==> {
                &&& collected(
                    log,
                    at,
                    at2,
                    setting,
                    frame,
                    constraint,
                    parameter,
                    plain(cube, setting.order.topo, setting.order.reverse),
                    all,
                )
                &&& num_clauses > 1 && !inn ==> forall|topo: bool, reverse: bool| #[trigger]
                    collected(
                        log,
                        at,
                        at2,
                        setting,
                        frame,
                        constraint,
                        parameter,
                        plain(cube, topo, reverse),
                        all,
                    )
                &&& forall|i: int|
                    0 <= i < variants.len() ==> collected(
                        log,
                        at,
                        at2,
                        setting,
                        frame,
                        constraint,
                        parameter,
                        #[trigger] variants[i],
                        all,
                    )
            }
            &&& forall|i: int|
                0 <= i < all.len() ==> left_of_one(
                    log,
                    at,
                    at2,
                    setting,
                    frame,
                    constraint,
                    parameter,
                    variants,
                    #[trigger] all[i],
                )
        },
{
    reveal(multi_run);
    if let Some((Ok(all), end)) = multi_run(
        log,
        at,
        setting,
        inn,
        frame,
        cube,
        constraint,
        parameter,
        num_clauses,
    ) {
        let first = if parameter.level == 0 {
            at + 3
        } else {
            at + 2
        };
        lemma_variants(log, first, cube, setting.order, inn, num_clauses);
        law_variants(log, first, cube, setting.order, inn, num_clauses);
        let (variants, at2) = variants_run(
            log,
            first,
            cube,
            setting.order,
            inn,
            num_clauses,
        )->0;
        lemma_multi_collected(
            log,
            at,
            at2,
            setting,
            frame,
            constraint,
            parameter,
            num_clauses,
            variants,
            0,
            seq![],
        );
        if all.len() < num_clauses {
            assert(variants[0] == plain(cube, setting.order.topo, setting.order.reverse));
            if num_clauses > 1 && !inn {
                assert forall|topo: bool, reverse: bool| #[trigger]
                    collected(
                        log,
                        at,
                        end,
                        setting,
                        frame,
                        constraint,
                        parameter,
                        plain(cube, topo, reverse),
                        all,
                    ) by {
                    let four = variants.take(4);
                    assert(four.contains(plain(cube, topo, reverse)));
                    let i = choose|i: int|
                        0 <= i < four.len() && four[i] == plain(cube, topo, reverse);
                    assert(variants[i] == plain(cube, topo, reverse));
                }
            }
        }
    }
}

/// Literals that are tried by code come in ascending order of their codes, and from the other end
/// in descending order, with no request.
pub proof fn law_by_code(
    log: Seq<Event>,
    at: int,
    reverse: bool,
    frame: usize,
    cube: Seq<Lit>,
)
    ensures
        order_run(log, at, Order { hybrid: false, topo: true, reverse }, frame, cube) matches Some(
            (tried, at2),
        ) && {
            &&& at2 == at
            &&& tried.to_multiset() == cube.to_multiset()
            &&& forall|i: int, j: int|
                0 <= i < j < tried.len() ==> if reverse {
                    (#[trigger] tried[i]).0 >= (#[trigger] tried[j]).0
                } else {
                    tried[i].0 <= tried[j].0
                }
        },
{
    let up = sorted(cube);
    law_sorted(cube);
    let n = up.len();
    if reverse {
        let down = up.reverse();
        assert(down.len() == n);
        assert forall|i: int, j: int| 0 <= i < j < n implies (#[trigger] down[i]).0 >= (
        #[trigger] down[j]).0 by {
            assert(down[i] == up[n - 1 - i]);
            assert(down[j] == up[n - 1 - j]);
        }
        lemma_reverse_multiset(up);
    }
}

/// Reversing keeps the literals.
proof fn lemma_reverse_multiset(s: Seq<Lit>)
    ensures
        s.reverse().to_multiset() == s.to_multiset(),
    decreases s.len(),
{
    broadcast use vstd::seq_lib::group_to_multiset_ensures;
    if s.len() == 0 {
        assert(s.reverse() =~= s);
    } else {
        let rest = s.drop_last();
        lemma_reverse_multiset(rest);
        assert(s.reverse() =~= seq![s.last()] + rest.reverse());
        assert(s =~= rest.push(s.last()));
        vstd::seq_lib::lemma_multiset_commutative(seq![s.last()], rest.reverse());
        vstd::seq_lib::lemma_multiset_commutative(rest, seq![s.last()]);
        assert(rest + seq![s.last()] =~= rest.push(s.last()));
    }
}

/// Literals that are not tried by code are put in order by a request: for the mixed order with the
/// frame, and otherwise by activity, from the least active on unless reversed. They are tried as
/// they come back.
pub proof fn law_by_request(
    log: Seq<Event>,
    at: int,
    order: Order,
    frame: usize,
    cube: Seq<Lit>,
)
    requires
        order.hybrid || !order.topo,
    ensures
        order_run(log, at, order, frame, cube) matches Some((tried, at2)) ==> {
            &&& at2 == at + 1
            &&& tried == log[at].reply->Cube_0
            &&& log[at].call == if order.hybrid {
                Call::SortHybrid { cube, frame, reverse: order.reverse }
            } else {
                Call::SortByActivity { cube, ascending: !order.reverse }
            }
        },
{
}

/// Shuffling exchanges each place in turn with the one that the next word names, among all places.
pub proof fn law_shuffle(log: Seq<Event>, at: int, s: Seq<usize>, i: int)
    requires
        0 <= i < s.len(),
    ensures
        shuffle_run(log, at, s, i) is Some ==> {
            let j = log[at].reply->Word_0 as int % s.len() as int;
            &&& asked(log, at, Call::Draw)
            &&& exists|t: Seq<usize>|
                {
                    &&& t.len() == s.len()
                    &&& t[i] == s[j] && t[j] == s[i]
                    &&& forall|k: int|
                        0 <= k < s.len() && k != i && k != j ==> #[trigger] t[k] == s[k]
                    &&& #[trigger] shuffle_run(log, at + 1, t, i + 1) == shuffle_run(log, at, s, i)
                }
        },
{
    if shuffle_run(log, at, s, i) is Some {
        let j = log[at].reply->Word_0 as int % s.len() as int;
        let t = exchanged(s, i, j);
        assert(t[i] == s[j] && t[j] == s[i]);
        assert(shuffle_run(log, at + 1, t, i + 1) == shuffle_run(log, at, s, i));
    }
}

/// The first variant that is drawn has the literals of the cube in the order of a shuffle of all
/// places; after the words for that, one decides whether it goes by code, and one whether it goes
/// from the other end.
pub proof fn law_drawn(
    log: Seq<Event>,
    at: int,
    cube: Seq<Lit>,
    order: Order,
    inn: bool,
    num_clauses: usize,
)
    requires
        0 <= at <= log.len(),
        cube.len() <= usize::MAX,
    ensures
        variants_run(log, at, cube, order, inn, num_clauses) matches Some((all, _)) ==> {
            let fixed = if order.hybrid {
                5int
            } else {
                4int
            };
            all.len() > fixed ==> {
                let places = Seq::new(cube.len(), |k: int| k as usize);
                let one = all[fixed];
                &&& shuffle_run(log, at, places, 0) matches Some((t, at2)) && {
                    &&& is_permutation(t, cube.len())
                    &&& one.cube.len() == cube.len()
                    &&& forall|k: int|
                        0 <= k < cube.len() ==> #[trigger] one.cube[k] == cube[t[k] as int]
                    &&& asked(log, at2, Call::Draw) && asked(log, at2 + 1, Call::Draw)
                    &&& one.topo <==> log[at2].reply->Word_0 % 2 == 0
                    &&& one.reverse <==> log[at2 + 1].reply->Word_0 % 2 == 0
                }
            }
        },
{
    let fixed = fixed_variants(cube, order, inn, num_clauses);
    let n = if inn {
        0
    } else {
        random_variants(num_clauses, order.hybrid)
    };
    lemma_drawn(log, at, cube, n, fixed);
    if random_run(log, at, cube, n, fixed) is Some && n > 0 {
        let places = Seq::new(cube.len(), |k: int| k as usize);
        assert(places =~= identity(cube.len()));
        lemma_identity(cube.len());
        lemma_shuffle(log, at, places, 0, cube.len());
        let (t, at2) = shuffle_run(log, at, places, 0)->0;
        let one = VariantView {
            cube: reordered(cube, t),
            hybrid: false,
            topo: log[at2].reply->Word_0 % 2 == 0,
            reverse: log[at2 + 1].reply->Word_0 % 2 == 0,
        };
        lemma_drawn(log, at2 + 2, cube, n - 1, fixed.push(one));
        let (all, _) = random_run(log, at, cube, n, fixed)->0;
        assert(fixed.push(one)[fixed.len() as int] == one);
        assert(all[fixed.len() as int] == one);
    }
}

/// A cube is taken into a collection unless it is there: after that it is, and what was there stays
/// where it was. Each is counted, and once more where it is new; where the solver was restricted,
/// it no longer is.
pub proof fn law_collect(
    log: Seq<Event>,
    at: int,
    solver: usize,
    level: usize,
    clauses: Seq<Seq<Lit>>,
    cube: Seq<Lit>,
)
    ensures
        collect_run(log, at, solver, level, clauses, cube) matches Some((all, at2)) ==> {
            let known = clauses.contains(cube);
            let last = if level == 0 {
                at2 - 2
            } else {
                at2 - 1
            };
            &&& known ==> all == clauses
            &&& !known ==> all == clauses.push(cube)
            &&& all.contains(cube)
            &&& last == if known {
                at
            } else {
                at + 1
            }
            &&& !known ==> asked(log, at, Call::Count { tally: Tally::UniqueMultiClause })
            &&& asked(log, last, Call::Count { tally: Tally::TotalMultiClause })
            &&& level == 0 ==> asked(log, at2 - 1, Call::UnsetDomain { solver })
        },
{
    if !clauses.contains(cube) {
        assert(clauses.push(cube)[clauses.len() as int] == cube);
    }
}

/// Generalizing in several orders starts with the solver unrestricted, where it will be restricted,
/// and is counted.
pub proof fn law_multi_start(
    log: Seq<Event>,
    at: int,
    setting: Setting,
    inn: bool,
    frame: usize,
    cube: Seq<Lit>,
    constraint: Seq<Seq<Lit>>,
    parameter: DropVarParameter,
    num_clauses: usize,
)
    requires
        multi_run(
            log,
            at,
            setting,
            inn,
            frame,
            cube,
            constraint,
            parameter,
            num_clauses,
        ) is Some,
    ensures
        ({
            let first = if parameter.level == 0 {
                at + 1
            } else {
                at
            };
            &&& parameter.level == 0 ==> asked(
                log,
                at,
                Call::UnsetDomain { solver: (frame - 1) as usize },
            )
            &&& asked(
                log,
                first,
                Call::Count { tally: Tally::MicCubeLen(cube.len() as usize) },
            )
            &&& asked(log, first + 1, Call::Count { tally: Tally::Mic })
        }),
{
    reveal(multi_run);
}

} // verus!
