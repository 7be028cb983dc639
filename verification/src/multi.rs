//! Generalization of one cube in several orders.

use vstd::prelude::*;

use crate::fault::Fault;
use crate::lit::{copy_lits, cubes, same_lits, Lit};
use crate::mic::{domain_run, drop_run, drop_var_run, outcome, Order, Setting};
use crate::param::{DropVarParameter, MicType};
use crate::session::{asked, extends, Call, Event, Reasoner, Session, Tally};

verus! {

/// A cube to generalize, and the order in which to try its literals: the mixed one, or by `topo`
/// and `reverse`.
pub struct Variant {
    pub cube: Vec<Lit>,
    pub hybrid: bool,
    pub topo: bool,
    pub reverse: bool,
}

/// What a variant says.
pub struct VariantView {
    pub cube: Seq<Lit>,
    pub hybrid: bool,
    pub topo: bool,
    pub reverse: bool,
}

impl View for Variant {
    type V = VariantView;

    open spec fn view(&self) -> VariantView {
        VariantView {
            cube: self.cube@,
            hybrid: self.hybrid,
            topo: self.topo,
            reverse: self.reverse,
        }
    }
}

/// What some variants say.
pub open spec fn variant_views(v: Seq<Variant>) -> Seq<VariantView> {
    Seq::new(v.len(), |i: int| v[i]@)
}

/// The cubes of an outcome.
pub open spec fn outcomes(r: Result<Vec<Vec<Lit>>, Fault>) -> Result<Seq<Seq<Lit>>, Fault> {
    match r {
        Ok(v) => Ok(cubes(v@)),
        Err(f) => Err(f),
    }
}

/// The sequence with the elements at `i` and `j` exchanged.
pub open spec fn exchanged(s: Seq<usize>, i: int, j: int) -> Seq<usize> {
    s.update(i, s[j]).update(j, s[i])
}

/// The indices 0 to `n - 1` in order.
pub open spec fn identity(n: nat) -> Seq<usize> {
    Seq::new(n, |i: int| i as usize)
}

/// Shuffles the indices: each place from `i` on is exchanged with one that is drawn.
pub open spec fn shuffle_run(log: Seq<Event>, at: int, s: Seq<usize>, i: int) -> Option<
    (Seq<usize>, int),
>
    decreases s.len() - i,
{
    if !(0 <= i < s.len()) {
        Some((s, at))
    } else if !asked(log, at, Call::Draw) {
        None
    } else {
        let j = log[at].reply->Word_0 as int % s.len() as int;
        shuffle_run(log, at + 1, exchanged(s, i, j), i + 1)
    }
}

/// The literals of a cube in the order that the indices give.
pub open spec fn reordered(cube: Seq<Lit>, s: Seq<usize>) -> Seq<Lit> {
    Seq::new(s.len(), |i: int| cube[s[i] as int])
}

/// Adds `n` variants in which the literals are shuffled and the order of trying is drawn.
pub open spec fn random_run(
    log: Seq<Event>,
    at: int,
    cube: Seq<Lit>,
    n: int,
    variants: Seq<VariantView>,
) -> Option<(Seq<VariantView>, int)>
    decreases n,
{
    if n <= 0 {
        Some((variants, at))
    } else {
        match shuffle_run(log, at, identity(cube.len()), 0) {
            None => None,
            Some((s, at2)) => if !asked(log, at2, Call::Draw) || !asked(
                log,
                at2 + 1,
                Call::Draw,
            ) {
                None
            } else {
                random_run(
                    log,
                    at2 + 2,
                    cube,
                    n - 1,
                    variants.push(
                        VariantView {
                            cube: reordered(cube, s),
                            hybrid: false,
                            topo: log[at2].reply->Word_0 % 2 == 0,
                            reverse: log[at2 + 1].reply->Word_0 % 2 == 0,
                        },
                    ),
                )
            },
        }
    }
}

/// How many variants are drawn where `num_clauses` cubes are wanted: none up to four, or five
/// with the mixed order, and at most three.
pub open spec fn random_variants(num_clauses: usize, hybrid: bool) -> int {
    let n = num_clauses - 4 - if hybrid {
        1int
    } else {
        0int
    };
    if num_clauses <= 4 {
        0
    } else if n < 3 {
        n
    } else {
        3
    }
}

/// Whether words may be drawn to generalize a cube: only where so many cubes are wanted that there
/// are variants to draw.
pub open spec fn may_draw(mic_type: MicType, inn: bool, hybrid: bool) -> bool {
    match mic_type {
        MicType::MultiClauses(_, num_clauses) => !inn && random_variants(num_clauses, hybrid) > 0,
        _ => false,
    }
}

/// Whether a solver is asked to generalize a cube: not where the cube stays as it is, nor with
/// nested attempts where there is no literal to drop or no cube wanted.
pub open spec fn needs_solver(mic_type: MicType, length: nat) -> bool {
    match mic_type {
        MicType::NoMic => false,
        MicType::DropVar(p) => p.level == 0 || length > 0,
        MicType::MultiClauses(p, num_clauses) => p.level == 0 || length > 0 && num_clauses > 0,
    }
}

/// The variants that do not depend on chance: the order that is set; and, where more than one
/// cube is wanted and `inn` is not set, the three other orders that reversing it and going by
/// code make, and the mixed order where that is set and more than four are wanted.
pub open spec fn fixed_variants(
    cube: Seq<Lit>,
    order: Order,
    inn: bool,
    num_clauses: usize,
) -> Seq<VariantView> {
    let first = VariantView { cube, hybrid: false, topo: order.topo, reverse: order.reverse };
    if num_clauses <= 1 || inn {
        seq![first]
    } else {
        let four = seq![
            first,
            VariantView { cube, hybrid: false, topo: order.topo, reverse: !order.reverse },
            VariantView { cube, hybrid: false, topo: !order.topo, reverse: order.reverse },
            VariantView { cube, hybrid: false, topo: !order.topo, reverse: !order.reverse },
        ];
        if order.hybrid && num_clauses > 4 {
            four.push(VariantView { cube, hybrid: true, topo: false, reverse: false })
        } else {
            four
        }
    }
}

/// All the variants of a cube.
pub open spec fn variants_run(
    log: Seq<Event>,
    at: int,
    cube: Seq<Lit>,
    order: Order,
    inn: bool,
    num_clauses: usize,
) -> Option<(Seq<VariantView>, int)> {
    let fixed = fixed_variants(cube, order, inn, num_clauses);
    random_run(
        log,
        at,
        cube,
        if inn {
            0
        } else {
            random_variants(num_clauses, order.hybrid)
        },
        fixed,
    )
}

/// The cube of a variant as it is handed over, and the order in which its literals are tried. For
/// the mixed order that is the order that is set; every other variant is tried as it came.
pub open spec fn prepared_run(
    log: Seq<Event>,
    at: int,
    order: Order,
    frame: usize,
    variant: VariantView,
) -> Option<(Seq<Lit>, Order, int)> {
    if !variant.hybrid {
        Some((
            variant.cube,
            Order { hybrid: false, topo: variant.topo, reverse: variant.reverse },
            at,
        ))
    } else if asked(
        log,
        at,
        Call::SortHybrid { cube: variant.cube, frame, reverse: order.reverse },
    ) {
        Some((log[at].reply->Cube_0, order, at + 1))
    } else {
        None
    }
}

/// Generalizes one variant.
pub open spec fn variant_run(
    log: Seq<Event>,
    at: int,
    setting: Setting,
    frame: usize,
    constraint: Seq<Seq<Lit>>,
    parameter: DropVarParameter,
    variant: VariantView,
) -> Option<(Result<Seq<Lit>, Fault>, int)> {
    let solver = (frame - 1) as usize;
    match prepared_run(log, at, setting.order, frame, variant) {
        None => None,
        Some((cube, order, at1)) => {
            let start = if parameter.level == 0 {
                domain_run(log, at1, solver, cube)
            } else {
                Some(at1)
            };
            match start {
                None => None,
                Some(at2) => drop_var_run(
                    log,
                    at2,
                    Setting { order, level: setting.level },
                    frame,
                    cube,
                    constraint,
                    parameter,
                    false,
                ),
            }
        },
    }
}

/// Takes a cube into the collection, unless it is there already, and counts it.
pub open spec fn collect_run(
    log: Seq<Event>,
    at: int,
    solver: usize,
    level: usize,
    clauses: Seq<Seq<Lit>>,
    cube: Seq<Lit>,
) -> Option<(Seq<Seq<Lit>>, int)> {
    let fresh = !clauses.contains(cube);
    let at1 = if fresh {
        at + 1
    } else {
        at
    };
    let at2 = if level == 0 {
        at1 + 2
    } else {
        at1 + 1
    };
    if (fresh ==> asked(log, at, Call::Count { tally: Tally::UniqueMultiClause })) && asked(
        log,
        at1,
        Call::Count { tally: Tally::TotalMultiClause },
    ) && (level == 0 ==> asked(log, at1 + 1, Call::UnsetDomain { solver })) {
        Some((
            if fresh {
                clauses.push(cube)
            } else {
                clauses
            },
            at2,
        ))
    } else {
        None
    }
}

/// Generalizes the variants from `k` on, until there are `num_clauses` different cubes.
pub open spec fn multi_loop(
    log: Seq<Event>,
    at: int,
    setting: Setting,
    frame: usize,
    constraint: Seq<Seq<Lit>>,
    parameter: DropVarParameter,
    num_clauses: usize,
    variants: Seq<VariantView>,
    k: int,
    clauses: Seq<Seq<Lit>>,
) -> Option<(Result<Seq<Seq<Lit>>, Fault>, int)>
    decreases variants.len() - k,
{
    let solver = (frame - 1) as usize;
    if k >= variants.len() || clauses.len() >= num_clauses {
        Some((Ok(clauses), at))
    } else {
        match variant_run(
            log,
            at,
            setting,
            frame,
            constraint,
            parameter,
            variants[k],
        ) {
            None => None,
            Some((Err(f), at2)) => Some((Err(f), at2)),
            Some((Ok(cube), at2)) => match collect_run(
                log,
                at2,
                solver,
                parameter.level,
                clauses,
                cube,
            ) {
                None => None,
                Some((clauses2, at3)) => multi_loop(
                    log,
                    at3,
                    setting,
                    frame,
                    constraint,
                    parameter,
                    num_clauses,
                    variants,
                    k + 1,
                    clauses2,
                ),
            },
        }
    }
}

/// Generalizes a cube in several orders, for up to `num_clauses` different cubes.
#[verifier::opaque]
pub open spec fn multi_run(
    log: Seq<Event>,
    at: int,
    setting: Setting,
    inn: bool,
    frame: usize,
    cube: Seq<Lit>,
    constraint: Seq<Seq<Lit>>,
    parameter: DropVarParameter,
    num_clauses: usize,
) -> Option<(Result<Seq<Seq<Lit>>, Fault>, int)> {
    let solver = (frame - 1) as usize;
    let at1 = if parameter.level == 0 {
        at + 1
    } else {
        at
    };
    if (parameter.level == 0 ==> asked(log, at, Call::UnsetDomain { solver })) && asked(
        log,
        at1,
        Call::Count { tally: Tally::MicCubeLen(cube.len() as usize) },
    ) && asked(log, at1 + 1, Call::Count { tally: Tally::Mic }) {
        match variants_run(log, at1 + 2, cube, setting.order, inn, num_clauses) {
            None => None,
            Some((variants, at2)) => multi_loop(
                log,
                at2,
                setting,
                frame,
                constraint,
                parameter,
                num_clauses,
                variants,
                0,
                seq![],
            ),
        }
    } else {
        None
    }
}

/// Generalizes a cube in the way that is asked for, and takes the first result.
pub open spec fn mic_run(
    log: Seq<Event>,
    at: int,
    setting: Setting,
    inn: bool,
    frame: usize,
    cube: Seq<Lit>,
    constraint: Seq<Seq<Lit>>,
    mic_type: MicType,
) -> Option<(Result<Seq<Lit>, Fault>, int)> {
    match mic_type {
        MicType::NoMic => Some((Ok(cube), at)),
        MicType::DropVar(parameter) => drop_run(
            log,
            at,
            setting,
            frame,
            cube,
            constraint,
            parameter,
        ),
        MicType::MultiClauses(parameter, num_clauses) => match multi_run(
            log,
            at,
            setting,
            inn,
            frame,
            cube,
            constraint,
            parameter,
            num_clauses,
        ) {
            None => None,
            Some((Err(f), at2)) => Some((Err(f), at2)),
            Some((Ok(clauses), at2)) => Some((
                Ok(
                    if clauses.len() > 0 {
                        clauses[0]
                    } else {
                        cube
                    },
                ),
                at2,
            )),
        },
    }
}

/// Generalizes a cube in the way that is asked for, and takes all results.
pub open spec fn mic_multi_run(
    log: Seq<Event>,
    at: int,
    setting: Setting,
    inn: bool,
    frame: usize,
    cube: Seq<Lit>,
    constraint: Seq<Seq<Lit>>,
    mic_type: MicType,
) -> Option<(Result<Seq<Seq<Lit>>, Fault>, int)> {
    match mic_type {
        MicType::NoMic => Some((Ok(seq![cube]), at)),
        MicType::DropVar(parameter) => match drop_run(
            log,
            at,
            setting,
            frame,
            cube,
            constraint,
            parameter,
        ) {
            None => None,
            Some((Err(f), at2)) => Some((Err(f), at2)),
            Some((Ok(c), at2)) => Some((Ok(seq![c]), at2)),
        },
        MicType::MultiClauses(parameter, num_clauses) => multi_run(
            log,
            at,
            setting,
            inn,
            frame,
            cube,
            constraint,
            parameter,
            num_clauses,
        ),
    }
}

/// Whether a cube is among some others, literal for literal in the same order.
fn has_cube(v: &Vec<Vec<Lit>>, cube: &Vec<Lit>) -> (r: bool)
    ensures
        r == cubes(v@).contains(cube@),
{
    let mut i: usize = 0;
    while i < v.len()
        invariant
            i <= v.len(),
            forall|j: int| 0 <= j < i ==> (#[trigger] cubes(v@)[j]) != cube@,
        decreases v.len() - i,
    {
        if same_lits(&v[i], cube) {
            assert(cubes(v@)[i as int] == cube@);
            return true;
        }
        i = i + 1;
    }
    false
}

/// The literals of a cube in the order that the indices give.
pub fn reorder(cube: &Vec<Lit>, indices: &Vec<usize>) -> (r: Vec<Lit>)
    requires
        forall|i: int| 0 <= i < indices.len() ==> (#[trigger] indices[i]) < cube.len(),
    ensures
        r@ == reordered(cube@, indices@),
{
    let mut r: Vec<Lit> = Vec::new();
    let mut i: usize = 0;
    while i < indices.len()
        invariant
            i <= indices.len(),
            forall|i: int| 0 <= i < indices.len() ==> (#[trigger] indices[i]) < cube.len(),
            r@ == reordered(cube@, indices@).take(i as int),
        decreases indices.len() - i,
    {
        r.push(cube[indices[i]]);
        i = i + 1;
        assert(r@ =~= reordered(cube@, indices@).take(i as int));
    }
    assert(reordered(cube@, indices@).take(indices@.len() as int) =~= reordered(cube@, indices@));
    r
}

/// The variants of a cube that do not depend on chance.
pub fn standard_variants(cube: &Vec<Lit>, order: Order, inn: bool, num_clauses: usize) -> (r: Vec<
    Variant,
>)
    ensures
        variant_views(r@) == fixed_variants(cube@, order, inn, num_clauses),
{
    let mut r: Vec<Variant> = Vec::new();
    r.push(
        Variant {
            cube: copy_lits(cube),
            hybrid: false,
            topo: order.topo,
            reverse: order.reverse,
        },
    );
    if num_clauses > 1 && !inn {
        r.push(
            Variant {
                cube: copy_lits(cube),
                hybrid: false,
                topo: order.topo,
                reverse: !order.reverse,
            },
        );
        r.push(
            Variant {
                cube: copy_lits(cube),
                hybrid: false,
                topo: !order.topo,
                reverse: order.reverse,
            },
        );
        r.push(
            Variant {
                cube: copy_lits(cube),
                hybrid: false,
                topo: !order.topo,
                reverse: !order.reverse,
            },
        );
        if order.hybrid && num_clauses > 4 {
            r.push(
                Variant { cube: copy_lits(cube), hybrid: true, topo: false, reverse: false },
            );
        }
    }
    assert(variant_views(r@) =~= fixed_variants(cube@, order, inn, num_clauses));
    r
}

impl<R: Reasoner> Session<R> {
    /// Shuffles the indices of a cube of the given length; see [`shuffle_run`].
    fn shuffle(&mut self, n: usize) -> (r: Vec<usize>)
        ensures
            final(self).continues(*old(self)),
            r.len() == n,
            forall|i: int| 0 <= i < n ==> (#[trigger] r[i]) < n,
            forall|l: Seq<Event>|
                extends(l, final(self).log()) ==> #[trigger] shuffle_run(
                    l,
                    old(self).log().len() as int,
                    identity(n as nat),
                    0,
                ) == Some((r@, final(self).log().len() as int)),
    {
        let ghost start = self.log().len() as int;
        let mut indices: Vec<usize> = Vec::new();
        let mut k: usize = 0;
        while k < n
            invariant
                k <= n,
                indices@ == identity(n as nat).take(k as int),
            decreases n - k,
        {
            indices.push(k);
            k = k + 1;
            assert(indices@ =~= identity(n as nat).take(k as int));
        }
        assert(identity(n as nat).take(n as int) =~= identity(n as nat));
        let mut i: usize = 0;
        while i < n
            invariant
                i <= n,
                indices.len() == n,
                forall|j: int| 0 <= j < n ==> (#[trigger] indices[j]) < n,
                start == old(self).log().len(),
                self.continues(*old(self)),
                forall|l: Seq<Event>|
                    extends(l, self.log()) ==> #[trigger] shuffle_run(
                        l,
                        start,
                        identity(n as nat),
                        0,
                    ) == shuffle_run(l, self.log().len() as int, indices@, i as int),
            decreases n - i,
        {
            let word: u32 = self.draw();
            let j: usize = word as usize % n;
            let ghost before = indices@;
            let x: usize = indices[i];
            let y: usize = indices[j];
            indices.set(i, y);
            indices.set(j, x);
            assert(indices@ =~= exchanged(before, i as int, j as int));
            i = i + 1;
        }
        indices
    }

    /// All the variants of a cube; see [`variants_run`].
    fn variants(&mut self, cube: &Vec<Lit>, order: Order, inn: bool, num_clauses: usize) -> (r: Vec<
        Variant,
    >)
        ensures
            final(self).continues(*old(self)),
            inn || random_variants(num_clauses, order.hybrid) == 0 ==> final(self).source()
                == old(self).source(),
            forall|l: Seq<Event>|
                extends(l, final(self).log()) ==> #[trigger] variants_run(
                    l,
                    old(self).log().len() as int,
                    cube@,
                    order,
                    inn,
                    num_clauses,
                ) == Some((variant_views(r@), final(self).log().len() as int)),
    {
        let ghost start = self.log().len() as int;
        let mut variants: Vec<Variant> = standard_variants(cube, order, inn, num_clauses);
        let ghost fixed = variant_views(variants@);
        let mut left: usize = 0;
        if num_clauses > 4 && !inn {
            left = num_clauses - 4;
            if order.hybrid {
                left = left - 1;
            }
            if left > 3 {
                left = 3;
            }
        }
        let ghost wanted = left as int;
        while left > 0
            invariant
                start == old(self).log().len(),
                self.continues(*old(self)),
                0 <= left <= wanted,
                wanted == 0 ==> self.source() == old(self).source(),
                forall|l: Seq<Event>|
                    extends(l, self.log()) ==> #[trigger] random_run(
                        l,
                        start,
                        cube@,
                        wanted,
                        fixed,
                    ) == random_run(
                        l,
                        self.log().len() as int,
                        cube@,
                        left as int,
                        variant_views(variants@),
                    ),
            decreases left,
        {
            let indices: Vec<usize> = self.shuffle(cube.len());
            let topo: bool = self.draw() % 2 == 0;
            let reverse: bool = self.draw() % 2 == 0;
            let ghost before = variant_views(variants@);
            let one: Variant = Variant {
                cube: reorder(cube, &indices),
                hybrid: false,
                topo,
                reverse,
            };
            let ghost view = one@;
            variants.push(one);
            assert(variant_views(variants@) =~= before.push(view));
            left = left - 1;
        }
        variants
    }

    /// Generalizes one variant; see [`variant_run`].
    fn mic_variant(
        &mut self,
        setting: Setting,
        frame: usize,
        constraint: &Vec<Vec<Lit>>,
        parameter: DropVarParameter,
        variant: &Variant,
    ) -> (r: Result<Vec<Lit>, Fault>)
        requires
            frame > 0,
            setting.level < usize::MAX,
        ensures
            final(self).asks(*old(self)),
            forall|l: Seq<Event>|
                extends(l, final(self).log()) ==> #[trigger] variant_run(
                    l,
                    old(self).log().len() as int,
                    setting,
                    frame,
                    cubes(constraint@),
                    parameter,
                    variant@,
                ) == Some((outcome(r), final(self).log().len() as int)),
    {
        let cube: Vec<Lit> = if variant.hybrid {
            self.sort_hybrid(&variant.cube, frame, setting.order.reverse)
        } else {
            copy_lits(&variant.cube)
        };
        let order: Order = if variant.hybrid {
            setting.order
        } else {
            Order { hybrid: false, topo: variant.topo, reverse: variant.reverse }
        };
        if parameter.level == 0 {
            self.restrict_domain(frame - 1, &cube);
        }
        self.mic_by_drop_var(
            Setting { order, level: setting.level },
            frame,
            cube,
            constraint,
            parameter,
            false,
        )
    }

    /// Generalizes a cube in several orders; see [`multi_run`].
    pub fn mic_by_multi_clauses(
        &mut self,
        setting: Setting,
        inn: bool,
        frame: usize,
        cube: &Vec<Lit>,
        constraint: &Vec<Vec<Lit>>,
        parameter: DropVarParameter,
        num_clauses: usize,
    ) -> (r: Result<Vec<Vec<Lit>>, Fault>)
        requires
            frame > 0,
            setting.level < usize::MAX,
        ensures
            final(self).continues(*old(self)),
            inn || random_variants(num_clauses, setting.order.hybrid) == 0 ==> final(self).source()
                == old(self).source(),
            forall|l: Seq<Event>|
                extends(l, final(self).log()) ==> #[trigger] multi_run(
                    l,
                    old(self).log().len() as int,
                    setting,
                    inn,
                    frame,
                    cube@,
                    cubes(constraint@),
                    parameter,
                    num_clauses,
                ) == Some((outcomes(r), final(self).log().len() as int)),
    {
        proof {
            reveal(multi_run);
        }
        let ghost start = self.log().len() as int;
        let solver: usize = frame - 1;
        let restrict: bool = parameter.level == 0;
        if restrict {
            self.unset_domain(solver);
        }
        self.tally(Tally::MicCubeLen(cube.len()));
        self.tally(Tally::Mic);
        let variants: Vec<Variant> = self.variants(cube, setting.order, inn, num_clauses);
        let mut clauses: Vec<Vec<Lit>> = Vec::new();
        let mut k: usize = 0;
        assert(cubes(clauses@) =~= seq![]);
        while k < variants.len() && clauses.len() < num_clauses
            invariant
                k <= variants.len(),
                frame > 0,
                setting.level < usize::MAX,
                solver == frame - 1,
                restrict == (parameter.level == 0),
                start == old(self).log().len(),
                self.continues(*old(self)),
                inn || random_variants(num_clauses, setting.order.hybrid) == 0 ==> self.source()
                    == old(self).source(),
                forall|l: Seq<Event>|
                    extends(l, self.log()) ==> #[trigger] multi_run(
                        l,
                        start,
                        setting,
                        inn,
                        frame,
                        cube@,
                        cubes(constraint@),
                        parameter,
                        num_clauses,
                    ) == multi_loop(
                        l,
                        self.log().len() as int,
                        setting,
                        frame,
                        cubes(constraint@),
                        parameter,
                        num_clauses,
                        variant_views(variants@),
                        k as int,
                        cubes(clauses@),
                    ),
            decreases variants.len() - k,
        {
            let result: Vec<Lit> = match self.mic_variant(
                setting,
                frame,
                constraint,
                parameter,
                &variants[k],
            ) {
                Ok(c) => c,
                Err(f) => {
                    return Err(f);
                },
            };
            let ghost before = cubes(clauses@);
            let ghost lits = result@;
            if !has_cube(&clauses, &result) {
                clauses.push(result);
                assert(cubes(clauses@) =~= before.push(lits));
                self.tally(Tally::UniqueMultiClause);
            }
            self.tally(Tally::TotalMultiClause);
            if restrict {
                self.unset_domain(solver);
            }
            k = k + 1;
        }
        Ok(clauses)
    }

    /// Generalizes a cube, and takes the first result; see [`mic_run`].
    pub fn mic(
        &mut self,
        setting: Setting,
        inn: bool,
        frame: usize,
        cube: Vec<Lit>,
        constraint: &Vec<Vec<Lit>>,
        mic_type: MicType,
    ) -> (r: Result<Vec<Lit>, Fault>)
        requires
            mic_type is NoMic || frame > 0 && setting.level < usize::MAX,
        ensures
            final(self).continues(*old(self)),
            !may_draw(mic_type, inn, setting.order.hybrid) ==> final(self).source()
                == old(self).source(),
            forall|l: Seq<Event>|
                extends(l, final(self).log()) ==> #[trigger] mic_run(
                    l,
                    old(self).log().len() as int,
                    setting,
                    inn,
                    frame,
                    cube@,
                    cubes(constraint@),
                    mic_type,
                ) == Some((outcome(r), final(self).log().len() as int)),
    {
        match mic_type {
            MicType::NoMic => Ok(cube),
            MicType::DropVar(parameter) => {
                self.mic_by_dropping(setting, frame, cube, constraint, parameter)
            },
            MicType::MultiClauses(parameter, num_clauses) => {
                match self.mic_by_multi_clauses(
                    setting,
                    inn,
                    frame,
                    &cube,
                    constraint,
                    parameter,
                    num_clauses,
                ) {
                    Ok(clauses) => {
                        if clauses.len() > 0 {
                            Ok(copy_lits(&clauses[0]))
                        } else {
                            Ok(cube)
                        }
                    },
                    Err(f) => Err(f),
                }
            },
        }
    }

    /// Generalizes a cube, and takes all results; see [`mic_multi_run`].
    pub fn mic_multi(
        &mut self,
        setting: Setting,
        inn: bool,
        frame: usize,
        cube: Vec<Lit>,
        constraint: &Vec<Vec<Lit>>,
        mic_type: MicType,
    ) -> (r: Result<Vec<Vec<Lit>>, Fault>)
        requires
            mic_type is NoMic || frame > 0 && setting.level < usize::MAX,
        ensures
            final(self).continues(*old(self)),
            !may_draw(mic_type, inn, setting.order.hybrid) ==> final(self).source()
                == old(self).source(),
            forall|l: Seq<Event>|
                extends(l, final(self).log()) ==> #[trigger] mic_multi_run(
                    l,
                    old(self).log().len() as int,
                    setting,
                    inn,
                    frame,
                    cube@,
                    cubes(constraint@),
                    mic_type,
                ) == Some((outcomes(r), final(self).log().len() as int)),
    {
        let mut all: Vec<Vec<Lit>> = Vec::new();
        let ghost lits = cube@;
        match mic_type {
            MicType::NoMic => {
                all.push(cube);
                assert(cubes(all@) =~= seq![lits]);
                Ok(all)
            },
            MicType::DropVar(parameter) => {
                match self.mic_by_dropping(setting, frame, cube, constraint, parameter) {
                    Ok(c) => {
                        let ghost left = c@;
                        all.push(c);
                        assert(cubes(all@) =~= seq![left]);
                        Ok(all)
                    },
                    Err(f) => Err(f),
                }
            },
            MicType::MultiClauses(parameter, num_clauses) => self.mic_by_multi_clauses(
                setting,
                inn,
                frame,
                &cube,
                constraint,
                parameter,
                num_clauses,
            ),
        }
    }
}

} // verus!
