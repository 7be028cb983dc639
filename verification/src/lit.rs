//! Variables, literals and cubes.

use vstd::prelude::*;

verus! {

/// The highest variable that has literals.
pub const MAX_VAR: u32 = 0x7fff_ffff;

/// A Boolean variable, known by its number.
#[derive(Clone, Copy, PartialEq, Eq, Structural, Debug)]
pub struct Var(pub u32);

/// A literal: the code `2 * v` stands for the variable `v`, and `2 * v + 1` for its negation.
#[derive(Clone, Copy, PartialEq, Eq, Structural, Debug)]
pub struct Lit(pub u32);

impl Lit {
    /// The variable of a literal.
    pub open spec fn var_spec(self) -> Var {
        Var((self.0 / 2) as u32)
    }

    /// Whether a literal is the variable itself rather than its negation.
    pub open spec fn positive(self) -> bool {
        self.0 % 2 == 0
    }

    /// The literal of the same variable and the other polarity.
    pub open spec fn negation(self) -> Lit {
        if self.positive() {
            Lit((self.0 + 1) as u32)
        } else {
            Lit((self.0 - 1) as u32)
        }
    }

    /// The literal itself, or its negation where `c` holds.
    pub open spec fn negation_if(self, c: bool) -> Lit {
        if c {
            self.negation()
        } else {
            self
        }
    }

    /// The literal of `var` with the given polarity.
    pub fn new(var: Var, polarity: bool) -> (r: Lit)
        requires
            var.0 <= MAX_VAR,
        ensures
            r.var_spec() == var,
            r.positive() == polarity,
    {
        if polarity {
            Lit(var.0 * 2)
        } else {
            Lit(var.0 * 2 + 1)
        }
    }

    /// The variable of the literal.
    pub fn var(&self) -> (r: Var)
        ensures
            r == self.var_spec(),
    {
        Var(self.0 / 2)
    }

    /// Whether the literal is positive.
    pub fn polarity(&self) -> (r: bool)
        ensures
            r == self.positive(),
    {
        self.0 % 2 == 0
    }

    /// The negation of the literal.
    pub fn negate(&self) -> (r: Lit)
        ensures
            r == self.negation(),
    {
        if self.0 % 2 == 0 {
            Lit(self.0 + 1)
        } else {
            Lit(self.0 - 1)
        }
    }

    /// The negation of the literal where `c` holds, and otherwise the literal.
    pub fn not_if(&self, c: bool) -> (r: Lit)
        ensures
            r == self.negation_if(c),
    {
        if c {
            self.negate()
        } else {
            *self
        }
    }
}

impl Var {
    /// The positive literal of a variable.
    pub open spec fn lit_spec(self) -> Lit {
        Lit((self.0 * 2) as u32)
    }

    /// The positive literal of the variable.
    pub fn lit(&self) -> (r: Lit)
        requires
            self.0 <= MAX_VAR,
        ensures
            r == self.lit_spec(),
            r.var_spec() == self,
            r.positive(),
    {
        Lit(self.0 * 2)
    }
}

/// A literal and its negation have the same variable and the two polarities, and negating twice
/// gives the literal back.
pub proof fn law_negation(lit: Lit, c: bool)
    ensures
        lit.negation().var_spec() == lit.var_spec(),
        lit.negation().positive() == !lit.positive(),
        lit.negation().negation() == lit,
        lit.negation_if(c).var_spec() == lit.var_spec(),
        lit.negation_if(c).positive() == (lit.positive() != c),
{
}

/// A variable with a literal is that of its positive literal.
pub proof fn law_lit(var: Var)
    requires
        var.0 <= MAX_VAR,
    ensures
        var.lit_spec().var_spec() == var,
        var.lit_spec().positive(),
{
}

/// The literals of a cube or a clause, each negated, in the same order.
pub open spec fn negated(lits: Seq<Lit>) -> Seq<Lit> {
    Seq::new(lits.len(), |i: int| lits[i].negation())
}

/// Whether `lits` is the shorter or equally long one and each of its literals is in `other`.
pub open spec fn subsumes(lits: Seq<Lit>, other: Seq<Lit>) -> bool {
    &&& lits.len() <= other.len()
    &&& forall|i: int| 0 <= i < lits.len() ==> other.contains(#[trigger] lits[i])
}

/// The literals of the first sequence that are in the second, in the order of the first.
pub open spec fn common(lits: Seq<Lit>, other: Seq<Lit>) -> Seq<Lit> {
    lits.filter(|l: Lit| other.contains(l))
}

/// The codes of some literals.
pub open spec fn codes(lits: Seq<Lit>) -> Set<u32> {
    Set::new(|c: u32| lits.contains(Lit(c)))
}

/// The order of literals by code.
pub open spec fn code_order() -> spec_fn(Lit, Lit) -> bool {
    |a: Lit, b: Lit| a.0 <= b.0
}

/// The literals in ascending order of their codes.
pub open spec fn sorted(lits: Seq<Lit>) -> Seq<Lit> {
    lits.sort_by(code_order())
}

/// The cubes that a vector of cubes holds.
pub open spec fn cubes(v: Seq<Vec<Lit>>) -> Seq<Seq<Lit>> {
    Seq::new(v.len(), |i: int| v[i]@)
}

/// Sorting keeps the literals: each occurs as often as before.
pub proof fn lemma_sorted(lits: Seq<Lit>)
    ensures
        sorted(lits).to_multiset() == lits.to_multiset(),
        sorted(lits).len() == lits.len(),
        forall|l: Lit| #[trigger] sorted(lits).contains(l) <==> lits.contains(l),
{
    lits.lemma_sort_by_ensures(code_order());
    lemma_same_multiset(sorted(lits), lits);
}

/// Whether some literals are those of a cube, each as often as there, in ascending order of codes.
pub open spec fn sorts(lits: Seq<Lit>, cube: Seq<Lit>) -> bool {
    &&& lits.to_multiset() == cube.to_multiset()
    &&& forall|i: int, j: int|
        0 <= i < j < lits.len() ==> (#[trigger] lits[i]).0 <= (#[trigger] lits[j]).0
}

/// Sorting puts the literals in ascending order of codes, and keeps them.
pub proof fn law_sorted(lits: Seq<Lit>)
    ensures
        sorts(sorted(lits), lits),
{
    lits.lemma_sort_by_ensures(code_order());
    let r = sorted(lits);
    assert forall|i: int, j: int| 0 <= i < j < r.len() implies (#[trigger] r[i]).0 <= (
    #[trigger] r[j]).0 by {
        assert(code_order()(r[i], r[j]));
    }
}

/// One literal more on the left of [`common`].
pub proof fn lemma_common_step(lits: Seq<Lit>, other: Seq<Lit>, i: int)
    requires
        0 <= i < lits.len(),
    ensures
        common(lits.take(i + 1), other) == if other.contains(lits[i]) {
            common(lits.take(i), other).push(lits[i])
        } else {
            common(lits.take(i), other)
        },
{
    reveal(Seq::filter);
    assert(lits.take(i + 1).drop_last() =~= lits.take(i));
}

/// What is common to two sequences is in both, and what is in both is common.
pub proof fn lemma_common(lits: Seq<Lit>, other: Seq<Lit>)
    ensures
        common(lits, other).len() <= lits.len(),
        forall|l: Lit| #[trigger]
            common(lits, other).contains(l) <==> lits.contains(l) && other.contains(l),
    decreases lits.len(),
{
    reveal(Seq::filter);
    if lits.len() > 0 {
        let rest = lits.drop_last();
        lemma_common(rest, other);
        assert(common(lits, other) == if other.contains(lits.last()) {
            common(rest, other).push(lits.last())
        } else {
            common(rest, other)
        });
        assert forall|l: Lit| #[trigger]
            common(lits, other).contains(l) <==> lits.contains(l) && other.contains(l) by {
            assert(lits =~= rest.push(lits.last()));
            if lits.contains(l) {
                assert(rest.contains(l) || l == lits.last());
            }
            if common(rest, other).contains(l) {
                let i = choose|i: int| 0 <= i < common(rest, other).len() && common(rest, other)[i] == l;
                assert(common(lits, other)[i] == l);
            }
            if l == lits.last() && other.contains(l) {
                assert(common(lits, other).last() == l);
            }
        }
    }
}

/// Two sequences of literals with the same multiset have the same length and the same members.
pub proof fn lemma_same_multiset(a: Seq<Lit>, b: Seq<Lit>)
    requires
        a.to_multiset() == b.to_multiset(),
    ensures
        a.len() == b.len(),
        forall|l: Lit| #[trigger] a.contains(l) <==> b.contains(l),
{
    broadcast use vstd::seq_lib::group_to_multiset_ensures;

    assert(a.to_multiset().len() == a.len());
    assert(b.to_multiset().len() == b.len());
    assert forall|l: Lit| #[trigger] a.contains(l) <==> b.contains(l) by {
        assert(a.contains(l) <==> a.to_multiset().count(l) > 0);
        assert(b.contains(l) <==> b.to_multiset().count(l) > 0);
    }
}

/// `[T]::sort_by_key` of the standard library, on literals and their codes: it sorts the
/// vector in ascending order of the codes, and keeps its elements.
#[verifier::external_body]
fn sort_by_code(lits: &mut Vec<Lit>)
    ensures
        final(lits)@.to_multiset() == old(lits)@.to_multiset(),
        forall|i: int, j: int|
            0 <= i <= j < final(lits)@.len() ==> (#[trigger] final(lits)@[i]).0 <= (
            #[trigger] final(lits)@[j]).0,
{
    lits.sort_by_key(|l| l.0)
}

/// The literals in ascending order of their codes.
pub fn sort_lits(lits: &Vec<Lit>) -> (r: Vec<Lit>)
    ensures
        r@ == sorted(lits@),
{
    let mut r: Vec<Lit> = copy_lits(lits);
    sort_by_code(&mut r);
    proof {
        lits@.lemma_sort_by_ensures(code_order());
        vstd::seq_lib::lemma_sorted_unique(r@, sorted(lits@), code_order());
    }
    r
}

/// A copy of a sequence of literals.
pub fn copy_lits(lits: &Vec<Lit>) -> (r: Vec<Lit>)
    ensures
        r@ == lits@,
{
    let mut r: Vec<Lit> = Vec::new();
    let mut i: usize = 0;
    while i < lits.len()
        invariant
            i <= lits.len(),
            r@ == lits@.take(i as int),
        decreases lits.len() - i,
    {
        r.push(lits[i]);
        i = i + 1;
    }
    assert(lits@.take(lits@.len() as int) == lits@);
    r
}

/// The literals in the opposite order.
pub fn reverse_lits(lits: &Vec<Lit>) -> (r: Vec<Lit>)
    ensures
        r@ == lits@.reverse(),
{
    let mut r: Vec<Lit> = Vec::new();
    let mut i: usize = lits.len();
    while i > 0
        invariant
            i <= lits.len(),
            r@ == lits@.reverse().take(lits.len() - i),
        decreases i,
    {
        i = i - 1;
        r.push(lits[i]);
        assert(r@ =~= lits@.reverse().take(lits.len() - i));
    }
    assert(lits@.reverse().take(lits@.len() as int) =~= lits@.reverse());
    r
}

/// The literals, each negated: the clause that excludes a cube, and the other way round.
pub fn negate_lits(lits: &Vec<Lit>) -> (r: Vec<Lit>)
    ensures
        r@ == negated(lits@),
{
    let mut r: Vec<Lit> = Vec::new();
    let mut i: usize = 0;
    while i < lits.len()
        invariant
            i <= lits.len(),
            r@ == negated(lits@).take(i as int),
        decreases lits.len() - i,
    {
        r.push(lits[i].negate());
        i = i + 1;
        assert(r@ =~= negated(lits@).take(i as int));
    }
    assert(negated(lits@).take(lits@.len() as int) =~= negated(lits@));
    r
}

/// Whether a literal is among `lits`.
pub fn has_lit(lits: &Vec<Lit>, lit: Lit) -> (r: bool)
    ensures
        r == lits@.contains(lit),
{
    let mut i: usize = 0;
    while i < lits.len()
        invariant
            i <= lits.len(),
            forall|j: int| 0 <= j < i ==> lits@[j] != lit,
        decreases lits.len() - i,
    {
        if lits[i] == lit {
            return true;
        }
        i = i + 1;
    }
    false
}

/// The literals of the first sequence that are in the second.
pub fn common_lits(lits: &Vec<Lit>, other: &Vec<Lit>) -> (r: Vec<Lit>)
    ensures
        r@ == common(lits@, other@),
{
    let mut r: Vec<Lit> = Vec::new();
    let mut i: usize = 0;
    proof {
        reveal(Seq::filter);
        assert(lits@.take(0) =~= Seq::<Lit>::empty());
    }
    while i < lits.len()
        invariant
            i <= lits.len(),
            r@ == common(lits@.take(i as int), other@),
        decreases lits.len() - i,
    {
        proof {
            lemma_common_step(lits@, other@, i as int);
        }
        if has_lit(other, lits[i]) {
            r.push(lits[i]);
        }
        i = i + 1;
    }
    assert(lits@.take(lits@.len() as int) == lits@);
    r
}

/// The codes of the literals.
pub fn lit_codes(lits: &Vec<Lit>) -> (r: Vec<u32>)
    ensures
        r@.to_set() == codes(lits@),
{
    let mut r: Vec<u32> = Vec::new();
    let mut i: usize = 0;
    while i < lits.len()
        invariant
            i <= lits.len(),
            r.len() == i,
            forall|j: int| 0 <= j < i ==> r@[j] == lits@[j].0,
        decreases lits.len() - i,
    {
        r.push(lits[i].0);
        i = i + 1;
    }
    proof {
        assert forall|c: u32| r@.to_set().contains(c) <==> codes(lits@).contains(c) by {
            if r@.contains(c) {
                let j = choose|j: int| 0 <= j < r@.len() && r@[j] == c;
                assert(lits@[j] == Lit(c));
            }
            if lits@.contains(Lit(c)) {
                let j = choose|j: int| 0 <= j < lits@.len() && lits@[j] == Lit(c);
                assert(r@[j] == c);
            }
        }
        assert(r@.to_set() =~= codes(lits@));
    }
    r
}

/// The literals of the first sequence, and after them those of the second.
pub fn concat_lits(lits: &Vec<Lit>, other: &Vec<Lit>) -> (r: Vec<Lit>)
    ensures
        r@ == lits@ + other@,
{
    let mut r: Vec<Lit> = copy_lits(lits);
    let mut i: usize = 0;
    while i < other.len()
        invariant
            i <= other.len(),
            r@ == lits@ + other@.take(i as int),
        decreases other.len() - i,
    {
        r.push(other[i]);
        i = i + 1;
        assert(r@ =~= lits@ + other@.take(i as int));
    }
    assert(other@.take(other@.len() as int) == other@);
    r
}

/// Whether the first cube subsumes the second.
pub fn subsume(lits: &Vec<Lit>, other: &Vec<Lit>) -> (r: bool)
    ensures
        r == subsumes(lits@, other@),
{
    if lits.len() > other.len() {
        return false;
    }
    let mut i: usize = 0;
    while i < lits.len()
        invariant
            i <= lits.len() <= other.len(),
            forall|j: int| 0 <= j < i ==> other@.contains(#[trigger] lits@[j]),
        decreases lits.len() - i,
    {
        if !has_lit(other, lits[i]) {
            return false;
        }
        i = i + 1;
    }
    true
}

/// Whether two sequences of literals are the same, in the same order.
pub fn same_lits(a: &Vec<Lit>, b: &Vec<Lit>) -> (r: bool)
    ensures
        r == (a@ == b@),
{
    if a.len() != b.len() {
        return false;
    }
    let mut i: usize = 0;
    while i < a.len()
        invariant
            i <= a.len() == b.len(),
            forall|j: int| 0 <= j < i ==> a@[j] == b@[j],
        decreases a.len() - i,
    {
        if a[i] != b[i] {
            return false;
        }
        i = i + 1;
    }
    assert(a@ =~= b@);
    true
}

} // verus!
