//! The hash set and the hash map of `giputils`, with numbers as elements.

use giputils::hash::{GHashMap, GHashSet};
use vstd::prelude::*;

verus! {

/// A `giputils::hash::GHashSet` of numbers.
#[verifier::external_body]
pub struct NumberSet {
    set: GHashSet<u32>,
}

/// A `giputils::hash::GHashMap` from numbers to numbers.
#[verifier::external_body]
pub struct NumberMap {
    map: GHashMap<u32, u32>,
}

/// The elements of a hash set.
pub uninterp spec fn members(s: NumberSet) -> Set<u32>;

/// The entries of a hash map.
pub uninterp spec fn entries(m: NumberMap) -> Map<u32, u32>;

/// `GHashSet::new`: a set without elements.
#[verifier::external_body]
pub(crate) fn empty_set() -> (r: NumberSet)
    ensures
        members(r) == Set::<u32>::empty(),
{
    NumberSet { set: GHashSet::new() }
}

/// `HashSet::insert`, which `GHashSet` dereferences to: adds one element, and says whether it
/// was new.
#[verifier::external_body]
pub(crate) fn insert_member(s: &mut NumberSet, x: u32) -> (r: bool)
    ensures
        members(*final(s)) == members(*old(s)).insert(x),
        r == !members(*old(s)).contains(x),
{
    s.set.insert(x)
}

/// `HashSet::contains`, which `GHashSet` dereferences to: whether `x` is an element.
#[verifier::external_body]
pub(crate) fn is_member(s: &NumberSet, x: u32) -> (r: bool)
    ensures
        r == members(*s).contains(x),
{
    s.set.contains(&x)
}

/// `GHashSet::from_iter`: the set of the numbers in the vector.
#[verifier::external_body]
pub(crate) fn set_of(v: Vec<u32>) -> (r: NumberSet)
    ensures
        members(r) == v@.to_set(),
{
    NumberSet { set: GHashSet::from_iter(v) }
}

/// `GHashMap::new`: a map without entries.
#[verifier::external_body]
pub(crate) fn empty_map() -> (r: NumberMap)
    ensures
        entries(r).dom() == Set::<u32>::empty(),
{
    NumberMap { map: GHashMap::new() }
}

/// `HashMap::insert`, which `GHashMap` dereferences to: gives a key a value, in place of the
/// one it had, if any, which is returned.
#[verifier::external_body]
pub(crate) fn insert_entry(m: &mut NumberMap, key: u32, value: u32) -> (r: Option<u32>)
    ensures
        entries(*final(m)) == entries(*old(m)).insert(key, value),
        r == (if entries(*old(m)).dom().contains(key) {
            Some(entries(*old(m))[key])
        } else {
            None
        }),
{
    m.map.insert(key, value)
}

/// `HashMap::get`, which `GHashMap` dereferences to: the value of a key, if it has one.
#[verifier::external_body]
pub(crate) fn get_entry(m: &NumberMap, key: u32) -> (r: Option<u32>)
    ensures
        r == (if entries(*m).dom().contains(key) {
            Some(entries(*m)[key])
        } else {
            None
        }),
{
    m.map.get(&key).copied()
}

} // verus!
