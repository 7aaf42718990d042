//! Hash maps and sets over `rustc_hash`'s Fx hasher, keyed by the numbers of ids.
use crate::rir::Operand;
use rustc_hash::{FxHashMap, FxHashSet, FxHasher};
use std::collections::{HashMap, HashSet};
use std::hash::BuildHasherDefault;
use vstd::prelude::*;

verus! {

/// `rustc_hash::FxHasher`, the hasher of the maps below, seen as an opaque type.
#[verifier::external_type_specification]
#[verifier::external_body]
pub struct ExFxHasher(FxHasher);

/// `std::hash::BuildHasherDefault`, which builds the Fx hasher for each lookup, seen as an
/// opaque type.
#[verifier::external_type_specification]
#[verifier::external_body]
#[verifier::reject_recursive_types(H)]
pub struct ExBuildHasherDefault<H>(BuildHasherDefault<H>);

/// What an Fx hash map from variable numbers to operands holds.
pub uninterp spec fn fx_operand_map_contents(m: HashMap<u32, Operand, BuildHasherDefault<FxHasher>>) -> Map<
    u32,
    Operand,
>;

/// What an Fx hash map from block numbers to positions holds.
pub uninterp spec fn fx_position_map_contents(m: HashMap<u32, usize, BuildHasherDefault<FxHasher>>) -> Map<
    u32,
    usize,
>;

/// What an Fx hash set of block numbers holds.
pub uninterp spec fn fx_number_set_contents(m: HashSet<u32, BuildHasherDefault<FxHasher>>) -> Set<u32>;

/// A map from variable numbers to operands.
pub struct OperandMap {
    inner: FxHashMap<u32, Operand>,
}

/// A map from block numbers to positions.
pub struct PositionMap {
    inner: FxHashMap<u32, usize>,
}

/// A set of block numbers.
pub struct NumberSet {
    inner: FxHashSet<u32>,
}

/// `FxHashMap::default` (through `HashMap::default`): an empty map.
#[verifier::external_body]
fn operand_map_default() -> (r: FxHashMap<u32, Operand>)
    ensures
        fx_operand_map_contents(r) =~= Map::empty(),
{
    FxHashMap::default()
}

/// `HashMap::get`, with the operand copied out: the value under `k`, if any.
#[verifier::external_body]
fn operand_map_get(m: &FxHashMap<u32, Operand>, k: u32) -> (r: Option<Operand>)
    ensures
        r == fx_operand_map_contents(*m).get(k),
{
    m.get(&k).copied()
}

/// `HashMap::insert`: `v` is stored under `k`, replacing any earlier value.
#[verifier::external_body]
fn operand_map_insert(m: &mut FxHashMap<u32, Operand>, k: u32, v: Operand)
    ensures
        fx_operand_map_contents(*final(m)) == fx_operand_map_contents(*old(m)).insert(k, v),
{
    m.insert(k, v);
}

/// `HashMap::len`: the number of entries.
#[verifier::external_body]
fn operand_map_len(m: &FxHashMap<u32, Operand>) -> (r: usize)
    ensures
        r as nat == fx_operand_map_contents(*m).len(),
{
    m.len()
}

/// `HashMap::remove`: the key `k` is gone afterwards.
#[verifier::external_body]
fn operand_map_remove(m: &mut FxHashMap<u32, Operand>, k: u32)
    ensures
        fx_operand_map_contents(*final(m)) == fx_operand_map_contents(*old(m)).remove(k),
{
    m.remove(&k);
}

/// `HashMap::clone`: a map with the same entries.
#[verifier::external_body]
fn operand_map_clone(m: &FxHashMap<u32, Operand>) -> (r: FxHashMap<u32, Operand>)
    ensures
        fx_operand_map_contents(r) == fx_operand_map_contents(*m),
{
    m.clone()
}

/// `HashMap::iter`, collected into pairs: every entry once, in the order the map is walked,
/// which no clause fixes.
#[verifier::external_body]
fn operand_map_entries(m: &FxHashMap<u32, Operand>) -> (r: Vec<(u32, Operand)>)
    ensures
        r@.map_values(|e: (u32, Operand)| e.0).no_duplicates(),
        forall|i: int|
            0 <= i < r@.len() ==> fx_operand_map_contents(*m).contains_key(#[trigger] r@[i].0)
                && fx_operand_map_contents(*m)[r@[i].0] == r@[i].1,
        forall|k: u32|
            #[trigger] fx_operand_map_contents(*m).contains_key(k) ==> exists|i: int|
                0 <= i < r@.len() && r@[i].0 == k,
{
    m.iter().map(|(k, v)| (*k, *v)).collect()
}

/// `FxHashMap::default` (through `HashMap::default`): an empty map.
#[verifier::external_body]
fn position_map_default() -> (r: FxHashMap<u32, usize>)
    ensures
        fx_position_map_contents(r) =~= Map::empty(),
{
    FxHashMap::default()
}

/// `HashMap::get`, with the position copied out: the value under `k`, if any.
#[verifier::external_body]
fn position_map_get(m: &FxHashMap<u32, usize>, k: u32) -> (r: Option<usize>)
    ensures
        r == fx_position_map_contents(*m).get(k),
{
    m.get(&k).copied()
}

/// `HashMap::insert`: `v` is stored under `k`, replacing any earlier value.
#[verifier::external_body]
fn position_map_insert(m: &mut FxHashMap<u32, usize>, k: u32, v: usize)
    ensures
        fx_position_map_contents(*final(m)) == fx_position_map_contents(*old(m)).insert(k, v),
{
    m.insert(k, v);
}

/// `FxHashSet::default` (through `HashSet::default`): an empty set.
#[verifier::external_body]
fn number_set_default() -> (r: FxHashSet<u32>)
    ensures
        fx_number_set_contents(r) =~= Set::empty(),
{
    FxHashSet::default()
}

/// `HashSet::contains`: whether `k` is in the set.
#[verifier::external_body]
fn number_set_contains(m: &FxHashSet<u32>, k: u32) -> (r: bool)
    ensures
        r == fx_number_set_contents(*m).contains(k),
{
    m.contains(&k)
}

/// `HashSet::insert`: `k` is in the set afterwards.
#[verifier::external_body]
fn number_set_insert(m: &mut FxHashSet<u32>, k: u32)
    ensures
        fx_number_set_contents(*final(m)) == fx_number_set_contents(*old(m)).insert(k),
{
    m.insert(k);
}

impl OperandMap {
    /// The entries of the map.
    pub closed spec fn contents(&self) -> Map<u32, Operand> {
        fx_operand_map_contents(self.inner)
    }

    pub fn new() -> (m: Self)
        ensures
            m.contents() == Map::<u32, Operand>::empty(),
    {
        OperandMap { inner: operand_map_default() }
    }

    pub fn get(&self, k: u32) -> (r: Option<Operand>)
        ensures
            r == self.contents().get(k),
    {
        operand_map_get(&self.inner, k)
    }

    pub fn insert(&mut self, k: u32, v: Operand)
        ensures
            final(self).contents() == old(self).contents().insert(k, v),
    {
        operand_map_insert(&mut self.inner, k, v)
    }

    /// The number of entries.
    pub fn len(&self) -> (r: usize)
        ensures
            r as nat == self.contents().len(),
    {
        operand_map_len(&self.inner)
    }

    pub fn remove(&mut self, k: u32)
        ensures
            final(self).contents() == old(self).contents().remove(k),
    {
        operand_map_remove(&mut self.inner, k)
    }

    pub fn duplicate(&self) -> (r: Self)
        ensures
            r.contents() == self.contents(),
    {
        OperandMap { inner: operand_map_clone(&self.inner) }
    }

    /// Every entry once, in an order that no clause fixes.
    pub fn entries(&self) -> (r: Vec<(u32, Operand)>)
        ensures
            r@.map_values(|e: (u32, Operand)| e.0).no_duplicates(),
            forall|i: int|
                0 <= i < r@.len() ==> self.contents().contains_key(#[trigger] r@[i].0)
                    && self.contents()[r@[i].0] == r@[i].1,
            forall|k: u32|
                #[trigger] self.contents().contains_key(k) ==> exists|i: int|
                    0 <= i < r@.len() && r@[i].0 == k,
    {
        operand_map_entries(&self.inner)
    }
}

impl PositionMap {
    /// The entries of the map.
    pub closed spec fn contents(&self) -> Map<u32, usize> {
        fx_position_map_contents(self.inner)
    }

    pub fn new() -> (m: Self)
        ensures
            m.contents() == Map::<u32, usize>::empty(),
    {
        PositionMap { inner: position_map_default() }
    }

    pub fn get(&self, k: u32) -> (r: Option<usize>)
        ensures
            r == self.contents().get(k),
    {
        position_map_get(&self.inner, k)
    }

    pub fn insert(&mut self, k: u32, v: usize)
        ensures
            final(self).contents() == old(self).contents().insert(k, v),
    {
        position_map_insert(&mut self.inner, k, v)
    }
}

impl NumberSet {
    /// The members of the set.
    pub closed spec fn contents(&self) -> Set<u32> {
        fx_number_set_contents(self.inner)
    }

    pub fn new() -> (m: Self)
        ensures
            m.contents() == Set::<u32>::empty(),
    {
        NumberSet { inner: number_set_default() }
    }

    pub fn contains(&self, k: u32) -> (r: bool)
        ensures
            r == self.contents().contains(k),
    {
        number_set_contains(&self.inner, k)
    }

    pub fn insert(&mut self, k: u32)
        ensures
            final(self).contents() == old(self).contents().insert(k),
    {
        number_set_insert(&mut self.inner, k)
    }
}

} // verus!
