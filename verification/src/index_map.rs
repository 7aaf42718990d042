use vstd::prelude::*;

verus! {

/// A key that names a slot of an [`IndexMap`] by a small natural number.
pub trait IndexKey: Copy + Sized {
    /// The slot that the key names.
    spec fn key_nat(self) -> nat;

    fn to_index(&self) -> (r: usize)
        ensures
            r as nat == self.key_nat(),
    ;

    fn from_index(i: usize) -> (r: Self)
        requires
            i <= u32::MAX,
        ensures
            r.key_nat() == i as nat,
    ;

    proof fn lemma_key_injective(a: Self, b: Self)
        requires
            a.key_nat() == b.key_nat(),
        ensures
            a == b,
    ;

    proof fn lemma_key_bound(a: Self)
        ensures
            a.key_nat() <= u32::MAX,
    ;
}

/// The slots of a map after `v` is stored under key `k`.
pub open spec fn slots_insert<V>(m: Seq<Option<V>>, k: nat, v: V) -> Seq<Option<V>> {
    Seq::new(
        if k < m.len() {
            m.len()
        } else {
            k + 1
        },
        |j: int|
            if j == k {
                Some(v)
            } else if j < m.len() {
                m[j]
            } else {
                None
            },
    )
}

/// A map from small keys to values, stored densely by key and walked in
/// ascending key order.
pub struct IndexMap<K, V> {
    values: Vec<Option<V>>,
    marker: core::marker::PhantomData<K>,
}

impl<K: IndexKey, V> View for IndexMap<K, V> {
    type V = Seq<Option<V>>;

    /// Slot `i` holds `Some(v)` when key `i` maps to `v`, and `None` when the key is absent.
    closed spec fn view(&self) -> Seq<Option<V>> {
        self.values@
    }
}

impl<K: IndexKey, V> IndexMap<K, V> {
    /// Whether the map holds key `k`.
    pub open spec fn has(&self, k: nat) -> bool {
        k < self@.len() && self@[k as int] is Some
    }

    /// The value under key `k` (meaningful when `has(k)`).
    pub open spec fn at(&self, k: nat) -> V {
        self@[k as int]->0
    }

    /// The keys of the map in ascending order.
    pub open spec fn key_seq(&self) -> Seq<nat> {
        Seq::new(self@.len(), |i: int| i as nat).filter(|i: nat| self@[i as int] is Some)
    }

    /// The number of slots; every key is below it.
    pub open spec fn slot_count(&self) -> nat {
        self@.len()
    }

    pub open spec fn well_formed(&self) -> bool {
        self@.len() <= u32::MAX as nat + 1
    }

    pub fn new() -> (m: Self)
        ensures
            m@ == Seq::<Option<V>>::empty(),
            m.well_formed(),
    {
        IndexMap { values: Vec::new(), marker: core::marker::PhantomData }
    }

    pub fn len_slots(&self) -> (r: usize)
        ensures
            r == self@.len(),
    {
        self.values.len()
    }

    pub fn contains_key(&self, k: K) -> (r: bool)
        ensures
            r == self.has(k.key_nat()),
    {
        let i = k.to_index();
        i < self.values.len() && self.values[i].is_some()
    }

    pub fn get(&self, k: K) -> (r: Option<&V>)
        ensures
            self.has(k.key_nat()) ==> r == Some(&self.at(k.key_nat())),
            !self.has(k.key_nat()) ==> r is None,
    {
        let i = k.to_index();
        if i < self.values.len() {
            match &self.values[i] {
                Some(v) => Some(v),
                None => None,
            }
        } else {
            None
        }
    }

    /// Stores `v` under `k`, replacing any earlier value.
    pub fn insert(&mut self, k: K, v: V)
        requires
            old(self).well_formed(),
        ensures
            final(self).well_formed(),
            final(self)@ == slots_insert(old(self)@, k.key_nat(), v),
    {
        proof {
            K::lemma_key_bound(k);
        }
        let i = k.to_index();
        while self.values.len() <= i
            invariant
                i as nat == k.key_nat(),
                i <= u32::MAX,
                old(self)@.len() <= self.values@.len(),
                self.values@.len() <= i + 1 || self.values@.len() == old(self)@.len(),
                forall|j: int| 0 <= j < old(self)@.len() ==> self.values@[j] == old(self)@[j],
                forall|j: int| old(self)@.len() <= j < self.values@.len() ==> self.values@[j] is None,
            decreases i + 1 - self.values.len(),
        {
            self.values.push(None);
        }
        self.values.set(i, Some(v));
        proof {
            assert(self.values@ =~= slots_insert(old(self)@, k.key_nat(), v));
        }
    }


    /// A mutable reference to the value under `k`.
    pub fn get_mut(&mut self, k: K) -> (r: &mut V)
        requires
            old(self).has(k.key_nat()),
        ensures
            *r == old(self).at(k.key_nat()),
            final(self)@ == old(self)@.update(k.key_nat() as int, Some(*final(r))),
    {
        let i = k.to_index();
        let slot = &mut self.values[i];
        match slot {
            Some(v) => v,
            None => vstd::pervasive::unreached(),
        }
    }

    /// Removes the value under `k` and hands it back.
    pub fn remove(&mut self, k: K) -> (r: Option<V>)
        requires
            old(self).well_formed(),
        ensures
            final(self).well_formed(),
            r == if old(self).has(k.key_nat()) {
                Some(old(self).at(k.key_nat()))
            } else {
                None::<V>
            },
            final(self)@ == if k.key_nat() < old(self)@.len() {
                old(self)@.update(k.key_nat() as int, None)
            } else {
                old(self)@
            },
    {
        let i = k.to_index();
        if i < self.values.len() {
            let mut slot: Option<V> = None;
            let ghost before = self.values@;
            std::mem::swap(&mut slot, &mut self.values[i]);
            proof {
                assert(self.values@ =~= before.update(i as int, None));
            }
            slot
        } else {
            None
        }
    }

    /// The keys of the map, in ascending order.
    pub fn keys(&self) -> (r: Vec<K>)
        requires
            self.well_formed(),
        ensures
            r@.map_values(|k: K| k.key_nat()) == self.key_seq(),
    {
        let mut r: Vec<K> = Vec::new();
        let n = self.values.len();
        let ghost all = Seq::new(self@.len(), |i: int| i as nat);
        let ghost pred = |i: nat| self@[i as int] is Some;
        for i in 0..n
            invariant
                n == self@.len(),
                n <= u32::MAX as nat + 1,
                all == Seq::new(self@.len(), |i: int| i as nat),
                pred == (|i: nat| self@[i as int] is Some),
                r@.map_values(|k: K| k.key_nat()) == all.take(i as int).filter(pred),
        {
            proof {
                assert(all.take(i + 1).drop_last() =~= all.take(i as int));
                reveal_with_fuel(Seq::<_>::filter, 1);
            }
            if self.values[i].is_some() {
                let k = K::from_index(i);
                r.push(k);
                proof {
                    assert(r@.map_values(|k: K| k.key_nat()) =~= r@.drop_last().map_values(
                        |k: K| k.key_nat(),
                    ).push(i as nat));
                }
            }
        }
        proof {
            assert(all.take(n as int) =~= all);
        }
        r
    }
}

/// A filter keeps a strictly increasing sequence strictly increasing.
proof fn lemma_filter_increasing(s: Seq<nat>, p: spec_fn(nat) -> bool)
    requires
        forall|i: int, j: int| 0 <= i < j < s.len() ==> s[i] < s[j],
    ensures
        forall|i: int, j: int| 0 <= i < j < s.filter(p).len() ==> s.filter(p)[i] < s.filter(p)[j],
    decreases s.len(),
{
    reveal_with_fuel(Seq::<_>::filter, 1);
    if s.len() > 0 {
        let d = s.drop_last();
        lemma_filter_increasing(d, p);
        let f = d.filter(p);
        assert forall|k: int| 0 <= k < f.len() implies f[k] < s.last() by {
            assert(f.contains(f[k]));
            d.lemma_filter_contains_rev(p, f[k]);
            let m = choose|m: int| 0 <= m < d.len() && d[m] == f[k];
            assert(s[m] == d[m]);
        }
    }
}

/// The keys of a map come in strictly ascending order.
pub proof fn lemma_key_seq_increasing<K: IndexKey, V>(m: IndexMap<K, V>)
    ensures
        forall|i: int, j: int| 0 <= i < j < m.key_seq().len() ==> m.key_seq()[i] < m.key_seq()[j],
{
    lemma_filter_increasing(Seq::new(m@.len(), |i: int| i as nat), |i: nat| m@[i as int] is Some);
}

} // verus!
