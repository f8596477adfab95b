//! The entry API. An entry holds the borrow of its map: `*e.map_ref()` is the
//! map now and `*final(e.map_ref())` the map its owner gets back. The
//! contracts state that final map, and that it stays well formed. A caller
//! that drops an entry (or one that a call handed back) and then uses the map
//! again brings in `group_entry_resolved` with `broadcast use`, which gives
//! that the map is then as the entry left it.

use vstd::prelude::*;

use super::BTree;
use crate::search::SearchResult;
use crate::borrow::DormantMutRef;

verus! {

/// A view into a single entry in a map, which may either be vacant or occupied.
///
/// This `enum` is constructed from the [`entry`](BTree::entry) method on [`BTree`].
pub enum Entry<'a, K, V> {
    /// A vacant entry.
    Vacant(VacantEntry<'a, K, V>),
    /// An occupied entry.
    Occupied(OccupiedEntry<'a, K, V>),
}

/// A view into a vacant entry in a `BTree`: an edge between two key-value
/// pairs (or at an end) where a new pair can go.
/// It is part of the [`Entry`] enum.
pub struct VacantEntry<'a, K, V> {
    /// `None` for a (empty) map without root
    pub(crate) handle: Option<usize>,
    pub(crate) dormant_map: DormantMutRef<'a, BTree<K, V>>,
}

/// A view into an occupied entry in a `BTree`: one key-value pair of it.
/// It is part of the [`Entry`] enum.
pub struct OccupiedEntry<'a, K, V> {
    pub(crate) handle: usize,
    pub(crate) dormant_map: DormantMutRef<'a, BTree<K, V>>,
}

/// The error returned by [`try_insert`](BTree::try_insert) when the key already exists.
///
/// Contains the occupied entry, key, and the value that was not inserted.
#[non_exhaustive]
pub struct OccupiedError<'a, K, V> {
    /// The entry in the map that was already occupied.
    pub entry: OccupiedEntry<'a, K, V>,
    /// The key which was not inserted, because the entry was already occupied.
    pub key: K,
    /// The value which was not inserted, because the entry was already occupied.
    pub value: V,
}

impl<'a, K, V> VacantEntry<'a, K, V> {
    /// An entry that is dropped gives the map back as it is then.
    pub broadcast proof fn lemma_resolved(self)
        ensures
            #[trigger] has_resolved(self) ==> *final(self.map_ref()) == *self.map_ref(),
    {
        self.dormant_map.lemma_resolved();
    }

    /// The borrow of the map that the entry holds: `*self.map_ref()` is the map
    /// now, `*final(self.map_ref())` the map that its owner gets back.
    pub closed spec fn map_ref(self) -> &'a mut BTree<K, V> {
        self.dormant_map.target()
    }

    /// The key-value pairs of the map now.
    pub open spec fn map(self) -> Seq<(K, V)> {
        (*self.map_ref())@
    }

    /// The edge of the entry: a new pair goes in at this position.
    pub closed spec fn index(self) -> int {
        match self.handle {
            Some(i) => i as int,
            None => 0,
        }
    }

    /// The map is well formed, the entry's edge lies within it, and the entry
    /// has no edge exactly when the map has no root.
    pub closed spec fn wf(self) -> bool {
        &&& (*self.map_ref()).wf()
        &&& (self.handle is None <==> !(*self.map_ref()).has_root())
        &&& 0 <= self.index() <= self.map().len()
    }

    /// The entry at edge `handle` of the map that `dormant_map` holds.
    pub(crate) fn new(handle: Option<usize>, dormant_map: DormantMutRef<'a, BTree<K, V>>) -> (e: Self)
        requires
            (*dormant_map.target()).wf(),
            handle is None <==> !(*dormant_map.target()).has_root(),
            handle matches Some(i) ==> i <= (*dormant_map.target())@.len(),
        ensures
            e.wf(),
            e.map_ref() == dormant_map.target(),
            e.index() == match handle {
                Some(i) => i as int,
                None => 0,
            },
    {
        VacantEntry { handle, dormant_map }
    }

    /// The map of a well-formed entry is well formed.
    pub proof fn lemma_map_wf(self)
        requires
            self.wf(),
        ensures
            (*self.map_ref()).wf(),
    {
    }

    /// The edge of a well-formed vacant entry lies within the map.
    pub proof fn lemma_index_in_bounds(self)
        requires
            self.wf(),
        ensures
            0 <= self.index() <= self.map().len(),
    {
    }
}

impl<'a, K, V> OccupiedEntry<'a, K, V> {
    /// An entry that is dropped gives the map back as it is then.
    pub broadcast proof fn lemma_resolved(self)
        ensures
            #[trigger] has_resolved(self) ==> *final(self.map_ref()) == *self.map_ref(),
    {
        self.dormant_map.lemma_resolved();
    }

    /// The borrow of the map that the entry holds: `*self.map_ref()` is the map
    /// now, `*final(self.map_ref())` the map that its owner gets back.
    pub closed spec fn map_ref(self) -> &'a mut BTree<K, V> {
        self.dormant_map.target()
    }

    /// The key-value pairs of the map now.
    pub open spec fn map(self) -> Seq<(K, V)> {
        (*self.map_ref())@
    }

    /// The position of the entry's key-value pair in the map.
    pub closed spec fn index(self) -> int {
        self.handle as int
    }

    /// The key of the entry.
    pub open spec fn spec_key(self) -> K {
        self.map()[self.index()].0
    }

    /// The value of the entry.
    pub open spec fn spec_value(self) -> V {
        self.map()[self.index()].1
    }

    /// The map is well formed and the entry's pair lies within it.
    pub closed spec fn wf(self) -> bool {
        &&& (*self.map_ref()).wf()
        &&& 0 <= self.index() < self.map().len()
    }

    /// The entry at position `handle` of the map that `dormant_map` holds.
    pub(crate) fn new(handle: usize, dormant_map: DormantMutRef<'a, BTree<K, V>>) -> (e: Self)
        requires
            (*dormant_map.target()).wf(),
            handle < (*dormant_map.target())@.len(),
        ensures
            e.wf(),
            e.map_ref() == dormant_map.target(),
            e.index() == handle,
    {
        OccupiedEntry { handle, dormant_map }
    }

    /// The map of a well-formed entry is well formed.
    pub proof fn lemma_map_wf(self)
        requires
            self.wf(),
        ensures
            (*self.map_ref()).wf(),
    {
    }

    /// The pair of a well-formed occupied entry lies within the map.
    pub proof fn lemma_index_in_bounds(self)
        requires
            self.wf(),
        ensures
            0 <= self.index() < self.map().len(),
    {
    }
}

impl<'a, K, V> Entry<'a, K, V> {
    /// The borrow of the map that the entry holds.
    pub open spec fn map_ref(self) -> &'a mut BTree<K, V> {
        match self {
            Entry::Vacant(e) => e.map_ref(),
            Entry::Occupied(e) => e.map_ref(),
        }
    }

    /// The key-value pairs of the map now.
    pub open spec fn map(self) -> Seq<(K, V)> {
        match self {
            Entry::Vacant(e) => e.map(),
            Entry::Occupied(e) => e.map(),
        }
    }

    /// The position of the entry: its pair, or the gap where a new pair goes.
    pub open spec fn index(self) -> int {
        match self {
            Entry::Vacant(e) => e.index(),
            Entry::Occupied(e) => e.index(),
        }
    }

    /// An entry that is dropped gives the map back as it is then.
    pub broadcast proof fn lemma_resolved(self)
        ensures
            #[trigger] has_resolved(self) ==> *final(self.map_ref()) == *self.map_ref(),
    {
        match self {
            Entry::Vacant(e) => e.lemma_resolved(),
            Entry::Occupied(e) => e.lemma_resolved(),
        }
    }

    /// The entry is well formed.
    pub open spec fn wf(self) -> bool {
        match self {
            Entry::Vacant(e) => e.wf(),
            Entry::Occupied(e) => e.wf(),
        }
    }

    /// The map of a well-formed entry is well formed.
    pub proof fn lemma_map_wf(self)
        requires
            self.wf(),
        ensures
            (*self.map_ref()).wf(),
    {
        match self {
            Entry::Vacant(e) => e.lemma_map_wf(),
            Entry::Occupied(e) => e.lemma_map_wf(),
        }
    }

    /// The position of a well-formed entry lies within the map, and names
    /// the same place as its search result.
    pub proof fn lemma_index_in_bounds(self)
        requires
            self.wf(),
        ensures
            0 <= self.index() <= self.map().len(),
            self is Occupied ==> self.index() < self.map().len(),
            self.search_result().index() == self.index(),
    {
        match self {
            Entry::Vacant(e) => {
                e.lemma_index_in_bounds();
                (*e.map_ref()).lemma_len_fits();
            },
            Entry::Occupied(e) => {
                e.lemma_index_in_bounds();
                (*e.map_ref()).lemma_len_fits();
            },
        }
    }

    /// Where the search that made this entry stopped.
    pub open spec fn search_result(self) -> SearchResult {
        match self {
            Entry::Vacant(e) => SearchResult::GoDown(e.index() as usize),
            Entry::Occupied(e) => SearchResult::Found(e.index() as usize),
        }
    }

    /// The pairs of the map after `insert_entry(key, value)` on this entry: an
    /// occupied entry keeps its key and takes `value`; a vacant one gets the
    /// pair `(key, value)` at its edge.
    pub open spec fn inserted(self, key: K, value: V) -> Seq<(K, V)> {
        match self {
            Entry::Occupied(e) => e.map().update(e.index(), (e.spec_key(), value)),
            Entry::Vacant(e) => e.map().insert(e.index(), (key, value)),
        }
    }

    /// What `or_insert(key, val)` on this entry gives: `value` is the value
    /// that the returned reference first holds, `last` the value it holds when
    /// the borrow ends, and `pairs` the pairs of the map then. An occupied
    /// entry hands out its own value; a vacant one inserts `(key, val)`.
    pub open spec fn or_insert_outcome(self, key: K, val: V, value: V, last: V, pairs: Seq<
        (K, V),
    >) -> bool {
        match self {
            Entry::Occupied(e) => {
                &&& value == e.spec_value()
                &&& pairs == e.map().update(e.index(), (e.spec_key(), last))
            },
            Entry::Vacant(e) => {
                &&& value == val
                &&& pairs == e.map().insert(e.index(), (key, last))
            },
        }
    }

    /// What `or_insert_with(default)` on this entry gives, in the terms of
    /// `or_insert_outcome`: a vacant entry inserts a pair that `default` can
    /// return.
    pub open spec fn or_insert_with_outcome<F: FnOnce() -> (K, V)>(
        self,
        default: F,
        value: V,
        last: V,
        pairs: Seq<(K, V)>,
    ) -> bool {
        match self {
            Entry::Occupied(e) => {
                &&& value == e.spec_value()
                &&& pairs == e.map().update(e.index(), (e.spec_key(), last))
            },
            Entry::Vacant(e) => exists|kv: (K, V)|
                {
                    &&& call_ensures(default, (), kv)
                    &&& value == kv.1
                    &&& pairs == e.map().insert(e.index(), (kv.0, last))
                },
        }
    }

    /// Ensures a value is in the entry by inserting the given pair if empty,
    /// and returns a mutable reference to the value in the entry.
    pub fn or_insert(self, key: K, val: V) -> (v: &'a mut V)
        requires
            self.wf(),
            self is Vacant ==> self.map().len() < usize::MAX,
        ensures
            (*final(self.map_ref())).wf(),
            self.or_insert_outcome(key, val, *v, *final(v), (*final(self.map_ref()))@),
            self is Occupied ==> (*final(self.map_ref())).same_shape(*self.map_ref()),
            self is Vacant ==> (*final(self.map_ref())).grown_from(*self.map_ref()),
    {
        match self {
            Entry::Occupied(entry) => entry.into_mut(),
            Entry::Vacant(entry) => entry.insert(key, val),
        }
    }

    /// Ensures a value is in the entry by inserting the pair that the default
    /// function gives if empty, and returns a mutable reference to the value in
    /// the entry.
    pub fn or_insert_with<F: FnOnce() -> (K, V)>(self, default: F) -> (v: &'a mut V)
        requires
            self.wf(),
            self is Vacant ==> self.map().len() < usize::MAX,
            self is Vacant ==> call_requires(default, ()),
        ensures
            (*final(self.map_ref())).wf(),
            self.or_insert_with_outcome(default, *v, *final(v), (*final(self.map_ref()))@),
            self is Occupied ==> (*final(self.map_ref())).same_shape(*self.map_ref()),
            self is Vacant ==> (*final(self.map_ref())).grown_from(*self.map_ref()),
    {
        match self {
            Entry::Occupied(entry) => entry.into_mut(),
            Entry::Vacant(entry) => {
                let (k, v) = default();
                entry.insert(k, v)
            },
        }
    }

    /// Provides in-place mutable access to an occupied entry before any
    /// potential inserts into the map.
    pub fn and_modify<F: FnOnce(&mut K, &mut V)>(self, f: F) -> (res: Self)
        requires
            self.wf(),
            self matches Entry::Occupied(e) ==> forall|k: &mut K, v: &mut V|
                *k == e.spec_key() && *v == e.spec_value() ==> call_requires(f, (k, v)),
        ensures
            res.wf(),
            (*res.map_ref()).wf(),
            match (self, res) {
                (Entry::Occupied(e), Entry::Occupied(e2)) => {
                    &&& e2.index() == e.index()
                    &&& (*e2.map_ref()).same_shape(*e.map_ref())
                    &&& *final(e2.map_ref()) == *final(e.map_ref())
                    &&& exists|k: &mut K, v: &mut V|
                        {
                            &&& *k == e.spec_key()
                            &&& *v == e.spec_value()
                            &&& call_ensures(f, (k, v), ())
                            &&& e2.map() == e.map().update(e.index(), (*final(k), *final(v)))
                        }
                },
                (Entry::Vacant(e), Entry::Vacant(e2)) => e2 == e,
                _ => false,
            },
    {
        match self {
            Entry::Occupied(mut entry) => {
                let map = entry.dormant_map.reborrow();
                let (k, v) = map.kv_mut_at(entry.handle);
                f(k, v);
                Entry::Occupied(entry)
            },
            Entry::Vacant(entry) => Entry::Vacant(entry),
        }
    }

    /// Sets the value of the entry, and returns an `OccupiedEntry`. A vacant
    /// entry takes the given key; an occupied one keeps its own.
    pub fn insert_entry(self, key: K, value: V) -> (o: OccupiedEntry<'a, K, V>)
        requires
            self.wf(),
            self is Vacant ==> self.map().len() < usize::MAX,
        ensures
            o.wf(),
            (*o.map_ref()).wf(),
            o.index() == self.index(),
            *final(o.map_ref()) == *final(self.map_ref()),
            o.map() == self.inserted(key, value),
            self is Occupied ==> (*o.map_ref()).same_shape(*self.map_ref()),
            self is Vacant ==> (*o.map_ref()).grown_from(*self.map_ref()),
    {
        match self {
            Entry::Occupied(mut entry) => {
                entry.insert(value);
                entry
            },
            Entry::Vacant(entry) => entry.insert_entry(key, value),
        }
    }
}

impl<'a, K, V> VacantEntry<'a, K, V> {
    /// Sets the value of the entry with the given key, and returns a mutable
    /// reference to it.
    pub fn insert(self, key: K, value: V) -> (v: &'a mut V)
        requires
            self.wf(),
            self.map().len() < usize::MAX,
        ensures
            *v == value,
            (*final(self.map_ref())).wf(),
            (*final(self.map_ref()))@ == self.map().insert(self.index(), (key, *final(v))),
            (*final(self.map_ref())).grown_from(*self.map_ref()),
    {
        self.insert_entry(key, value).into_mut()
    }

    /// Sets the value of the entry with the given key, and returns an
    /// `OccupiedEntry`.
    pub fn insert_entry(self, key: K, value: V) -> (o: OccupiedEntry<'a, K, V>)
        requires
            self.wf(),
            self.map().len() < usize::MAX,
        ensures
            o.wf(),
            o.index() == self.index(),
            (*o.map_ref()).wf(),
            o.map() == self.map().insert(self.index(), (key, value)),
            (*o.map_ref()).grown_from(*self.map_ref()),
            *final(o.map_ref()) == *final(self.map_ref()),
    {
        let mut dormant_map = self.dormant_map;
        let handle = match self.handle {
            None => {
                // There is no tree yet: give the map an empty root leaf first.
                let map = dormant_map.reborrow();
                map.new_root_leaf();
                map.insert_recursing(0, (key, value));
                0
            },
            Some(handle) => {
                let map = dormant_map.reborrow();
                map.insert_recursing(handle, (key, value));
                handle
            },
        };
        let map = dormant_map.reborrow();
        map.length = map.length + 1;
        OccupiedEntry { handle, dormant_map }
    }
}

impl<'a, K, V> OccupiedEntry<'a, K, V> {
    /// Gets a reference to the key in the entry.
    #[must_use]
    pub fn key(&self) -> (k: &K)
        requires
            self.wf(),
        ensures
            *k == self.spec_key(),
    {
        self.dormant_map.reborrow_shared().key_at(self.handle)
    }

    /// Converts the entry into a reference to its key; the map stays as it is.
    pub fn into_key(self) -> (k: &'a K)
        requires
            self.wf(),
        ensures
            *k == self.spec_key(),
            *final(self.map_ref()) == *self.map_ref(),
    {
        let map = self.dormant_map.awaken();
        let map: &'a BTree<K, V> = map;
        map.key_at(self.handle)
    }

    /// Takes ownership of the key and value from the map.
    pub fn remove_entry(self) -> (kv: (K, V))
        requires
            self.wf(),
        ensures
            kv == (self.spec_key(), self.spec_value()),
            (*final(self.map_ref())).wf(),
            (*final(self.map_ref()))@ == self.map().remove(self.index()),
            (*final(self.map_ref())).shrunk_from(*self.map_ref()),
    {
        self.remove_kv()
    }

    /// Gets a reference to the value in the entry.
    #[must_use]
    pub fn get(&self) -> (v: &V)
        requires
            self.wf(),
        ensures
            *v == self.spec_value(),
    {
        self.dormant_map.reborrow_shared().value_at(self.handle)
    }

    /// Gets a mutable reference to the value in the entry; the entry can be
    /// used again afterwards.
    pub fn get_mut(&mut self) -> (v: &mut V)
        requires
            old(self).wf(),
        ensures
            *v == old(self).spec_value(),
            final(self).wf(),
            final(self).index() == old(self).index(),
            final(self).map() == old(self).map().update(
                old(self).index(),
                (old(self).spec_key(), *final(v)),
            ),
            *final(final(self).map_ref()) == *final(old(self).map_ref()),
            (*final(self).map_ref()).wf(),
            (*final(self).map_ref()).same_shape(*old(self).map_ref()),
    {
        let map = self.dormant_map.reborrow();
        map.value_mut_at(self.handle)
    }

    /// Converts the entry into a mutable reference to its value.
    #[must_use]
    pub fn into_mut(self) -> (v: &'a mut V)
        requires
            self.wf(),
        ensures
            *v == self.spec_value(),
            (*final(self.map_ref())).wf(),
            (*final(self.map_ref()))@ == self.map().update(
                self.index(),
                (self.spec_key(), *final(v)),
            ),
            (*final(self.map_ref())).same_shape(*self.map_ref()),
    {
        let map = self.dormant_map.awaken();
        map.value_mut_at(self.handle)
    }

    /// Sets the value of the entry with the `OccupiedEntry`'s key, and returns
    /// the entry's old value.
    pub fn insert(&mut self, value: V) -> (old_value: V)
        requires
            old(self).wf(),
        ensures
            old_value == old(self).spec_value(),
            final(self).wf(),
            final(self).index() == old(self).index(),
            final(self).map() == old(self).map().update(
                old(self).index(),
                (old(self).spec_key(), value),
            ),
            *final(final(self).map_ref()) == *final(old(self).map_ref()),
            (*final(self).map_ref()).wf(),
            (*final(self).map_ref()).same_shape(*old(self).map_ref()),
    {
        let mut value = value;
        core::mem::swap(self.get_mut(), &mut value);
        value
    }

    /// Takes the value of the entry out of the map, and returns it.
    pub fn remove(self) -> (v: V)
        requires
            self.wf(),
        ensures
            v == self.spec_value(),
            (*final(self.map_ref())).wf(),
            (*final(self.map_ref()))@ == self.map().remove(self.index()),
            (*final(self.map_ref())).shrunk_from(*self.map_ref()),
    {
        self.remove_kv().1
    }

    /// Body of `remove_entry`: takes the pair out of the tree, and drops an
    /// internal root that this left without pairs.
    pub(crate) fn remove_kv(self) -> (kv: (K, V))
        requires
            self.wf(),
        ensures
            kv == (self.spec_key(), self.spec_value()),
            (*final(self.map_ref())).wf(),
            (*final(self.map_ref()))@ == self.map().remove(self.index()),
            (*final(self.map_ref())).shrunk_from(*self.map_ref()),
    {
        let map = self.dormant_map.awaken();
        let (old_kv, emptied_internal_root) = map.remove_kv_tracking(self.handle);
        map.length = map.length - 1;
        if emptied_internal_root {
            map.pop_internal_level();
        }
        old_kv
    }
}

/// The facts that dropped entries give their map back as it is then; a
/// caller that drops an entry and then uses the map brings them in with
/// `broadcast use`.
pub broadcast group group_entry_resolved {
    VacantEntry::lemma_resolved,
    OccupiedEntry::lemma_resolved,
    Entry::lemma_resolved,
}

} // verus!
