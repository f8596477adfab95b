use vstd::prelude::*;
use std::cmp::Ordering;

use crate::borrow::DormantMutRef;
use crate::node::{from, Node, CAPACITY, MIN_LEN};
use crate::search::{accepts_all_keys, search_outcome, SearchResult};

pub mod entry;
use self::entry::{Entry, OccupiedEntry, OccupiedError, VacantEntry};

verus! {

/// An ordered map kept as a B-tree. Its key-value pairs are kept in the order
/// that the ordering functions given at each access describe; the map itself
/// never compares keys.
pub struct BTree<K, V> {
    /// `None` for a map that never had a root node.
    pub(crate) root: Option<Node<K, V>>,
    /// The height of the root: its leaves lie that many levels below it.
    pub(crate) height: Ghost<nat>,
    pub(crate) length: usize,
}

impl<K, V> View for BTree<K, V> {
    type V = Seq<(K, V)>;

    /// The key-value pairs of the map, in tree order.
    closed spec fn view(&self) -> Seq<(K, V)> {
        match self.root {
            Some(node) => node.contents(self.height@),
            None => Seq::empty(),
        }
    }
}

impl<K, V> BTree<K, V> {
    /// The root, if any, is a well-formed tree of the map's height, every
    /// node below it holds at least `MIN_LEN` pairs, and an internal root
    /// holds at least one.
    pub closed spec fn tree_wf(self) -> bool {
        &&& self.root is None ==> self.height@ == 0
        &&& self.root matches Some(node) ==> {
            &&& node.wf(self.height@)
            &&& node.filled(self.height@)
            &&& self.height@ > 0 ==> node.kvs@.len() >= 1
        }
    }

    /// The tree is well formed and the stored length counts its pairs.
    pub closed spec fn wf(self) -> bool {
        &&& self.tree_wf()
        &&& self.length == self@.len()
    }

    /// A well-formed map never holds more pairs than a `usize` counts.
    pub proof fn lemma_len_fits(self)
        requires
            self.wf(),
        ensures
            self@.len() <= usize::MAX,
    {
    }

    /// The map has a root node (possibly an empty one).
    pub closed spec fn has_root(self) -> bool {
        self.root is Some
    }

    /// The height of the tree: how many levels its leaves lie below the root
    /// (0 for a map without a root).
    pub closed spec fn height(self) -> nat {
        self.height@
    }

    /// The number of pairs that the root node itself holds (0 without a root).
    pub closed spec fn root_len(self) -> nat {
        match self.root {
            Some(node) => node.kvs@.len(),
            None => 0,
        }
    }

    /// What a well-formed map shows of its shape: the root holds at most
    /// `CAPACITY` pairs, an internal root at least one, and a map without a
    /// root is empty and of height 0.
    pub proof fn lemma_shape(self)
        requires
            self.wf(),
        ensures
            self.root_len() <= CAPACITY,
            self.height() > 0 ==> self.root_len() >= 1,
            !self.has_root() ==> self.height() == 0 && self@.len() == 0,
    {
    }

    /// `self` has the shape that one insertion into `before` leaves: a map
    /// without a root gets a root leaf with one pair; otherwise the height
    /// stays and the root keeps or gains pairs, or the root, full before,
    /// split and a new root with one pair grew above it.
    pub open spec fn grown_from(self, before: Self) -> bool {
        if !before.has_root() {
            self.has_root() && self.height() == 0 && self.root_len() == 1
        } else {
            ||| self.has_root() && self.height() == before.height() && self.root_len()
                >= before.root_len()
            ||| self.has_root() && self.height() == before.height() + 1 && before.root_len()
                == CAPACITY && self.root_len() == 1
        }
    }

    /// `self` has the shape that one removal from `before` leaves: the height
    /// stays and the root loses at most one pair, or an internal root that
    /// held a single pair was emptied and dropped, lowering the height by one.
    pub open spec fn shrunk_from(self, before: Self) -> bool {
        &&& self.has_root()
        &&& {
            ||| self.height() == before.height() && self.root_len() + 1 >= before.root_len()
            ||| self.height() + 1 == before.height() && before.root_len() == 1
        }
    }

    /// `self` has the shape of `before`: the same height and root size.
    pub open spec fn same_shape(self, before: Self) -> bool {
        &&& self.has_root() == before.has_root()
        &&& self.height() == before.height()
        &&& self.root_len() == before.root_len()
    }

    /// The key at position `i`.
    pub(crate) fn key_at(&self, i: usize) -> (k: &K)
        requires
            self.wf(),
            i < self@.len(),
        ensures
            *k == self@[i as int].0,
    {
        let root = self.root.as_ref().unwrap();
        &root.kv_ref(i, self.height).0
    }

    /// The value at position `i`.
    pub(crate) fn value_at(&self, i: usize) -> (v: &V)
        requires
            self.wf(),
            i < self@.len(),
        ensures
            *v == self@[i as int].1,
    {
        let root = self.root.as_ref().unwrap();
        &root.kv_ref(i, self.height).1
    }

    /// Mutable borrows of the key and the value at position `i`.
    pub(crate) fn kv_mut_at(&mut self, i: usize) -> (kv: (&mut K, &mut V))
        requires
            old(self).wf(),
            i < old(self)@.len(),
        ensures
            *kv.0 == old(self)@[i as int].0,
            *kv.1 == old(self)@[i as int].1,
            final(self).wf(),
            final(self).has_root(),
            final(self).same_shape(*old(self)),
            final(self)@ == old(self)@.update(i as int, (*final(kv.0), *final(kv.1))),
    {
        let height = self.height;
        let root = self.root.as_mut().unwrap();
        root.kv_mut(i, height)
    }

    /// A mutable borrow of the value at position `i`.
    pub(crate) fn value_mut_at(&mut self, i: usize) -> (v: &mut V)
        requires
            old(self).wf(),
            i < old(self)@.len(),
        ensures
            *v == old(self)@[i as int].1,
            final(self).wf(),
            final(self).has_root(),
            final(self).same_shape(*old(self)),
            final(self)@ == old(self)@.update(i as int, (old(self)@[i as int].0, *final(v))),
    {
        let (_k, v) = self.kv_mut_at(i);
        v
    }

    /// Gives the map a root: an empty leaf.
    pub(crate) fn new_root_leaf(&mut self)
        requires
            !old(self).has_root(),
            old(self).wf(),
        ensures
            final(self).has_root(),
            final(self).wf(),
            final(self)@ == old(self)@,
            final(self).length == old(self).length,
            final(self).height() == 0,
            final(self).root_len() == 0,
    {
        self.height = Ghost(0);
        self.root = Some(Node::new_leaf());
    }

    /// Inserts `kv` at place `i` of the tree, growing a new root level when
    /// the root splits. The stored length is left for the caller to update.
    pub(crate) fn insert_recursing(&mut self, i: usize, kv: (K, V))
        requires
            old(self).wf(),
            old(self).has_root(),
            i <= old(self)@.len(),
            old(self)@.len() < usize::MAX,
        ensures
            final(self).tree_wf(),
            final(self).has_root(),
            final(self).length == old(self).length,
            final(self)@ == old(self)@.insert(i as int, kv),
            final(self).grown_from(*old(self)),
    {
        let height = self.height;
        let root = self.root.as_mut().unwrap();
        match root.insert_recursing(i, kv, height) {
            None => {},
            Some((mid, right)) => {
                proof {
                    let root = self.root.unwrap();
                    assert(root.contents(height@) + seq![mid] + right.contents(height@) == old(
                        self,
                    )@.insert(i as int, kv));
                    assert(root.len + 1 + right.len == old(self)@.len() + 1);
                }
                self.push_internal_level(mid, right);
            },
        }
    }

    /// Puts a new root above the old one, with `mid` as its one pair and
    /// `right` as the child after it.
    fn push_internal_level(&mut self, mid: (K, V), right: Node<K, V>)
        requires
            old(self).root matches Some(node) && node.wf(old(self).height@) && node.filled(
                old(self).height@,
            ) && node.kvs@.len() >= MIN_LEN,
            right.wf(old(self).height@),
            right.filled(old(self).height@),
            right.kvs@.len() >= MIN_LEN,
            old(self).root.unwrap().len + 1 + right.len <= usize::MAX,
        ensures
            final(self).tree_wf(),
            final(self).has_root(),
            final(self).length == old(self).length,
            final(self)@ == old(self)@ + seq![mid] + right.contents(old(self).height@),
            final(self).height() == old(self).height() + 1,
            final(self).root_len() == 1,
    {
        let ghost h = self.height@;
        let old_root = self.root.take().unwrap();
        let len = old_root.len + 1 + right.len;
        let mut kvs = Vec::new();
        kvs.push(mid);
        let mut edges = Vec::new();
        edges.push(old_root);
        edges.push(right);
        let new_root = Node { kvs, edges, len };
        proof {
            let h1 = h + 1;
            assert(new_root.parts(h1) =~= seq![old_root.contents(h), right.contents(h)]);
            assert(from(new_root.kvs@, new_root.parts(h1), 1) == right.contents(h));
            assert(from(new_root.kvs@, new_root.parts(h1), 0) == old_root.contents(h) + seq![mid]
                + from(new_root.kvs@, new_root.parts(h1), 1));
            assert(new_root.contents(h1) =~= old_root.contents(h) + seq![mid] + right.contents(h));
            assert(new_root.wf(h1));
            assert(new_root.filled(h1));
        }
        self.root = Some(new_root);
        self.height = Ghost(h + 1);
    }

    /// Removes the pair at position `i` from the tree, and says whether that
    /// left the root an internal node without pairs. The stored length is left
    /// for the caller to update.
    pub(crate) fn remove_kv_tracking(&mut self, i: usize) -> (r: ((K, V), bool))
        requires
            old(self).wf(),
            i < old(self)@.len(),
        ensures
            r.0 == old(self)@[i as int],
            !r.1 ==> final(self).tree_wf(),
            final(self).root matches Some(node) && node.wf(final(self).height@) && node.filled(
                final(self).height@,
            ),
            final(self).has_root(),
            final(self).length == old(self).length,
            final(self)@ == old(self)@.remove(i as int),
            r.1 == (final(self).height@ > 0 && final(self).root.unwrap().kvs@.len() == 0),
            final(self).height() == old(self).height(),
            final(self).root_len() + 1 >= old(self).root_len(),
    {
        let height = self.height;
        let root = self.root.as_mut().unwrap();
        let kv = root.remove_kv(i, height);
        let emptied_internal_root = root.edges.len() > 0 && root.kvs.len() == 0;
        (kv, emptied_internal_root)
    }

    /// Replaces an internal root that has no pairs by its one child.
    pub(crate) fn pop_internal_level(&mut self)
        requires
            old(self).root matches Some(node) && node.wf(old(self).height@) && node.filled(
                old(self).height@,
            ),
            old(self).height@ > 0,
            old(self).root.unwrap().kvs@.len() == 0,
        ensures
            final(self).tree_wf(),
            final(self).has_root(),
            final(self).length == old(self).length,
            final(self)@ == old(self)@,
            final(self).height() + 1 == old(self).height(),
    {
        let ghost h = self.height@;
        let mut old_root = self.root.take().unwrap();
        proof {
            old_root.lemma_around(h, 0);
            assert(old_root.edges@[0].filled((h - 1) as nat));
        }
        let child = old_root.edges.pop().unwrap();
        self.root = Some(child);
        self.height = Ghost((h - 1) as nat);
    }
}

impl<K, V> BTree<K, V> {
    /// Makes a new, empty map without a root node.
    pub fn new() -> (map: Self)
        ensures
            map.wf(),
            map@ == Seq::<(K, V)>::empty(),
            !map.has_root(),
    {
        BTree { root: None, height: Ghost(0), length: 0 }
    }

    /// The count of pairs that the map keeps alongside them.
    pub closed spec fn spec_len(self) -> nat {
        self.length as nat
    }

    /// In a well-formed map the kept count is the number of pairs.
    pub proof fn lemma_len_is_view_len(self)
        requires
            self.wf(),
        ensures
            self.spec_len() == self@.len(),
    {
    }

    /// The number of key-value pairs in the map.
    pub fn len(&self) -> (n: usize)
        requires
            self.wf(),
        ensures
            n == self@.len(),
            n == self.spec_len(),
    {
        self.length
    }

    /// Whether the map holds no key-value pair.
    pub fn is_empty(&self) -> (b: bool)
        requires
            self.wf(),
        ensures
            b == (self@.len() == 0),
    {
        self.length == 0
    }

    /// Looks for the probe down the tree.
    fn search<F: Fn(&K) -> Ordering>(&self, compare: F) -> (res: SearchResult)
        requires
            self.wf(),
            accepts_all_keys(compare),
        ensures
            search_outcome(self@, compare, res),
    {
        match &self.root {
            None => SearchResult::GoDown(0),
            Some(root) => root.search_tree(&compare, self.height),
        }
    }

    /// Finds the place of the probe that `compare` describes: the key that
    /// it matches, or the edge where such a key would go.
    pub fn entry<'a, F: Fn(&K) -> Ordering>(&'a mut self, compare: F) -> (e: Entry<'a, K, V>)
        requires
            old(self).wf(),
            accepts_all_keys(compare),
        ensures
            e.wf(),
            *e.map_ref() == *old(self),
            (*e.map_ref()).wf(),
            e.map() == old(self)@,
            0 <= e.index() <= old(self)@.len(),
            *final(e.map_ref()) == *final(self),
            search_outcome(old(self)@, compare, e.search_result()),
    {
        let res = self.search(compare);
        let rooted = self.root.is_some();
        let dormant_map = DormantMutRef::new(self);
        match res {
            SearchResult::Found(i) => Entry::Occupied(OccupiedEntry::new(i, dormant_map)),
            SearchResult::GoDown(i) => {
                let handle = if rooted {
                    Some(i)
                } else {
                    None
                };
                Entry::Vacant(VacantEntry::new(handle, dormant_map))
            },
        }
    }

    /// The value of the key that `compare` matches, if the search finds one.
    pub fn get<F: Fn(&K) -> Ordering>(&self, compare: F) -> (r: Option<&V>)
        requires
            self.wf(),
            accepts_all_keys(compare),
        ensures
            exists|res: SearchResult|
                {
                    &&& #[trigger] search_outcome(self@, compare, res)
                    &&& match res {
                        SearchResult::Found(_) => r is Some && *r.unwrap() == self@[res.index()].1,
                        SearchResult::GoDown(_) => r is None,
                    }
                },
    {
        match self.search(compare) {
            SearchResult::Found(i) => Some(self.value_at(i)),
            SearchResult::GoDown(_) => None,
        }
    }

    /// Inserts the pair where `compare` places it, unless a key there already
    /// matches: then the map is left as it is, and the occupied entry comes
    /// back with the pair that was not inserted.
    pub fn try_insert<'a, F: Fn(&K) -> Ordering>(&'a mut self, compare: F, key: K, value: V) -> (r:
        Result<&'a mut V, OccupiedError<'a, K, V>>)
        requires
            old(self).wf(),
            accepts_all_keys(compare),
            old(self)@.len() < usize::MAX,
        ensures
            match r {
                Ok(v) => {
                    &&& *v == value
                    &&& (*final(self)).wf()
                    &&& (*final(self)).grown_from(*old(self))
                    &&& exists|res: SearchResult|
                        {
                            &&& res is GoDown
                            &&& #[trigger] search_outcome(old(self)@, compare, res)
                            &&& (*final(self))@ == old(self)@.insert(res.index(), (key, *final(v)))
                        }
                },
                Err(err) => {
                    &&& err.key == key
                    &&& err.value == value
                    &&& err.entry.wf()
                    &&& *err.entry.map_ref() == *old(self)
                    &&& (*err.entry.map_ref()).wf()
                    &&& err.entry.map() == old(self)@
                    &&& *final(err.entry.map_ref()) == *final(self)
                    &&& search_outcome(old(self)@, compare, Entry::Occupied(err.entry).search_result())
                },
            },
    {
        let e = self.entry(compare);
        let ghost res = e.search_result();
        match e {
            Entry::Occupied(entry) => Err(OccupiedError { entry, key, value }),
            Entry::Vacant(entry) => {
                assert(res.index() == entry.index());
                Ok(entry.insert(key, value))
            },
        }
    }
}

} // verus!
