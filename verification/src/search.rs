//! Searching the tree with an ordering function that places a probe against
//! the keys it meets on the way down.

use vstd::prelude::*;
use std::cmp::Ordering;

use crate::node::{after, below, ix, lemma_decompose, upto, Node};

verus! {

/// The ordering function places the probe after `k`.
pub open spec fn goes_right<K, F: Fn(&K) -> Ordering>(compare: F, k: K) -> bool {
    call_ensures(compare, (&k,), Ordering::Greater)
}

/// The ordering function places the probe at `k`.
pub open spec fn matches_key<K, F: Fn(&K) -> Ordering>(compare: F, k: K) -> bool {
    call_ensures(compare, (&k,), Ordering::Equal)
}

/// The ordering function places the probe before `k`.
pub open spec fn goes_left<K, F: Fn(&K) -> Ordering>(compare: F, k: K) -> bool {
    call_ensures(compare, (&k,), Ordering::Less)
}

/// The ordering function can be called on every key.
pub open spec fn accepts_all_keys<K, F: Fn(&K) -> Ordering>(compare: F) -> bool {
    forall|k: &K| call_requires(compare, (k,))
}

/// Where a search with an ordering function ends, as a position in tree
/// order: at a key that matches, or at the gap where the probe would go.
pub enum SearchResult {
    Found(usize),
    GoDown(usize),
}

impl SearchResult {
    /// The position where the search stopped.
    pub open spec fn index(self) -> int {
        match self {
            SearchResult::Found(i) => ix(i),
            SearchResult::GoDown(i) => ix(i),
        }
    }
}

/// What the ordering function answered, on the way down, about the keys next
/// to where a search over `s` stopped: a search that found a key saw it match;
/// one that stopped at a gap saw the key before the gap send the probe right
/// and the key after it send the probe left.
pub open spec fn search_outcome<K, V, F: Fn(&K) -> Ordering>(
    s: Seq<(K, V)>,
    compare: F,
    res: SearchResult,
) -> bool {
    &&& 0 <= res.index() <= s.len()
    &&& match res {
        SearchResult::Found(_) => res.index() < s.len() && matches_key(compare, s[res.index()].0),
        SearchResult::GoDown(_) => {
            &&& res.index() > 0 ==> goes_right(compare, s[res.index() - 1].0)
            &&& res.index() < s.len() ==> goes_left(compare, s[res.index()].0)
        },
    }
}

impl<K, V> Node<K, V> {
    /// Where the stretch of child `j` (of pair `j`, in a leaf) starts.
    pub open spec fn start(self, h: nat, j: int) -> int {
        if h == 0 {
            j
        } else {
            self.pos(h, j)
        }
    }

    /// Searches the subtree for the probe that `compare` places.
    pub fn search_tree<F: Fn(&K) -> Ordering>(&self, compare: &F, Ghost(h): Ghost<nat>) -> (res:
        SearchResult)
        requires
            self.wf(h),
            accepts_all_keys(*compare),
        ensures
            search_outcome(self.contents(h), *compare, res),
        decreases h, 1nat,
    {
        let n = self.kvs.len();
        let mut j: usize = 0;
        let mut a: usize = 0;
        proof {
            assert(upto(self.kvs@, self.parts(h), 0).len() == 0);
        }
        while j < n
            invariant
                self.wf(h),
                accepts_all_keys(*compare),
                n == self.kvs@.len(),
                j <= n,
                a == self.start(h, ix(j)),
                j > 0 ==> goes_right(*compare, self.kvs@[ix(j) - 1].0),
            decreases n - j,
        {
            let leaf = self.edges.len() == 0;
            proof {
                if !leaf {
                    self.lemma_around(h, ix(j));
                    lemma_decompose(self.kvs@, self.parts(h), ix(j) + 1);
                }
            }
            let cl = if leaf {
                0
            } else {
                self.edges[j].len
            };
            match compare(&self.kvs[j].0) {
                Ordering::Greater => {
                    a = a + cl + 1;
                    j = j + 1;
                },
                Ordering::Equal => {
                    proof {
                        self.lemma_kv_place(h, ix(j));
                    }
                    return SearchResult::Found(a + cl);
                },
                Ordering::Less => {
                    return self.descend(compare, j, a, Ghost(h));
                },
            }
        }
        self.descend(compare, j, a, Ghost(h))
    }

    /// Finishes a search that stopped at edge `j` of this node.
    fn descend<F: Fn(&K) -> Ordering>(
        &self,
        compare: &F,
        j: usize,
        a: usize,
        Ghost(h): Ghost<nat>,
    ) -> (res: SearchResult)
        requires
            self.wf(h),
            accepts_all_keys(*compare),
            j <= self.kvs@.len(),
            a == self.start(h, ix(j)),
            j > 0 ==> goes_right(*compare, self.kvs@[ix(j) - 1].0),
            j < self.kvs@.len() ==> goes_left(*compare, self.kvs@[ix(j)].0),
        ensures
            search_outcome(self.contents(h), *compare, res),
        decreases h, 0nat,
    {
        if self.edges.len() == 0 {
            SearchResult::GoDown(a)
        } else {
            proof {
                self.lemma_around(h, ix(j));
                self.lemma_edge_neighbours(h, ix(j));
            }
            let r = self.edges[j].search_tree(compare, Ghost(below(h)));
            match r {
                SearchResult::Found(x) => SearchResult::Found(a + x),
                SearchResult::GoDown(x) => SearchResult::GoDown(a + x),
            }
        }
    }
}

} // verus!
