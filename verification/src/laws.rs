//! What holds of the map across calls: how searches with a consistent
//! ordering behave, and what one operation undoes of another.

use vstd::prelude::*;
use std::cmp::Ordering;

use crate::map::entry::{Entry, OccupiedEntry, VacantEntry};
use crate::map::BTree;
use crate::search::{search_outcome, SearchResult};

verus! {

/// `lt` is a strict total order on keys.
pub open spec fn strict_total_order<K>(lt: spec_fn(K, K) -> bool) -> bool {
    &&& forall|a: K| !(#[trigger] lt(a, a))
    &&& forall|a: K, b: K, c: K| #[trigger] lt(a, b) && #[trigger] lt(b, c) ==> lt(a, c)
    &&& forall|a: K, b: K| a != b ==> #[trigger] lt(a, b) || #[trigger] lt(b, a)
}

/// The keys of `s` stand in strictly increasing order under `lt`.
pub open spec fn sorted_by<K, V>(s: Seq<(K, V)>, lt: spec_fn(K, K) -> bool) -> bool {
    forall|i: int, j: int| 0 <= i < j < s.len() ==> #[trigger] lt(s[i].0, s[j].0)
}

/// The answer that places `probe` against `k` as `lt` does.
pub open spec fn place<K>(probe: K, k: K, lt: spec_fn(K, K) -> bool) -> Ordering {
    if lt(k, probe) {
        Ordering::Greater
    } else if lt(probe, k) {
        Ordering::Less
    } else {
        Ordering::Equal
    }
}

/// Every answer that `compare` can give places `probe` as `lt` does.
pub open spec fn agrees_with<K, F: Fn(&K) -> Ordering>(
    compare: F,
    probe: K,
    lt: spec_fn(K, K) -> bool,
) -> bool {
    forall|k: K, o: Ordering| #[trigger] call_ensures(compare, (&k,), o) ==> o == place(probe, k, lt)
}

/// `probe` is one of the keys of `s`.
pub open spec fn has_key<K, V>(s: Seq<(K, V)>, probe: K) -> bool {
    exists|i: int| 0 <= i < s.len() && #[trigger] s[i].0 == probe
}

/// On a map whose keys are sorted by a strict total order, a search with an
/// ordering function that agrees with that order finds the probe exactly
/// when it is one of the keys, and stops where every key before it is smaller
/// than the probe and every key from there on (past the match) is larger.
pub proof fn law_search_finds_key<K, V, F: Fn(&K) -> Ordering>(
    s: Seq<(K, V)>,
    compare: F,
    probe: K,
    lt: spec_fn(K, K) -> bool,
    res: SearchResult,
)
    requires
        strict_total_order(lt),
        sorted_by(s, lt),
        agrees_with(compare, probe, lt),
        search_outcome(s, compare, res),
    ensures
        (res is Found) == has_key(s, probe),
        res is Found ==> s[res.index()].0 == probe,
        forall|j: int| 0 <= j < res.index() ==> lt(#[trigger] s[j].0, probe),
        forall|j: int|
            res.index() <= j < s.len() && !(res is Found && j == res.index()) ==> lt(
                probe,
                #[trigger] s[j].0,
            ),
{
    let n = res.index();
    if res is Found {
        assert(call_ensures(compare, (&s[n].0,), Ordering::Equal));
        assert(s[n].0 == probe);
    } else {
        if n > 0 {
            assert(call_ensures(compare, (&s[n - 1].0,), Ordering::Greater));
            assert(lt(s[n - 1].0, probe));
        }
        if n < s.len() {
            assert(call_ensures(compare, (&s[n].0,), Ordering::Less));
            assert(lt(probe, s[n].0));
        }
    }
    assert forall|j: int| 0 <= j < n implies lt(#[trigger] s[j].0, probe) by {
        if res is Found {
            assert(lt(s[j].0, s[n].0));
        } else if j < n - 1 {
            assert(lt(s[j].0, s[n - 1].0));
        }
    }
    assert forall|j: int|
        n <= j < s.len() && !(res is Found && j == n) implies lt(probe, #[trigger] s[j].0) by {
        if j != n {
            assert(lt(s[n].0, s[j].0));
        }
    }
    if has_key(s, probe) {
        let i = choose|i: int| 0 <= i < s.len() && #[trigger] s[i].0 == probe;
        if i < n {
            assert(lt(s[i].0, probe));
        } else if !(res is Found && i == n) {
            assert(lt(probe, s[i].0));
        }
    }
}

/// Inserting the probe where such a search stopped without a match keeps
/// the keys sorted: the map stays ordered by every ordering that all
/// accesses agree with.
pub proof fn law_insert_keeps_order<K, V, F: Fn(&K) -> Ordering>(
    s: Seq<(K, V)>,
    compare: F,
    probe: K,
    value: V,
    lt: spec_fn(K, K) -> bool,
    res: SearchResult,
)
    requires
        strict_total_order(lt),
        sorted_by(s, lt),
        agrees_with(compare, probe, lt),
        search_outcome(s, compare, res),
        res is GoDown,
    ensures
        sorted_by(s.insert(res.index(), (probe, value)), lt),
        s.insert(res.index(), (probe, value))[res.index()] == (probe, value),
{
    law_search_finds_key(s, compare, probe, lt, res);
    let n = res.index();
    let t = s.insert(n, (probe, value));
    assert forall|i: int, j: int| 0 <= i < j < t.len() implies #[trigger] lt(t[i].0, t[j].0) by {
        if i < n && j == n {
            assert(lt(s[i].0, probe));
        } else if i == n {
            assert(lt(probe, s[j - 1].0));
        } else if j < n {
            assert(lt(s[i].0, s[j].0));
        } else if i < n {
            assert(lt(s[i].0, s[j - 1].0));
        } else {
            assert(lt(s[i - 1].0, s[j - 1].0));
        }
    }
}

/// Reading back a key of a sorted map, with an ordering function that agrees
/// with the order, finds the very pair that holds it: after a write of
/// `(probe, value)` at `i`, a search (as `get` and `entry` make) stops at `i`
/// and sees `value`.
pub proof fn law_read_after_write<K, V, F: Fn(&K) -> Ordering>(
    t: Seq<(K, V)>,
    compare: F,
    probe: K,
    lt: spec_fn(K, K) -> bool,
    i: int,
    res: SearchResult,
)
    requires
        strict_total_order(lt),
        sorted_by(t, lt),
        agrees_with(compare, probe, lt),
        0 <= i < t.len(),
        t[i].0 == probe,
        search_outcome(t, compare, res),
    ensures
        res is Found,
        res.index() == i,
        t[res.index()] == t[i],
{
    assert(has_key(t, probe));
    law_search_finds_key(t, compare, probe, lt, res);
    let n = res.index();
    if n < i {
        assert(lt(t[n].0, t[i].0));
    } else if n > i {
        assert(lt(t[i].0, t[n].0));
    }
}

/// Inserting a pair at a position where every key before it is smaller and
/// every key from there on is larger keeps the keys sorted: a vacant entry
/// that sits between such keys gives a sorted map.
pub proof fn law_insert_between_keeps_order<K, V>(
    s: Seq<(K, V)>,
    lt: spec_fn(K, K) -> bool,
    i: int,
    key: K,
    value: V,
)
    requires
        strict_total_order(lt),
        sorted_by(s, lt),
        0 <= i <= s.len(),
        forall|j: int| 0 <= j < i ==> lt(#[trigger] s[j].0, key),
        forall|j: int| i <= j < s.len() ==> lt(key, #[trigger] s[j].0),
    ensures
        sorted_by(s.insert(i, (key, value)), lt),
{
    let t = s.insert(i, (key, value));
    assert forall|a: int, b: int| 0 <= a < b < t.len() implies #[trigger] lt(t[a].0, t[b].0) by {
        if a < i && b == i {
            assert(lt(s[a].0, key));
        } else if a == i {
            assert(lt(key, s[b - 1].0));
        } else if b < i {
            assert(lt(s[a].0, s[b].0));
        } else if a < i {
            assert(lt(s[a].0, s[b - 1].0));
        } else {
            assert(lt(s[a - 1].0, s[b - 1].0));
        }
    }
}

/// Changing the pair at `i` to one whose key neither comes before nor after
/// the old key (as `and_modify` may, with a closure that leaves the key in
/// its place) keeps the keys sorted.
pub proof fn law_update_keeps_order<K, V>(
    s: Seq<(K, V)>,
    lt: spec_fn(K, K) -> bool,
    i: int,
    key: K,
    value: V,
)
    requires
        strict_total_order(lt),
        sorted_by(s, lt),
        0 <= i < s.len(),
        !lt(key, s[i].0),
        !lt(s[i].0, key),
    ensures
        sorted_by(s.update(i, (key, value)), lt),
{
    assert(key == s[i].0);
    let t = s.update(i, (key, value));
    assert forall|a: int, b: int| 0 <= a < b < t.len() implies #[trigger] lt(t[a].0, t[b].0) by {
        assert(lt(s[a].0, s[b].0));
    }
}

/// Calling `insert_entry(key, value)` on the entry that a search for `key`
/// gives, twice over, leaves the map as one such call leaves it: on a map
/// sorted by an order that the ordering function agrees with, the second
/// search finds the pair that the first call wrote, and writing `value` to
/// it again changes nothing. The map then holds exactly one pair with the
/// key `key`, and its value is `value`; the stored lengths agree.
pub proof fn law_insert_entry_twice<'a, K, V, F: Fn(&K) -> Ordering>(
    first: Entry<'a, K, V>,
    first_done: OccupiedEntry<'a, K, V>,
    second: Entry<'a, K, V>,
    second_done: OccupiedEntry<'a, K, V>,
    compare: F,
    key: K,
    value: V,
    lt: spec_fn(K, K) -> bool,
)
    requires
        strict_total_order(lt),
        sorted_by(first.map(), lt),
        agrees_with(compare, key, lt),
        first.wf(),
        search_outcome(first.map(), compare, first.search_result()),
        first_done.wf(),
        first_done.map() == first.inserted(key, value),
        second.wf(),
        second.map() == first_done.map(),
        search_outcome(second.map(), compare, second.search_result()),
        second_done.wf(),
        second_done.map() == second.inserted(key, value),
    ensures
        second_done.map() == first_done.map(),
        (*second_done.map_ref()).spec_len() == (*first_done.map_ref()).spec_len(),
        sorted_by(first_done.map(), lt),
        first_done.map()[first.index()] == (key, value),
        forall|j: int|
            0 <= j < first_done.map().len() && j != first.index() ==> lt(
                #[trigger] first_done.map()[j].0,
                key,
            ) || lt(key, first_done.map()[j].0),
{
    first.lemma_index_in_bounds();
    second.lemma_index_in_bounds();
    let s = first.map();
    let t = first_done.map();
    let i = first.index();
    law_search_finds_key(s, compare, key, lt, first.search_result());
    if first is Vacant {
        law_insert_keeps_order(s, compare, key, value, lt, first.search_result());
    } else {
        assert(s[i].0 == key);
        law_update_keeps_order(s, lt, i, key, value);
    }
    assert(t[i] == (key, value));
    law_read_after_write(t, compare, key, lt, i, second.search_result());
    assert(second is Occupied);
    assert(second_done.map() =~= t);
    assert forall|j: int| 0 <= j < t.len() && j != i implies lt(#[trigger] t[j].0, key) || lt(
        key,
        t[j].0,
    ) by {
        if j < i {
            assert(lt(t[j].0, t[i].0));
        } else {
            assert(lt(t[i].0, t[j].0));
        }
    }
    first_done.lemma_map_wf();
    second_done.lemma_map_wf();
    (*first_done.map_ref()).lemma_len_is_view_len();
    (*second_done.map_ref()).lemma_len_is_view_len();
}

/// `or_insert_with` with a default function that can only return
/// `(key, val)` does what `or_insert(key, val)` does: the same value is
/// handed out and the map ends the same.
pub proof fn law_or_insert_with_is_or_insert<'a, K, V, F: FnOnce() -> (K, V)>(
    e: Entry<'a, K, V>,
    default: F,
    key: K,
    val: V,
    value: V,
    last: V,
    pairs: Seq<(K, V)>,
)
    requires
        forall|kv: (K, V)| #[trigger] call_ensures(default, (), kv) ==> kv == (key, val),
        e.or_insert_with_outcome(default, value, last, pairs),
    ensures
        e.or_insert_outcome(key, val, value, last, pairs),
{
}

/// What `or_insert(key, val)` gives, pair by pair. `value` is what the
/// returned reference first holds, `last` what it holds when the borrow ends,
/// and `pairs` the pairs of the map then. On an occupied entry the reference
/// starts at the entry's value, the stored key stays as it was, and no other
/// pair changes: `key` and `val` are not used. On a vacant entry the reference
/// starts at `val`, and `(key, last)` stands at the entry's edge with every
/// other pair in its old order around it.
pub proof fn law_or_insert_pairs<'a, K, V>(
    e: Entry<'a, K, V>,
    key: K,
    val: V,
    value: V,
    last: V,
    pairs: Seq<(K, V)>,
)
    requires
        e.wf(),
        e.or_insert_outcome(key, val, value, last, pairs),
    ensures
        e is Occupied ==> {
            &&& value == e.map()[e.index()].1
            &&& pairs.len() == e.map().len()
            &&& pairs[e.index()].0 == e.map()[e.index()].0
            &&& pairs[e.index()].1 == last
            &&& forall|j: int|
                0 <= j < pairs.len() && j != e.index() ==> #[trigger] pairs[j] == e.map()[j]
        },
        e is Vacant ==> {
            &&& value == val
            &&& pairs.len() == e.map().len() + 1
            &&& pairs[e.index()] == (key, last)
            &&& forall|j: int| 0 <= j < e.index() ==> #[trigger] pairs[j] == e.map()[j]
            &&& forall|j: int| e.index() < j < pairs.len() ==> #[trigger] pairs[j] == e.map()[j - 1]
        },
{
    e.lemma_index_in_bounds();
}

/// What `or_insert_with(default)` gives, pair by pair, in the terms of
/// `law_or_insert_pairs`. On an occupied entry it is what `or_insert` gives
/// there, and `default` is not called. On a vacant entry the new pair at the
/// entry's edge has a key and first value that `default` can return, and
/// every other pair keeps its old order around it.
pub proof fn law_or_insert_with_pairs<'a, K, V, F: FnOnce() -> (K, V)>(
    e: Entry<'a, K, V>,
    default: F,
    value: V,
    last: V,
    pairs: Seq<(K, V)>,
)
    requires
        e.wf(),
        e.or_insert_with_outcome(default, value, last, pairs),
    ensures
        e is Occupied ==> {
            &&& value == e.map()[e.index()].1
            &&& pairs.len() == e.map().len()
            &&& pairs[e.index()].0 == e.map()[e.index()].0
            &&& pairs[e.index()].1 == last
            &&& forall|j: int|
                0 <= j < pairs.len() && j != e.index() ==> #[trigger] pairs[j] == e.map()[j]
        },
        e is Vacant ==> {
            &&& call_ensures(default, (), (pairs[e.index()].0, value))
            &&& pairs[e.index()].1 == last
            &&& pairs.len() == e.map().len() + 1
            &&& forall|j: int| 0 <= j < e.index() ==> #[trigger] pairs[j] == e.map()[j]
            &&& forall|j: int| e.index() < j < pairs.len() ==> #[trigger] pairs[j] == e.map()[j - 1]
        },
{
    e.lemma_index_in_bounds();
    if e is Vacant {
        let kv = choose|kv: (K, V)|
            {
                &&& call_ensures(default, (), kv)
                &&& value == kv.1
                &&& pairs == e.map().insert(e.index(), (kv.0, last))
            };
        assert(kv == (pairs[e.index()].0, value));
    }
}

/// What `insert_entry(key, value)` on an entry leaves, pair by pair: an
/// occupied entry keeps its stored key and takes `value`, with no other pair
/// changed; a vacant one gets `(key, value)` at its edge, with every other
/// pair in its old order around it.
pub proof fn law_insert_entry_pairs<'a, K, V>(e: Entry<'a, K, V>, key: K, value: V)
    requires
        e.wf(),
    ensures
        e is Occupied ==> {
            let pairs = e.inserted(key, value);
            &&& pairs.len() == e.map().len()
            &&& pairs[e.index()] == (e.map()[e.index()].0, value)
            &&& forall|j: int|
                0 <= j < pairs.len() && j != e.index() ==> #[trigger] pairs[j] == e.map()[j]
        },
        e is Vacant ==> {
            let pairs = e.inserted(key, value);
            &&& pairs.len() == e.map().len() + 1
            &&& pairs[e.index()] == (key, value)
            &&& forall|j: int| 0 <= j < e.index() ==> #[trigger] pairs[j] == e.map()[j]
            &&& forall|j: int| e.index() < j < pairs.len() ==> #[trigger] pairs[j] == e.map()[j - 1]
        },
{
    e.lemma_index_in_bounds();
}

/// Taking a pair out keeps the remaining keys sorted.
pub proof fn law_remove_keeps_order<K, V>(s: Seq<(K, V)>, lt: spec_fn(K, K) -> bool, i: int)
    requires
        sorted_by(s, lt),
        0 <= i < s.len(),
    ensures
        sorted_by(s.remove(i), lt),
{
    let t = s.remove(i);
    assert forall|a: int, b: int| 0 <= a < b < t.len() implies #[trigger] lt(t[a].0, t[b].0) by {
        let a0 = if a < i {
            a
        } else {
            a + 1
        };
        let b0 = if b < i {
            b
        } else {
            b + 1
        };
        assert(lt(s[a0].0, s[b0].0));
    }
}

/// An entry that `BTree::entry` found, on a map sorted by an order that the
/// ordering function agrees with, is occupied exactly when the probe is one
/// of the keys, and then holds the probe as its key; when it is vacant,
/// inserting the probe there (as `or_insert` and the other inserting calls
/// do) keeps the map sorted.
pub proof fn law_entry_respects_order<'a, K, V, F: Fn(&K) -> Ordering>(
    e: Entry<'a, K, V>,
    compare: F,
    probe: K,
    value: V,
    lt: spec_fn(K, K) -> bool,
)
    requires
        e.wf(),
        search_outcome(e.map(), compare, e.search_result()),
        strict_total_order(lt),
        sorted_by(e.map(), lt),
        agrees_with(compare, probe, lt),
    ensures
        (e is Occupied) == has_key(e.map(), probe),
        e is Occupied ==> e.map()[e.index()].0 == probe,
        e is Vacant ==> sorted_by(e.map().insert(e.index(), (probe, value)), lt),
{
    e.lemma_index_in_bounds();
    let res = e.search_result();
    law_search_finds_key(e.map(), compare, probe, lt, res);
    if e is Vacant {
        law_insert_keeps_order(e.map(), compare, probe, value, lt, res);
    }
}

/// Removing a pair through the entry that inserting it gave back leaves the
/// map as it was before the insertion, and hands back that pair.
pub proof fn law_remove_undoes_insert<'a, K, V>(
    vacant: VacantEntry<'a, K, V>,
    occupied: OccupiedEntry<'a, K, V>,
    key: K,
    value: V,
)
    requires
        vacant.wf(),
        occupied.index() == vacant.index(),
        occupied.map() == vacant.map().insert(vacant.index(), (key, value)),
    ensures
        occupied.spec_key() == key,
        occupied.spec_value() == value,
        occupied.map().remove(occupied.index()) == vacant.map(),
{
    vacant.lemma_index_in_bounds();
    assert(occupied.map().remove(occupied.index()) =~= vacant.map());
}

/// Writing a value through an occupied entry and then reading it back gives
/// the value written, under the same key; the other pairs stay as they were.
pub proof fn law_get_after_insert<'a, K, V>(
    before: OccupiedEntry<'a, K, V>,
    after: OccupiedEntry<'a, K, V>,
    value: V,
)
    requires
        before.wf(),
        after.index() == before.index(),
        after.map() == before.map().update(before.index(), (before.spec_key(), value)),
    ensures
        after.spec_value() == value,
        after.spec_key() == before.spec_key(),
        after.map().len() == before.map().len(),
        forall|j: int|
            0 <= j < before.map().len() && j != before.index() ==> after.map()[j]
                == before.map()[j],
{
    before.lemma_index_in_bounds();
}

/// The stored length of a map counts its pairs, so an insertion adds one to
/// it and a removal takes one from it.
pub proof fn law_len_counts_pairs<K, V>(before: BTree<K, V>, after: BTree<K, V>, i: int, kv: (K, V))
    requires
        before.wf(),
        after.wf(),
        0 <= i <= before@.len(),
    ensures
        after@ == before@.insert(i, kv) ==> after.spec_len() == before.spec_len() + 1,
        i < before@.len() && after@ == before@.remove(i) ==> after.spec_len() + 1
            == before.spec_len(),
{
    before.lemma_len_is_view_len();
    after.lemma_len_is_view_len();
}

} // verus!
