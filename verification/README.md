# btree

An ordered map kept as a B-tree, with Verus contracts on every function.

The map never compares keys itself: every access (`entry`, `get`,
`try_insert`) takes an ordering function that places a probe against the keys
it meets on the way down. When all accesses agree with one order over the
keys, the pairs stay sorted by it; when they do not, nothing panics and the map
stays well formed.

Layout of `src/`:

- `borrow.rs` – `DormantMutRef`, a mutable borrow set aside while shorter
  reborrows of it are in use.
- `node.rs` – the tree nodes (up to 11 pairs each, leaves at one depth, each
  node counting the pairs below it) and their insertion with splits, removal
  with merging and stealing between siblings, and the lemmas on how a node's
  pairs and children make up its contents in tree order.
- `search.rs` – the search down the tree and what its result says.
- `map.rs` – `BTree` itself: a root, its height and the stored length.
- `map/entry.rs` – the entry API: `Entry`, `VacantEntry`, `OccupiedEntry`,
  `OccupiedError`.
- `laws.rs` – properties across calls: searches with a consistent ordering
  find exactly the keys present and keep the map sorted, writing the same pair
  twice through `insert_entry` leaves the map as writing it once,
  `or_insert_with` with a fixed pair does what `or_insert` does, and a removal
  through an entry undoes the insertion that gave it.

Every contract speaks of the map as the sequence of its pairs in tree order
(`map@`). Entries hold the borrow of the map; `*final(e.map_ref())` names the
map that its owner gets back once the entry and what it handed out are done;
`broadcast use map::entry::group_entry_resolved` gives that a dropped entry
leaves the map as it stands. The height and root size of the tree are stated
through `height()` and `root_len()`: an insertion keeps the height or, when a
full root splits, raises it by one; a removal keeps it or, when it empties an
internal root with a single pair, lowers it by one.
