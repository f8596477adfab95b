//! The nodes of the tree: each holds up to `CAPACITY` key-value pairs and, when
//! internal, one more child edge than it has pairs. Every leaf lies at the same
//! depth, and every node but the root holds at least `MIN_LEN` pairs. A node
//! keeps the number of pairs in its subtree, so that a position in tree order
//! can be found by walking down from the root.

use vstd::prelude::*;

verus! {

/// The branching factor: a full node has `2 * B` children.
pub const B: usize = 6;

/// A position as a mathematical integer.
pub open spec fn ix(i: usize) -> int {
    i as int
}

/// The height of the children of a node at height `h`.
pub open spec fn below(h: nat) -> nat {
    (h - 1) as nat
}

/// The most pairs a node holds.
pub const CAPACITY: usize = 11;

/// The fewest pairs a node other than the root holds.
pub const MIN_LEN: usize = 5;

/// In-order contents of `parts[j]`, `kvs[j]`, `parts[j + 1]`, ..., `parts[n]`,
/// where `n` is the number of pairs.
pub open spec fn from<K, V>(kvs: Seq<(K, V)>, parts: Seq<Seq<(K, V)>>, j: int) -> Seq<(K, V)>
    decreases kvs.len() - j,
{
    if j >= kvs.len() {
        parts[kvs.len() as int]
    } else {
        parts[j] + seq![kvs[j]] + from(kvs, parts, j + 1)
    }
}

/// In-order contents of `parts[0]`, `kvs[0]`, ..., `parts[j - 1]`, `kvs[j - 1]`.
pub open spec fn upto<K, V>(kvs: Seq<(K, V)>, parts: Seq<Seq<(K, V)>>, j: int) -> Seq<(K, V)>
    decreases j,
{
    if j <= 0 {
        Seq::empty()
    } else {
        upto(kvs, parts, j - 1) + parts[j - 1] + seq![kvs[j - 1]]
    }
}

/// What follows `parts[j]` in the in-order contents.
pub open spec fn after<K, V>(kvs: Seq<(K, V)>, parts: Seq<Seq<(K, V)>>, j: int) -> Seq<(K, V)> {
    if j >= kvs.len() {
        Seq::empty()
    } else {
        seq![kvs[j]] + from(kvs, parts, j + 1)
    }
}

/// The contents split around `parts[j]`.
pub proof fn lemma_decompose<K, V>(kvs: Seq<(K, V)>, parts: Seq<Seq<(K, V)>>, j: int)
    requires
        0 <= j <= kvs.len(),
    ensures
        from(kvs, parts, 0) == upto(kvs, parts, j) + parts[j] + after(kvs, parts, j),
        from(kvs, parts, j) == parts[j] + after(kvs, parts, j),
    decreases j,
{
    if j > 0 {
        lemma_decompose(kvs, parts, j - 1);
        assert(from(kvs, parts, j - 1) == parts[j - 1] + seq![kvs[j - 1]] + from(kvs, parts, j));
        assert(from(kvs, parts, 0) =~= upto(kvs, parts, j) + from(kvs, parts, j));
    }
    if j < kvs.len() {
        assert(from(kvs, parts, j) =~= parts[j] + after(kvs, parts, j));
    } else {
        assert(from(kvs, parts, j) =~= parts[j] + after(kvs, parts, j));
    }
    assert(from(kvs, parts, 0) =~= upto(kvs, parts, j) + parts[j] + after(kvs, parts, j));
}

/// The first `j` parts and pairs alone decide `upto(j)`.
pub proof fn lemma_upto_frame<K, V>(
    kvs1: Seq<(K, V)>,
    parts1: Seq<Seq<(K, V)>>,
    kvs2: Seq<(K, V)>,
    parts2: Seq<Seq<(K, V)>>,
    j: int,
)
    requires
        0 <= j <= kvs1.len(),
        j <= kvs2.len(),
        forall|i: int| 0 <= i < j ==> kvs1[i] == kvs2[i],
        forall|i: int| 0 <= i < j ==> parts1[i] == parts2[i],
    ensures
        upto(kvs1, parts1, j) == upto(kvs2, parts2, j),
    decreases j,
{
    if j > 0 {
        lemma_upto_frame(kvs1, parts1, kvs2, parts2, j - 1);
    }
}

/// The parts and pairs from `j` on alone decide `from(j)`, wherever they stand.
pub proof fn lemma_from_frame<K, V>(
    kvs1: Seq<(K, V)>,
    parts1: Seq<Seq<(K, V)>>,
    j1: int,
    kvs2: Seq<(K, V)>,
    parts2: Seq<Seq<(K, V)>>,
    j2: int,
)
    requires
        0 <= j1 <= kvs1.len(),
        0 <= j2 <= kvs2.len(),
        parts1.len() == kvs1.len() + 1,
        parts2.len() == kvs2.len() + 1,
        kvs1.skip(j1) == kvs2.skip(j2),
        parts1.skip(j1) == parts2.skip(j2),
    ensures
        from(kvs1, parts1, j1) == from(kvs2, parts2, j2),
    decreases kvs1.len() - j1,
{
    assert(kvs1.skip(j1).len() == kvs1.len() - j1);
    assert(kvs2.skip(j2).len() == kvs2.len() - j2);
    assert(kvs1.len() - j1 == kvs2.len() - j2);
    assert(parts1[j1] == parts1.skip(j1)[0]);
    assert(parts2[j2] == parts2.skip(j2)[0]);
    if j1 < kvs1.len() {
        assert(kvs1[j1] == kvs1.skip(j1)[0]);
        assert(kvs2[j2] == kvs2.skip(j2)[0]);
        assert(kvs1.skip(j1 + 1) =~= kvs1.skip(j1).skip(1));
        assert(kvs2.skip(j2 + 1) =~= kvs2.skip(j2).skip(1));
        assert(parts1.skip(j1 + 1) =~= parts1.skip(j1).skip(1));
        assert(parts2.skip(j2 + 1) =~= parts2.skip(j2).skip(1));
        lemma_from_frame(kvs1, parts1, j1 + 1, kvs2, parts2, j2 + 1);
    }
}

/// Splitting a node's pairs at `m`, with the parts on either side.
pub proof fn lemma_split<K, V>(kvs: Seq<(K, V)>, parts: Seq<Seq<(K, V)>>, m: int)
    requires
        0 <= m < kvs.len(),
        parts.len() == kvs.len() + 1,
    ensures
        from(kvs, parts, 0) == from(kvs.take(m), parts.take(m + 1), 0) + seq![kvs[m]] + from(
            kvs.skip(m + 1),
            parts.skip(m + 1),
            0,
        ),
{
    lemma_decompose(kvs, parts, m);
    lemma_decompose(kvs.take(m), parts.take(m + 1), m);
    lemma_upto_frame(kvs, parts, kvs.take(m), parts.take(m + 1), m);
    assert(kvs.skip(m + 1) =~= kvs.skip(m + 1).skip(0));
    assert(parts.skip(m + 1) =~= parts.skip(m + 1).skip(0));
    lemma_from_frame(kvs, parts, m + 1, kvs.skip(m + 1), parts.skip(m + 1), 0);
    assert(from(kvs.take(m), parts.take(m + 1), m) == parts[m]);
    assert(from(kvs, parts, 0) =~= upto(kvs, parts, m) + parts[m] + seq![kvs[m]] + from(
        kvs,
        parts,
        m + 1,
    ));
}

/// Replacing part `j` replaces its stretch of the contents.
pub proof fn lemma_replace_part<K, V>(
    kvs: Seq<(K, V)>,
    parts: Seq<Seq<(K, V)>>,
    j: int,
    p: Seq<(K, V)>,
)
    requires
        0 <= j <= kvs.len(),
        parts.len() == kvs.len() + 1,
    ensures
        from(kvs, parts.update(j, p), 0) == upto(kvs, parts, j) + p + after(kvs, parts, j),
{
    let parts2 = parts.update(j, p);
    lemma_decompose(kvs, parts, j);
    lemma_decompose(kvs, parts2, j);
    lemma_upto_frame(kvs, parts, kvs, parts2, j);
    if j < kvs.len() {
        assert(parts.skip(j + 1) =~= parts2.skip(j + 1));
        lemma_from_frame(kvs, parts, j + 1, kvs, parts2, j + 1);
    }
}

/// Replacing pair `j` replaces its place in the contents.
pub proof fn lemma_replace_kv<K, V>(
    kvs: Seq<(K, V)>,
    parts: Seq<Seq<(K, V)>>,
    j: int,
    kv: (K, V),
)
    requires
        0 <= j < kvs.len(),
        parts.len() == kvs.len() + 1,
    ensures
        from(kvs.update(j, kv), parts, 0) == (upto(kvs, parts, j) + parts[j]) + seq![kv] + from(
            kvs,
            parts,
            j + 1,
        ),
        from(kvs, parts, 0) == (upto(kvs, parts, j) + parts[j]) + seq![kvs[j]] + from(
            kvs,
            parts,
            j + 1,
        ),
{
    let kvs2 = kvs.update(j, kv);
    lemma_decompose(kvs, parts, j);
    lemma_decompose(kvs2, parts, j);
    lemma_upto_frame(kvs, parts, kvs2, parts, j);
    assert(kvs.skip(j + 1) =~= kvs2.skip(j + 1));
    lemma_from_frame(kvs, parts, j + 1, kvs2, parts, j + 1);
    assert(from(kvs2, parts, 0) =~= (upto(kvs, parts, j) + parts[j]) + seq![kv] + from(
        kvs,
        parts,
        j + 1,
    ));
    assert(from(kvs, parts, 0) =~= (upto(kvs, parts, j) + parts[j]) + seq![kvs[j]] + from(
        kvs,
        parts,
        j + 1,
    ));
}

/// A child that split into `left`, `mid` and `right` takes the place of part
/// `j`, with `mid` becoming pair `j`.
pub proof fn lemma_insert_split<K, V>(
    kvs: Seq<(K, V)>,
    parts: Seq<Seq<(K, V)>>,
    j: int,
    left: Seq<(K, V)>,
    mid: (K, V),
    right: Seq<(K, V)>,
)
    requires
        0 <= j <= kvs.len(),
        parts.len() == kvs.len() + 1,
    ensures
        from(kvs.insert(j, mid), parts.update(j, left).insert(j + 1, right), 0) == upto(
            kvs,
            parts,
            j,
        ) + (left + seq![mid] + right) + after(kvs, parts, j),
{
    let kvs2 = kvs.insert(j, mid);
    let parts2 = parts.update(j, left).insert(j + 1, right);
    lemma_decompose(kvs, parts, j);
    lemma_decompose(kvs2, parts2, j);
    lemma_upto_frame(kvs, parts, kvs2, parts2, j);
    assert(from(kvs2, parts2, j) == left + seq![mid] + from(kvs2, parts2, j + 1));
    if j < kvs.len() {
        assert(kvs.skip(j + 1) =~= kvs2.skip(j + 2));
        assert(parts.skip(j + 1) =~= parts2.skip(j + 2));
        lemma_from_frame(kvs, parts, j + 1, kvs2, parts2, j + 2);
        assert(from(kvs2, parts2, j + 1) == right + seq![kvs[j]] + from(kvs2, parts2, j + 2));
        assert(from(kvs2, parts2, j + 1) =~= right + after(kvs, parts, j));
    } else {
        assert(from(kvs2, parts2, j + 1) =~= right + after(kvs, parts, j));
    }
    assert(from(kvs2, parts2, 0) =~= upto(kvs, parts, j) + (left + seq![mid] + right) + after(
        kvs,
        parts,
        j,
    ));
}

/// Reshaping part `p`, pair `p` and part `p + 1` while keeping what they
/// hold in order keeps the contents.
pub proof fn lemma_window<K, V>(
    kvs: Seq<(K, V)>,
    parts: Seq<Seq<(K, V)>>,
    p: int,
    a: Seq<(K, V)>,
    k: (K, V),
    b: Seq<(K, V)>,
)
    requires
        0 <= p < kvs.len(),
        parts.len() == kvs.len() + 1,
        a + seq![k] + b == parts[p] + seq![kvs[p]] + parts[p + 1],
    ensures
        from(kvs.update(p, k), parts.update(p, a).update(p + 1, b), 0) == from(kvs, parts, 0),
{
    let kvs2 = kvs.update(p, k);
    let parts2 = parts.update(p, a).update(p + 1, b);
    lemma_decompose(kvs, parts, p);
    lemma_decompose(kvs2, parts2, p);
    lemma_decompose(kvs, parts, p + 1);
    lemma_decompose(kvs2, parts2, p + 1);
    lemma_upto_frame(kvs, parts, kvs2, parts2, p);
    if p + 1 < kvs.len() {
        assert(kvs.skip(p + 2) =~= kvs2.skip(p + 2));
        assert(parts.skip(p + 2) =~= parts2.skip(p + 2));
        lemma_from_frame(kvs, parts, p + 2, kvs2, parts2, p + 2);
    }
    assert(after(kvs, parts, p) == seq![kvs[p]] + parts[p + 1] + after(kvs, parts, p + 1));
    assert(after(kvs2, parts2, p) == seq![k] + b + after(kvs2, parts2, p + 1));
    assert(after(kvs, parts, p + 1) == after(kvs2, parts2, p + 1));
    assert(from(kvs2, parts2, 0) =~= upto(kvs, parts, p) + (a + seq![k] + b) + after(
        kvs,
        parts,
        p + 1,
    ));
    assert(from(kvs, parts, 0) =~= upto(kvs, parts, p) + (parts[p] + seq![kvs[p]] + parts[p
        + 1]) + after(kvs, parts, p + 1));
}

/// Folding part `p`, pair `p` and part `p + 1` into one part keeps the
/// contents.
pub proof fn lemma_merge_parts<K, V>(kvs: Seq<(K, V)>, parts: Seq<Seq<(K, V)>>, p: int)
    requires
        0 <= p < kvs.len(),
        parts.len() == kvs.len() + 1,
    ensures
        from(
            kvs.remove(p),
            parts.remove(p + 1).update(p, parts[p] + seq![kvs[p]] + parts[p + 1]),
            0,
        ) == from(kvs, parts, 0),
{
    let kvs2 = kvs.remove(p);
    let parts2 = parts.remove(p + 1).update(p, parts[p] + seq![kvs[p]] + parts[p + 1]);
    assert(kvs2.insert(p, kvs[p]) =~= kvs);
    assert(parts2.update(p, parts[p]).insert(p + 1, parts[p + 1]) =~= parts);
    lemma_insert_split(kvs2, parts2, p, parts[p], kvs[p], parts[p + 1]);
    lemma_decompose(kvs2, parts2, p);
}

/// The contents from `j` on hold at least the pairs from `j` on.
pub proof fn lemma_from_len<K, V>(kvs: Seq<(K, V)>, parts: Seq<Seq<(K, V)>>, j: int)
    requires
        0 <= j <= kvs.len(),
    ensures
        from(kvs, parts, j).len() >= kvs.len() - j,
    decreases kvs.len() - j,
{
    if j < kvs.len() {
        lemma_from_len(kvs, parts, j + 1);
    }
}

/// A node of the tree; `len` counts the pairs of its whole subtree.
pub struct Node<K, V> {
    pub kvs: Vec<(K, V)>,
    pub edges: Vec<Node<K, V>>,
    pub len: usize,
}

impl<K, V> Node<K, V> {
    /// The contents of the children of a node at height `h`.
    pub open spec fn parts(self, h: nat) -> Seq<Seq<(K, V)>>
        decreases h, 0nat,
    {
        Seq::new(
            self.edges@.len(),
            |i: int|
                if h > 0 {
                    self.edges@[i].contents((h - 1) as nat)
                } else {
                    Seq::empty()
                },
        )
    }

    /// The pairs of the subtree, in tree order, for a node at height `h`.
    pub open spec fn contents(self, h: nat) -> Seq<(K, V)>
        decreases h, 1nat,
    {
        if h == 0 {
            self.kvs@
        } else {
            from(self.kvs@, self.parts(h), 0)
        }
    }

    /// Where the stretch of child `j` starts in the contents.
    pub open spec fn pos(self, h: nat, j: int) -> int {
        upto(self.kvs@, self.parts(h), j).len() as int
    }

    /// The node is a well-formed subtree of height `h`.
    pub open spec fn wf(self, h: nat) -> bool
        decreases h,
    {
        &&& self.kvs@.len() <= CAPACITY
        &&& self.len == self.contents(h).len()
        &&& if h == 0 {
            self.edges@.len() == 0
        } else {
            &&& self.edges@.len() == self.kvs@.len() + 1
            &&& forall|i: int|
                0 <= i < self.edges@.len() ==> (#[trigger] self.edges@[i]).wf((h - 1) as nat)
        }
    }

    /// Every node below this one holds at least `MIN_LEN` pairs.
    pub open spec fn filled(self, h: nat) -> bool
        decreases h,
    {
        h > 0 ==> forall|i: int|
            0 <= i < self.edges@.len() ==> (#[trigger] self.edges@[i]).kvs@.len() >= MIN_LEN
                && self.edges@[i].filled((h - 1) as nat)
    }

    /// As `filled`, except that child `j` may hold one pair fewer.
    pub open spec fn almost_filled(self, h: nat, j: int) -> bool {
        h > 0 ==> forall|i: int|
            0 <= i < self.edges@.len() ==> (#[trigger] self.edges@[i]).filled((h - 1) as nat)
                && self.edges@[i].kvs@.len() + (if i == j {
                1int
            } else {
                0int
            }) >= MIN_LEN
    }

    /// A subtree holds at least the pairs of its root.
    pub proof fn lemma_len_at_least_kvs(self, h: nat)
        requires
            self.wf(h),
        ensures
            self.len >= self.kvs@.len(),
    {
        if h > 0 {
            lemma_from_len(self.kvs@, self.parts(h), 0);
        }
    }

    /// How the contents of an internal node fall apart around child `j`.
    pub proof fn lemma_around(self, h: nat, j: int)
        requires
            self.wf(h),
            h > 0,
            0 <= j < self.edges@.len(),
        ensures
            self.contents(h) == upto(self.kvs@, self.parts(h), j) + self.parts(h)[j] + after(
                self.kvs@,
                self.parts(h),
                j,
            ),
            self.parts(h)[j] == self.edges@[j].contents((h - 1) as nat),
            self.parts(h)[j].len() == self.edges@[j].len,
            self.edges@[j].wf((h - 1) as nat),
            self.parts(h).len() == self.kvs@.len() + 1,
            j < self.kvs@.len() ==> after(self.kvs@, self.parts(h), j)[0] == self.kvs@[j],
            j < self.kvs@.len() ==> after(self.kvs@, self.parts(h), j).len() >= 1,
            j < self.kvs@.len() ==> self.pos(h, j + 1) == self.pos(h, j) + self.edges@[j].len
                + 1,
            j == self.kvs@.len() ==> after(self.kvs@, self.parts(h), j).len() == 0,
    {
        lemma_decompose(self.kvs@, self.parts(h), j);
        assert(self.edges@[j].wf((h - 1) as nat));
    }

    /// A node that differs from `self`, an internal node, only in child `j`
    /// (and in its count, by the change of that child's count) is well formed
    /// and holds the new child's contents in place of the old.
    pub proof fn lemma_replace_child(self, n: Node<K, V>, h: nat, j: int)
        requires
            self.wf(h),
            h > 0,
            0 <= j < self.edges@.len(),
            n.kvs@ == self.kvs@,
            n.edges@ == self.edges@.update(j, n.edges@[j]),
            n.edges@[j].wf((h - 1) as nat),
            n.len == self.len - self.edges@[j].len + n.edges@[j].len,
        ensures
            n.wf(h),
            n.contents(h) == upto(self.kvs@, self.parts(h), j) + n.edges@[j].contents(
                (h - 1) as nat,
            ) + after(self.kvs@, self.parts(h), j),
            self.filled(h) && n.edges@[j].filled((h - 1) as nat) && n.edges@[j].kvs@.len() + 1
                >= MIN_LEN ==> n.almost_filled(h, j),
            self.filled(h) && n.edges@[j].filled((h - 1) as nat) && n.edges@[j].kvs@.len()
                >= MIN_LEN ==> n.filled(h),
    {
        self.lemma_around(h, j);
        let c = n.edges@[j].contents((h - 1) as nat);
        assert(n.parts(h) =~= self.parts(h).update(j, c));
        lemma_replace_part(self.kvs@, self.parts(h), j, c);
        assert forall|k: int| 0 <= k < n.edges@.len() implies (#[trigger] n.edges@[k]).wf(
            (h - 1) as nat,
        ) by {
            if k != j {
                assert(n.edges@[k] == self.edges@[k]);
            }
        }
        if self.filled(h) && n.edges@[j].filled((h - 1) as nat) {
            assert forall|k: int| 0 <= k < n.edges@.len() && k != j implies (
            #[trigger] n.edges@[k]).filled((h - 1) as nat) && n.edges@[k].kvs@.len() >= MIN_LEN by {
                assert(n.edges@[k] == self.edges@[k]);
            }
        }
    }

    /// A node that differs from `self`, an internal node, by child `j` having
    /// split into `left`, `mid` and `right`, holds those in its place. It may
    /// hold one pair too many.
    pub proof fn lemma_split_child(
        self,
        n: Node<K, V>,
        h: nat,
        j: int,
        left: Node<K, V>,
        mid: (K, V),
        right: Node<K, V>,
    )
        requires
            self.wf(h),
            h > 0,
            0 <= j < self.edges@.len(),
            left.wf((h - 1) as nat),
            right.wf((h - 1) as nat),
            n.kvs@ == self.kvs@.insert(j, mid),
            n.edges@ == self.edges@.update(j, left).insert(j + 1, right),
            n.len == self.len - self.edges@[j].len + left.len + 1 + right.len,
        ensures
            n.contents(h) == upto(self.kvs@, self.parts(h), j) + (left.contents((h - 1) as nat)
                + seq![mid] + right.contents((h - 1) as nat)) + after(
                self.kvs@,
                self.parts(h),
                j,
            ),
            n.len == n.contents(h).len(),
            n.edges@.len() == n.kvs@.len() + 1,
            forall|k: int| 0 <= k < n.edges@.len() ==> (#[trigger] n.edges@[k]).wf((h - 1) as nat),
            n.kvs@.len() <= CAPACITY ==> n.wf(h),
            self.filled(h) && left.filled((h - 1) as nat) && right.filled((h - 1) as nat)
                && left.kvs@.len() >= MIN_LEN && right.kvs@.len() >= MIN_LEN ==> n.filled(h),
    {
        self.lemma_around(h, j);
        let lc = left.contents((h - 1) as nat);
        let rc = right.contents((h - 1) as nat);
        assert(n.parts(h) =~= self.parts(h).update(j, lc).insert(j + 1, rc));
        lemma_insert_split(self.kvs@, self.parts(h), j, lc, mid, rc);
        assert forall|k: int| 0 <= k < n.edges@.len() implies (#[trigger] n.edges@[k]).wf(
            (h - 1) as nat,
        ) by {
            if k < j {
                assert(n.edges@[k] == self.edges@[k]);
            } else if k > j + 1 {
                assert(n.edges@[k] == self.edges@[k - 1]);
            }
        }
        if self.filled(h) && left.filled((h - 1) as nat) && right.filled((h - 1) as nat)
            && left.kvs@.len() >= MIN_LEN && right.kvs@.len() >= MIN_LEN {
            assert forall|k: int| 0 <= k < n.edges@.len() implies (#[trigger] n.edges@[
                k
            ]).kvs@.len() >= MIN_LEN && n.edges@[k].filled((h - 1) as nat) by {
                if k < j {
                    assert(n.edges@[k] == self.edges@[k]);
                } else if k > j + 1 {
                    assert(n.edges@[k] == self.edges@[k - 1]);
                } else if k == j {
                    assert(n.edges@[k] == left);
                } else {
                    assert(n.edges@[k] == right);
                }
            }
        }
    }

    /// A node that differs from `self`, an internal node, only in pair `j`
    /// holds the new pair in its place.
    pub proof fn lemma_replace_kv_at(self, n: Node<K, V>, h: nat, j: int)
        requires
            self.wf(h),
            h > 0,
            0 <= j < self.kvs@.len(),
            n.kvs@ == self.kvs@.update(j, n.kvs@[j]),
            n.edges@ == self.edges@,
            n.len == self.len,
        ensures
            n.wf(h),
            n.contents(h) == (upto(self.kvs@, self.parts(h), j) + self.parts(h)[j]) + seq![
                n.kvs@[j],
            ] + from(self.kvs@, self.parts(h), j + 1),
            self.contents(h) == (upto(self.kvs@, self.parts(h), j) + self.parts(h)[j]) + seq![
                self.kvs@[j],
            ] + from(self.kvs@, self.parts(h), j + 1),
    {
        self.lemma_around(h, j);
        assert(n.parts(h) =~= self.parts(h));
        lemma_replace_kv(self.kvs@, self.parts(h), j, n.kvs@[j]);
    }

    /// A node that differs from `self`, an internal node, only in children
    /// `p` and `p + 1` and pair `p`, which hold between them what they held
    /// before, is well formed and has the same contents.
    pub proof fn lemma_reshape_window(self, n: Node<K, V>, h: nat, p: int)
        requires
            self.wf(h),
            h > 0,
            0 <= p < self.kvs@.len(),
            n.kvs@ == self.kvs@.update(p, n.kvs@[p]),
            n.edges@ == self.edges@.update(p, n.edges@[p]).update(p + 1, n.edges@[p + 1]),
            n.edges@[p].wf((h - 1) as nat),
            n.edges@[p + 1].wf((h - 1) as nat),
            n.len == self.len,
            n.edges@[p].contents((h - 1) as nat) + seq![n.kvs@[p]] + n.edges@[p + 1].contents(
                (h - 1) as nat,
            ) == self.parts(h)[p] + seq![self.kvs@[p]] + self.parts(h)[p + 1],
        ensures
            n.wf(h),
            n.contents(h) == self.contents(h),
            (self.almost_filled(h, p) || self.almost_filled(h, p + 1)) && n.edges@[p].filled(
                (h - 1) as nat,
            ) && n.edges@[p + 1].filled((h - 1) as nat) && n.edges@[p].kvs@.len() >= MIN_LEN
                && n.edges@[p + 1].kvs@.len() >= MIN_LEN ==> n.filled(h),
    {
        self.lemma_around(h, p);
        if (self.almost_filled(h, p) || self.almost_filled(h, p + 1)) && n.edges@[p].filled(
            (h - 1) as nat,
        ) && n.edges@[p + 1].filled((h - 1) as nat) && n.edges@[p].kvs@.len() >= MIN_LEN
            && n.edges@[p + 1].kvs@.len() >= MIN_LEN {
            assert forall|k: int| 0 <= k < n.edges@.len() implies (#[trigger] n.edges@[
                k
            ]).kvs@.len() >= MIN_LEN && n.edges@[k].filled((h - 1) as nat) by {
                if k != p && k != p + 1 {
                    assert(n.edges@[k] == self.edges@[k]);
                }
            }
        }
        let a = n.edges@[p].contents((h - 1) as nat);
        let b = n.edges@[p + 1].contents((h - 1) as nat);
        assert(n.parts(h) =~= self.parts(h).update(p, a).update(p + 1, b));
        lemma_window(self.kvs@, self.parts(h), p, a, n.kvs@[p], b);
        assert forall|k: int| 0 <= k < n.edges@.len() implies (#[trigger] n.edges@[k]).wf(
            (h - 1) as nat,
        ) by {
            if k != p && k != p + 1 {
                assert(n.edges@[k] == self.edges@[k]);
            }
        }
    }

    /// A node that differs from `self`, an internal node, by children `p` and
    /// `p + 1` and pair `p` having been merged into child `p`, is well formed
    /// and has the same contents.
    pub proof fn lemma_merge_children(self, n: Node<K, V>, h: nat, p: int)
        requires
            self.wf(h),
            h > 0,
            0 <= p < self.kvs@.len(),
            n.kvs@ == self.kvs@.remove(p),
            n.edges@ == self.edges@.remove(p + 1).update(p, n.edges@[p]),
            n.edges@[p].wf((h - 1) as nat),
            n.len == self.len,
            n.edges@[p].contents((h - 1) as nat) == self.parts(h)[p] + seq![self.kvs@[p]]
                + self.parts(h)[p + 1],
        ensures
            n.wf(h),
            n.contents(h) == self.contents(h),
            (self.almost_filled(h, p) || self.almost_filled(h, p + 1)) && n.edges@[p].filled(
                (h - 1) as nat,
            ) && n.edges@[p].kvs@.len() >= MIN_LEN ==> n.filled(h),
    {
        self.lemma_around(h, p);
        if (self.almost_filled(h, p) || self.almost_filled(h, p + 1)) && n.edges@[p].filled(
            (h - 1) as nat,
        ) && n.edges@[p].kvs@.len() >= MIN_LEN {
            assert forall|k: int| 0 <= k < n.edges@.len() implies (#[trigger] n.edges@[
                k
            ]).kvs@.len() >= MIN_LEN && n.edges@[k].filled((h - 1) as nat) by {
                if k < p {
                    assert(n.edges@[k] == self.edges@[k]);
                } else if k > p {
                    assert(n.edges@[k] == self.edges@[k + 1]);
                }
            }
        }
        let m = n.edges@[p].contents((h - 1) as nat);
        assert(n.parts(h) =~= self.parts(h).remove(p + 1).update(p, m));
        lemma_merge_parts(self.kvs@, self.parts(h), p);
        assert forall|k: int| 0 <= k < n.edges@.len() implies (#[trigger] n.edges@[k]).wf(
            (h - 1) as nat,
        ) by {
            if k < p {
                assert(n.edges@[k] == self.edges@[k]);
            } else if k > p {
                assert(n.edges@[k] == self.edges@[k + 1]);
            }
        }
    }

    /// Any node that differs from this internal one only in child `j`, which
    /// is a well-formed subtree of the same size, is well formed and holds the
    /// new child's contents in place of the old.
    pub proof fn lemma_child_replaced(self, h: nat, j: int)
        requires
            self.wf(h),
            h > 0,
            0 <= j < self.edges@.len(),
        ensures
            forall|n: Node<K, V>|
                #![trigger n.contents(h)]
                #![trigger n.wf(h)]
                n.kvs@ == self.kvs@ && n.len == self.len && n.edges@ == self.edges@.update(
                    j,
                    n.edges@[j],
                ) && n.edges@[j].wf((h - 1) as nat) && n.edges@[j].len == self.edges@[j].len
                    ==> n.wf(h) && n.contents(h) == upto(self.kvs@, self.parts(h), j)
                    + n.edges@[j].contents((h - 1) as nat) + after(self.kvs@, self.parts(h), j),
    {
        self.lemma_around(h, j);
        assert forall|n: Node<K, V>|
            n.kvs@ == self.kvs@ && n.len == self.len && n.edges@ == self.edges@.update(
                j,
                n.edges@[j],
            ) && n.edges@[j].wf((h - 1) as nat) && n.edges@[j].len
                == self.edges@[j].len implies #[trigger] n.wf(h) && n.contents(h) == upto(
            self.kvs@,
            self.parts(h),
            j,
        ) + n.edges@[j].contents((h - 1) as nat) + after(self.kvs@, self.parts(h), j) by {
            let c = n.edges@[j].contents((h - 1) as nat);
            assert(n.parts(h) =~= self.parts(h).update(j, c));
            lemma_replace_part(self.kvs@, self.parts(h), j, c);
            assert forall|k: int| 0 <= k < n.edges@.len() implies (#[trigger] n.edges@[k]).wf(
                (h - 1) as nat,
            ) by {
                if k != j {
                    assert(n.edges@[k] == self.edges@[k]);
                }
            }
        }
    }

    /// Any node that differs from this one only in child `j`, by a child with
    /// as many pairs whose nodes below hold enough pairs, keeps `filled`.
    pub proof fn lemma_child_replaced_filled(self, h: nat, j: int)
        requires
            h > 0,
            0 <= j < self.edges@.len(),
        ensures
            forall|n: Node<K, V>|
                #![trigger n.filled(h)]
                n.edges@ == self.edges@.update(j, n.edges@[j]) && self.filled(h)
                    && n.edges@[j].filled((h - 1) as nat) && n.edges@[j].kvs@.len()
                    == self.edges@[j].kvs@.len() ==> n.filled(h),
    {
        assert forall|n: Node<K, V>|
            n.edges@ == self.edges@.update(j, n.edges@[j]) && self.filled(h) && n.edges@[j].filled(
                (h - 1) as nat,
            ) && n.edges@[j].kvs@.len() == self.edges@[j].kvs@.len() implies #[trigger] n.filled(
            h,
        ) by {
            assert forall|k: int| 0 <= k < n.edges@.len() implies (#[trigger] n.edges@[
                k
            ]).kvs@.len() >= MIN_LEN && n.edges@[k].filled((h - 1) as nat) by {
                if k != j {
                    assert(n.edges@[k] == self.edges@[k]);
                }
            }
        }
    }

    /// A node whose child `j`, the only one allowed to fall short, does not
    /// is filled.
    pub proof fn lemma_almost_filled(self, h: nat, j: int)
        requires
            self.almost_filled(h, j),
            h > 0,
            0 <= j < self.edges@.len(),
            self.edges@[j].kvs@.len() >= MIN_LEN,
        ensures
            self.filled(h),
    {
        assert forall|k: int| 0 <= k < self.edges@.len() implies (#[trigger] self.edges@[
            k
        ]).kvs@.len() >= MIN_LEN && self.edges@[k].filled((h - 1) as nat) by {
            assert(self.edges@[k].filled((h - 1) as nat));
        }
    }

    /// Any node that differs from this internal one only in pair `j` holds the
    /// new pair in its place.
    pub proof fn lemma_kv_replaced(self, h: nat, j: int)
        requires
            self.wf(h),
            h > 0,
            0 <= j < self.kvs@.len(),
        ensures
            forall|n: Node<K, V>|
                #![trigger n.contents(h)]
                #![trigger n.wf(h)]
                n.kvs@ == self.kvs@.update(j, n.kvs@[j]) && n.len == self.len && n.edges@
                    == self.edges@ ==> n.wf(h) && n.contents(h) == self.contents(h).update(
                    self.pos(h, j) + self.edges@[j].len,
                    n.kvs@[j],
                ),
    {
        self.lemma_around(h, j);
        assert forall|n: Node<K, V>|
            n.kvs@ == self.kvs@.update(j, n.kvs@[j]) && n.len == self.len && n.edges@
                == self.edges@ implies #[trigger] n.wf(h) && n.contents(h) == self.contents(
            h,
        ).update(self.pos(h, j) + self.edges@[j].len, n.kvs@[j]) by {
            assert(n.parts(h) =~= self.parts(h));
            lemma_replace_kv(self.kvs@, self.parts(h), j, n.kvs@[j]);
            assert(n.contents(h) =~= self.contents(h).update(
                self.pos(h, j) + self.edges@[j].len,
                n.kvs@[j],
            ));
        }
    }

    /// Pair `j` of the node sits right after the stretch of child `j` (right
    /// after pair `j - 1`, in a leaf).
    pub proof fn lemma_kv_place(self, h: nat, j: int)
        requires
            self.wf(h),
            0 <= j < self.kvs@.len(),
        ensures
            h == 0 ==> self.contents(h)[j] == self.kvs@[j] && j < self.len,
            h > 0 ==> self.contents(h)[self.pos(h, j) + self.edges@[j].len] == self.kvs@[j]
                && self.pos(h, j) + self.edges@[j].len < self.len,
    {
        if h > 0 {
            self.lemma_around(h, j);
        }
    }

    /// The neighbours of the stretch of child `j` of an internal node: pair
    /// `j - 1` before it, pair `j` after it.
    pub proof fn lemma_edge_neighbours(self, h: nat, j: int)
        requires
            self.wf(h),
            h > 0,
            0 <= j < self.edges@.len(),
        ensures
            self.pos(h, j) + self.edges@[j].len <= self.len,
            j > 0 ==> self.pos(h, j) >= 1 && self.contents(h)[self.pos(h, j) - 1]
                == self.kvs@[j - 1],
            j < self.kvs@.len() ==> self.contents(h)[self.pos(h, j) + self.edges@[j].len]
                == self.kvs@[j],
            forall|x: int|
                0 <= x < self.edges@[j].len ==> self.contents(h)[self.pos(h, j) + x]
                    == #[trigger] self.edges@[j].contents((h - 1) as nat)[x],
    {
        self.lemma_around(h, j);
        let u = upto(self.kvs@, self.parts(h), j);
        if j > 0 {
            assert(u == upto(self.kvs@, self.parts(h), j - 1) + self.parts(h)[j - 1] + seq![
                self.kvs@[j - 1],
            ]);
            assert(u[u.len() - 1] == self.kvs@[j - 1]);
        }
    }

    /// For an internal node: the child `j` whose stretch holds the place `i`
    /// (a pair, or a gap between pairs), and where that stretch starts. A
    /// place at the very end of the stretch, short of the end of the node, is
    /// pair `j` of the node itself when `i` names a pair.
    fn locate(&self, i: usize, Ghost(h): Ghost<nat>) -> (r: (usize, usize))
        requires
            self.wf(h),
            h > 0,
            i <= self.len,
        ensures
            r.0 < self.edges@.len(),
            r.1 == self.pos(h, r.0 as int),
            r.1 <= i <= r.1 + self.edges@[r.0 as int].len,
            i == r.1 + self.edges@[r.0 as int].len && i < self.len ==> r.0 < self.kvs@.len(),
    {
        let mut j: usize = 0;
        let mut a: usize = 0;
        proof {
            assert(upto(self.kvs@, self.parts(h), 0).len() == 0);
        }
        loop
            invariant
                self.wf(h),
                h > 0,
                i <= self.len,
                j < self.edges@.len(),
                a == self.pos(h, j as int),
                a <= i,
            decreases self.edges@.len() - j,
        {
            proof {
                self.lemma_around(h, j as int);
            }
            let cl = self.edges[j].len;
            if i <= a + cl {
                return (j, a);
            }
            a = a + cl + 1;
            j = j + 1;
        }
    }

    /// The pair at position `i` of the subtree.
    pub fn kv_ref(&self, i: usize, Ghost(h): Ghost<nat>) -> (kv: &(K, V))
        requires
            self.wf(h),
            i < self.len,
        ensures
            *kv == self.contents(h)[i as int],
        decreases h,
    {
        if self.edges.len() == 0 {
            &self.kvs[i]
        } else {
            let (j, a) = self.locate(i, Ghost(h));
            proof {
                self.lemma_around(h, j as int);
            }
            if i < a + self.edges[j].len {
                self.edges[j].kv_ref(i - a, Ghost((h - 1) as nat))
            } else {
                &self.kvs[j]
            }
        }
    }

    /// Mutable borrows of the key and the value at position `i` of the subtree.
    pub fn kv_mut(&mut self, i: usize, Ghost(h): Ghost<nat>) -> (kv: (&mut K, &mut V))
        requires
            old(self).wf(h),
            i < old(self).len,
        ensures
            *kv.0 == old(self).contents(h)[i as int].0,
            *kv.1 == old(self).contents(h)[i as int].1,
            final(self).wf(h),
            final(self).len == old(self).len,
            final(self).contents(h) == old(self).contents(h).update(
                i as int,
                (*final(kv.0), *final(kv.1)),
            ),
            final(self).kvs@.len() == old(self).kvs@.len(),
            old(self).filled(h) ==> final(self).filled(h),
        decreases h,
    {
        if self.edges.len() == 0 {
            let kv = &mut self.kvs[i];
            (&mut kv.0, &mut kv.1)
        } else {
            let (j, a) = self.locate(i, Ghost(h));
            proof {
                self.lemma_around(h, j as int);
            }
            if i < a + self.edges[j].len {
                proof {
                    self.lemma_child_replaced(h, j as int);
                    self.lemma_child_replaced_filled(h, j as int);
                }
                let child = &mut self.edges[j];
                child.kv_mut(i - a, Ghost((h - 1) as nat))
            } else {
                proof {
                    self.lemma_kv_replaced(h, j as int);
                }
                let kv = &mut self.kvs[j];
                (&mut kv.0, &mut kv.1)
            }
        }
    }

    /// Counts the pairs of an internal node's subtree from its children's
    /// counts, whatever its own count says.
    fn count(&self, Ghost(h): Ghost<nat>) -> (n: usize)
        requires
            h > 0,
            self.edges@.len() == self.kvs@.len() + 1,
            forall|k: int| 0 <= k < self.edges@.len() ==> (#[trigger] self.edges@[k]).wf((h - 1) as nat),
            self.contents(h).len() <= usize::MAX,
        ensures
            n == self.contents(h).len(),
    {
        let mut acc: usize = 0;
        let mut j: usize = 0;
        let n = self.kvs.len();
        while j < n
            invariant
                h > 0,
                n == self.kvs@.len(),
                self.edges@.len() == self.kvs@.len() + 1,
                forall|k: int| 0 <= k < self.edges@.len() ==> (#[trigger] self.edges@[k]).wf((h - 1) as nat),
                self.contents(h).len() <= usize::MAX,
                j <= n,
                acc == upto(self.kvs@, self.parts(h), j as int).len(),
            decreases n - j,
        {
            proof {
                lemma_decompose(self.kvs@, self.parts(h), j as int + 1);
                assert(self.edges@[j as int].wf((h - 1) as nat));
            }
            acc = acc + self.edges[j].len + 1;
            j = j + 1;
        }
        proof {
            lemma_decompose(self.kvs@, self.parts(h), n as int);
            assert(self.edges@[n as int].wf((h - 1) as nat));
        }
        acc + self.edges[n].len
    }

    /// Splits a node that holds one pair too many into itself (the left half),
    /// the middle pair and a new right sibling.
    fn split(&mut self, Ghost(h): Ghost<nat>) -> (r: ((K, V), Node<K, V>))
        requires
            old(self).kvs@.len() == CAPACITY + 1,
            old(self).len == old(self).contents(h).len(),
            h == 0 ==> old(self).edges@.len() == 0,
            h > 0 ==> old(self).edges@.len() == old(self).kvs@.len() + 1,
            h > 0 ==> forall|k: int|
                0 <= k < old(self).edges@.len() ==> (#[trigger] old(self).edges@[k]).wf(
                    (h - 1) as nat,
                ),
            old(self).filled(h),
        ensures
            final(self).wf(h),
            r.1.wf(h),
            final(self).filled(h),
            r.1.filled(h),
            final(self).kvs@.len() == B,
            r.1.kvs@.len() == B - 1,
            final(self).contents(h) + seq![r.0] + r.1.contents(h) == old(self).contents(h),
    {
        let ghost old_kvs = self.kvs@;
        let ghost old_edges = self.edges@;
        let right_kvs = self.kvs.split_off(B + 1);
        let mid = self.kvs.pop().unwrap();
        if self.edges.len() == 0 {
            let right_len = right_kvs.len();
            let right = Node { kvs: right_kvs, edges: Vec::new(), len: right_len };
            proof {
                assert(h == 0);
                assert(self.kvs@ =~= old_kvs.take(6));
                assert(old_kvs =~= self.kvs@ + seq![mid] + right.kvs@);
            }
            self.len = self.len - 1 - right_len;
            assert(self.wf(h));
            assert(right.wf(h));
            (mid, right)
        } else {
            let right_edges = self.edges.split_off(B + 1);
            let mut right = Node { kvs: right_kvs, edges: right_edges, len: 0 };
            proof {
                assert(h > 0);
                let parts = Seq::new(
                    old_edges.len(),
                    |i: int| old_edges[i].contents((h - 1) as nat),
                );
                assert(self.kvs@ =~= old_kvs.take(6));
                assert(right.kvs@ =~= old_kvs.skip(7));
                assert(self.parts(h) =~= parts.take(7));
                assert(right.parts(h) =~= parts.skip(7));
                assert(old(self).parts(h) =~= parts);
                lemma_split(old_kvs, parts, 6);
                assert(forall|k: int| 0 <= k < right.edges@.len() ==> right.edges@[k] == old_edges[k + 7]);
                assert forall|k: int| 0 <= k < right.edges@.len() implies (#[trigger] right.edges@[k]).wf((h - 1) as nat) by {
                    assert(right.edges@[k] == old_edges[k + 7]);
                }
                assert forall|k: int| 0 <= k < self.edges@.len() implies (#[trigger] self.edges@[k]).wf((h - 1) as nat) by {
                    assert(self.edges@[k] == old_edges[k]);
                }
                assert forall|k: int| 0 <= k < self.edges@.len() implies (#[trigger] self.edges@[
                    k
                ]).kvs@.len() >= MIN_LEN && self.edges@[k].filled((h - 1) as nat) by {
                    assert(self.edges@[k] == old_edges[k]);
                }
                assert forall|k: int| 0 <= k < right.edges@.len() implies (#[trigger] right.edges@[
                    k
                ]).kvs@.len() >= MIN_LEN && right.edges@[k].filled((h - 1) as nat) by {
                    assert(right.edges@[k] == old_edges[k + 7]);
                }
            }
            let right_len = right.count(Ghost(h));
            right.len = right_len;
            self.len = self.len - 1 - right_len;
            proof {
                assert(self.contents(h) == from(self.kvs@, self.parts(h), 0));
                assert(right.contents(h) == from(right.kvs@, right.parts(h), 0));
                assert(old(self).contents(h) == from(old(self).kvs@, old(self).parts(h), 0));
            }
            assert(self.contents(h) + seq![mid] + right.contents(h) == old(self).contents(h));
            assert(self.wf(h));
            assert(right.wf(h));
            (mid, right)
        }
    }

    /// Inserts `kv` at place `i` of the subtree (the gap before the pair now
    /// at `i`, in tree order), splitting nodes that overflow on the way back
    /// up. A split of this node itself is handed back as the middle pair and
    /// the new right sibling.
    pub fn insert_recursing(&mut self, i: usize, kv: (K, V), Ghost(h): Ghost<nat>) -> (r: Option<
        ((K, V), Node<K, V>),
    >)
        requires
            old(self).wf(h),
            i <= old(self).len,
            old(self).len < usize::MAX,
            old(self).filled(h),
        ensures
            final(self).wf(h),
            final(self).filled(h),
            match r {
                None => {
                    &&& final(self).contents(h) == old(self).contents(h).insert(i as int, kv)
                    &&& final(self).kvs@.len() >= old(self).kvs@.len()
                },
                Some((mid, right)) => {
                    &&& old(self).kvs@.len() == CAPACITY
                    &&& right.wf(h)
                    &&& right.filled(h)
                    &&& final(self).kvs@.len() >= MIN_LEN
                    &&& right.kvs@.len() >= MIN_LEN
                    &&& final(self).contents(h) + seq![mid] + right.contents(h) == old(
                        self,
                    ).contents(h).insert(i as int, kv)
                },
            },
        decreases h,
    {
        if self.edges.len() == 0 {
            self.kvs.insert(i, kv);
            self.len = self.len + 1;
            if self.kvs.len() > CAPACITY {
                Some(self.split(Ghost(h)))
            } else {
                None
            }
        } else {
            let (j, a) = self.locate(i, Ghost(h));
            proof {
                self.lemma_around(h, j as int);
            }
            let ghost before = *self;
            let ghost u = upto(before.kvs@, before.parts(h), j as int);
            let ghost t = after(before.kvs@, before.parts(h), j as int);
            let ghost c = before.parts(h)[j as int];
            let res = self.edges[j].insert_recursing(i - a, kv, Ghost((h - 1) as nat));
            self.len = self.len + 1;
            proof {
                assert(u + c.insert(i - a, kv) + t =~= before.contents(h).insert(i as int, kv));
            }
            match res {
                None => {
                    proof {
                        before.lemma_replace_child(*self, h, j as int);
                    }
                    None
                },
                Some((mid, right)) => {
                    let ghost left = self.edges@[j as int];
                    self.kvs.insert(j, mid);
                    self.edges.insert(j + 1, right);
                    proof {
                        before.lemma_split_child(*self, h, j as int, left, mid, right);
                        assert(u + (left.contents((h - 1) as nat) + seq![mid] + right.contents(
                            (h - 1) as nat,
                        )) + t =~= u + c.insert(i - a, kv) + t);
                    }
                    if self.kvs.len() > CAPACITY {
                        Some(self.split(Ghost(h)))
                    } else {
                        None
                    }
                },
            }
        }
    }

    /// Removes and returns the pair at position `i` of the subtree. A pair of
    /// an internal node is replaced by its predecessor, which is taken out of
    /// the child before it. A child left short of pairs is then refilled from
    /// a sibling or merged with it.
    pub fn remove_kv(&mut self, i: usize, Ghost(h): Ghost<nat>) -> (kv: (K, V))
        requires
            old(self).wf(h),
            old(self).filled(h),
            h > 0 ==> old(self).kvs@.len() >= 1,
            i < old(self).len,
        ensures
            final(self).wf(h),
            final(self).filled(h),
            final(self).kvs@.len() + 1 >= old(self).kvs@.len(),
            kv == old(self).contents(h)[i as int],
            final(self).contents(h) == old(self).contents(h).remove(i as int),
        decreases h, 1nat,
    {
        if self.edges.len() == 0 {
            let kv = self.kvs.remove(i);
            self.len = self.len - 1;
            kv
        } else {
            let (j, a) = self.locate(i, Ghost(h));
            proof {
                self.lemma_edge_neighbours(h, j as int);
            }
            proof {
                self.edges@[j as int].lemma_len_at_least_kvs(below(h));
            }
            if i < a + self.edges[j].len {
                self.remove_in_child(i, j, a, Ghost(h))
            } else {
                self.remove_at_pair(i, j, a, Ghost(h))
            }
        }
    }

    /// Removes position `i`, which lies inside the stretch of child `j`.
    fn remove_in_child(&mut self, i: usize, j: usize, a: usize, Ghost(h): Ghost<nat>) -> (kv: (
        K,
        V,
    ))
        requires
            old(self).wf(h),
            old(self).filled(h),
            h > 0,
            old(self).kvs@.len() >= 1,
            j < old(self).edges@.len(),
            a == old(self).pos(h, j as int),
            a <= i < a + old(self).edges@[j as int].len,
        ensures
            final(self).wf(h),
            final(self).filled(h),
            final(self).kvs@.len() + 1 >= old(self).kvs@.len(),
            kv == old(self).contents(h)[i as int],
            final(self).contents(h) == old(self).contents(h).remove(i as int),
        decreases h, 0nat,
    {
        proof {
            self.lemma_around(h, j as int);
            self.lemma_edge_neighbours(h, j as int);
            assert(self.edges@[j as int].kvs@.len() >= MIN_LEN);
            assert(self.edges@[j as int].filled(below(h)));
        }
        let ghost before = *self;
        let ghost u = upto(before.kvs@, before.parts(h), j as int);
        let ghost t = after(before.kvs@, before.parts(h), j as int);
        let ghost c = before.parts(h)[j as int];
        let kv = self.edges[j].remove_kv(i - a, Ghost(below(h)));
        self.len = self.len - 1;
        proof {
            before.lemma_replace_child(*self, h, j as int);
            assert(u + c.remove(i - a) + t =~= before.contents(h).remove(i as int));
        }
        self.handle_underfull_child(j, Ghost(h));
        kv
    }

    /// Removes position `i`, which is pair `j` of this internal node, putting
    /// its predecessor from the non-empty child `j` in its place.
    fn remove_at_pair(&mut self, i: usize, j: usize, a: usize, Ghost(h): Ghost<nat>) -> (kv: (
        K,
        V,
    ))
        requires
            old(self).wf(h),
            old(self).filled(h),
            h > 0,
            j < old(self).kvs@.len(),
            a == old(self).pos(h, j as int),
            i == a + old(self).edges@[j as int].len,
            old(self).edges@[j as int].len > 0,
        ensures
            final(self).wf(h),
            final(self).filled(h),
            final(self).kvs@.len() + 1 >= old(self).kvs@.len(),
            kv == old(self).contents(h)[i as int],
            final(self).contents(h) == old(self).contents(h).remove(i as int),
        decreases h, 0nat,
    {
        proof {
            self.lemma_around(h, j as int);
            self.lemma_kv_place(h, j as int);
            assert(self.edges@[j as int].kvs@.len() >= MIN_LEN);
            assert(self.edges@[j as int].filled(below(h)));
        }
        let ghost before = *self;
        let ghost c = before.parts(h)[j as int];
        let cl = self.edges[j].len;
        let pred = self.edges[j].remove_kv(cl - 1, Ghost(below(h)));
        self.len = self.len - 1;
        let ghost middle = *self;
        proof {
            before.lemma_replace_child(middle, h, j as int);
            lemma_upto_frame(before.kvs@, before.parts(h), middle.kvs@, middle.parts(h), j as int);
            middle.lemma_around(h, j as int);
            assert(middle.parts(h) =~= before.parts(h).update(j as int, c.remove(cl - 1)));
        }
        let mut kv = pred;
        core::mem::swap(&mut self.kvs[j], &mut kv);
        proof {
            middle.lemma_replace_kv_at(*self, h, j as int);
            assert(before.kvs@.skip(j + 1) =~= middle.kvs@.skip(j + 1));
            assert(before.parts(h).skip(j + 1) =~= middle.parts(h).skip(j + 1));
            lemma_from_frame(before.kvs@, before.parts(h), j + 1, middle.kvs@, middle.parts(h), j + 1);
            assert(kv == before.kvs@[j as int]);
            assert(after(before.kvs@, before.parts(h), j as int) =~= seq![kv] + from(
                middle.kvs@,
                middle.parts(h),
                j as int + 1,
            ));
            assert(self.contents(h) =~= before.contents(h).remove(i as int));
            assert(self.edges@ == middle.edges@);
            assert(self.almost_filled(h, j as int));
        }
        self.handle_underfull_child(j, Ghost(h));
        kv
    }

    /// Appends `mid` and then everything of `right`, a sibling of the same
    /// height, to this node.
    fn merge_with(&mut self, mid: (K, V), right: Node<K, V>, Ghost(h): Ghost<nat>)
        requires
            old(self).wf(h),
            right.wf(h),
            old(self).kvs@.len() + 1 + right.kvs@.len() <= CAPACITY,
            old(self).len + 1 + right.len <= usize::MAX,
            old(self).filled(h),
            right.filled(h),
        ensures
            final(self).wf(h),
            final(self).contents(h) == old(self).contents(h) + seq![mid] + right.contents(h),
            final(self).filled(h),
            final(self).kvs@.len() == old(self).kvs@.len() + 1 + right.kvs@.len(),
    {
        let ghost lk = self.kvs@;
        let ghost lp = self.parts(h);
        let ghost rp = right.parts(h);
        let ghost le = self.edges@;
        let ghost right0 = right;
        let mut right = right;
        let ghost rk = right.kvs@;
        let ghost re = right.edges@;
        let ghost rc = right.contents(h);
        self.kvs.push(mid);
        self.kvs.append(&mut right.kvs);
        self.edges.append(&mut right.edges);
        self.len = self.len + 1 + right.len;
        proof {
            assert(self.kvs@ =~= lk + seq![mid] + rk);
            if h == 0 {
                assert(self.contents(h) =~= old(self).contents(h) + seq![mid] + rc);
            } else {
                let m = lk.len() as int;
                assert(self.edges@ =~= le + re);
                assert(self.parts(h) =~= lp + rp);
                lemma_split(self.kvs@, self.parts(h), m);
                assert(self.kvs@.take(m) =~= lk);
                assert(self.parts(h).take(m + 1) =~= lp);
                assert(self.kvs@.skip(m + 1) =~= rk);
                assert(self.parts(h).skip(m + 1) =~= rp);
                assert forall|k: int| 0 <= k < self.edges@.len() implies (#[trigger] self.edges@[
                    k
                ]).wf((h - 1) as nat) by {
                    if k < le.len() {
                        assert(self.edges@[k] == le[k]);
                        assert(old(self).edges@[k].wf((h - 1) as nat));
                    } else {
                        assert(self.edges@[k] == re[k - le.len()]);
                        assert(right0.edges@[k - le.len()].wf((h - 1) as nat));
                    }
                }
                assert forall|k: int| 0 <= k < self.edges@.len() implies (#[trigger] self.edges@[
                    k
                ]).kvs@.len() >= MIN_LEN && self.edges@[k].filled((h - 1) as nat) by {
                    if k < le.len() {
                        assert(self.edges@[k] == old(self).edges@[k]);
                    } else {
                        assert(self.edges@[k] == right0.edges@[k - le.len()]);
                    }
                }
            }
        }
    }

    /// Takes the last pair, and for an internal node the last child, out of
    /// a node with at least one pair.
    fn pop_last(&mut self, Ghost(h): Ghost<nat>) -> (r: ((K, V), Option<Node<K, V>>))
        requires
            old(self).wf(h),
            old(self).kvs@.len() > 0,
            old(self).filled(h),
        ensures
            final(self).wf(h),
            final(self).filled(h),
            h > 0 ==> (r.1 matches Some(e) && e.filled((h - 1) as nat) && e.kvs@.len() >= MIN_LEN),
            final(self).kvs@.len() + 1 == old(self).kvs@.len(),
            h == 0 ==> r.1 is None && old(self).contents(h) == final(self).contents(h) + seq![
                r.0,
            ],
            h > 0 ==> (r.1 matches Some(e) && e.wf((h - 1) as nat) && old(self).contents(h)
                == final(self).contents(h) + seq![r.0] + e.contents((h - 1) as nat)),
    {
        let ghost ok = self.kvs@;
        let ghost op = self.parts(h);
        let kv = self.kvs.pop().unwrap();
        if self.edges.len() == 0 {
            self.len = self.len - 1;
            proof {
                assert(h == 0);
                assert(ok =~= self.kvs@ + seq![kv]);
            }
            (kv, None)
        } else {
            let e = self.edges.pop().unwrap();
            proof {
                assert(h > 0);
                let n = ok.len() - 1;
                assert(old(self).edges@[n + 1].wf((h - 1) as nat));
                lemma_split(ok, op, n);
                assert(ok.take(n) =~= self.kvs@);
                assert(self.parts(h) =~= op.take(n + 1));
                assert(ok.skip(n + 1) =~= Seq::<(K, V)>::empty());
                assert(op.skip(n + 1) =~= seq![e.contents((h - 1) as nat)]);
                assert(from(ok.skip(n + 1), op.skip(n + 1), 0) == e.contents((h - 1) as nat));
                assert forall|k: int| 0 <= k < self.edges@.len() implies (#[trigger] self.edges@[
                    k
                ]).wf((h - 1) as nat) && self.edges@[k].kvs@.len() >= MIN_LEN
                    && self.edges@[k].filled((h - 1) as nat) by {
                    assert(self.edges@[k] == old(self).edges@[k]);
                }
                assert(e == old(self).edges@[n + 1]);
            }
            self.len = self.len - 1 - e.len;
            proof {
                assert(old(self).contents(h) == from(ok, op, 0));
                assert(self.contents(h) == from(self.kvs@, self.parts(h), 0));
                assert(e.wf((h - 1) as nat));
                assert(self.wf(h));
            }
            (kv, Some(e))
        }
    }

    /// Takes the first pair, and for an internal node the first child, out of
    /// a node with at least one pair.
    fn pop_first(&mut self, Ghost(h): Ghost<nat>) -> (r: ((K, V), Option<Node<K, V>>))
        requires
            old(self).wf(h),
            old(self).kvs@.len() > 0,
            old(self).filled(h),
        ensures
            final(self).wf(h),
            final(self).filled(h),
            h > 0 ==> (r.1 matches Some(e) && e.filled((h - 1) as nat) && e.kvs@.len() >= MIN_LEN),
            final(self).kvs@.len() + 1 == old(self).kvs@.len(),
            h == 0 ==> r.1 is None && old(self).contents(h) == seq![r.0] + final(self).contents(
                h,
            ),
            h > 0 ==> (r.1 matches Some(e) && e.wf((h - 1) as nat) && old(self).contents(h)
                == e.contents((h - 1) as nat) + seq![r.0] + final(self).contents(h)),
    {
        let ghost ok = self.kvs@;
        let ghost op = self.parts(h);
        let kv = self.kvs.remove(0);
        if self.edges.len() == 0 {
            self.len = self.len - 1;
            proof {
                assert(h == 0);
                assert(ok =~= seq![kv] + self.kvs@);
            }
            (kv, None)
        } else {
            let e = self.edges.remove(0);
            proof {
                assert(h > 0);
                assert(old(self).edges@[0].wf((h - 1) as nat));
                lemma_split(ok, op, 0);
                assert(ok.take(0) =~= Seq::<(K, V)>::empty());
                assert(op.take(1) =~= seq![e.contents((h - 1) as nat)]);
                assert(from(ok.take(0), op.take(1), 0) == e.contents((h - 1) as nat));
                assert(ok.skip(1) =~= self.kvs@);
                assert(self.parts(h) =~= op.skip(1));
                assert forall|k: int| 0 <= k < self.edges@.len() implies (#[trigger] self.edges@[
                    k
                ]).wf((h - 1) as nat) && self.edges@[k].kvs@.len() >= MIN_LEN
                    && self.edges@[k].filled((h - 1) as nat) by {
                    assert(self.edges@[k] == old(self).edges@[k + 1]);
                }
                assert(e == old(self).edges@[0]);
            }
            self.len = self.len - 1 - e.len;
            proof {
                assert(old(self).contents(h) == from(ok, op, 0));
                assert(self.contents(h) == from(self.kvs@, self.parts(h), 0));
                assert(e.wf((h - 1) as nat));
                assert(self.wf(h));
            }
            (kv, Some(e))
        }
    }

    /// Puts `kv`, and for an internal node the child `edge` before it, in
    /// front of everything in a node with room for one more pair.
    fn push_front(&mut self, kv: (K, V), edge: Option<Node<K, V>>, Ghost(h): Ghost<nat>)
        requires
            old(self).wf(h),
            old(self).kvs@.len() < CAPACITY,
            h == 0 ==> edge is None,
            h > 0 ==> (edge matches Some(e) && e.wf((h - 1) as nat)),
            old(self).len + 1 + (if let Some(e) = edge {
                e.len as int
            } else {
                0
            }) <= usize::MAX,
            old(self).filled(h),
            h > 0 ==> (edge matches Some(e) && e.filled((h - 1) as nat) && e.kvs@.len() >= MIN_LEN),
        ensures
            final(self).wf(h),
            final(self).filled(h),
            final(self).kvs@.len() == old(self).kvs@.len() + 1,
            h == 0 ==> final(self).contents(h) == seq![kv] + old(self).contents(h),
            h > 0 ==> final(self).contents(h) == edge.unwrap().contents((h - 1) as nat) + seq![
                kv,
            ] + old(self).contents(h),
    {
        let ghost ok = self.kvs@;
        let ghost op = self.parts(h);
        self.kvs.insert(0, kv);
        match edge {
            None => {
                self.len = self.len + 1;
                proof {
                    if h > 0 {
                        assert(false);
                    }
                    assert(self.kvs@ =~= seq![kv] + ok);
                }
            },
            Some(e) => {
                let el = e.len;
                self.edges.insert(0, e);
                self.len = self.len + 1 + el;
                proof {
                    assert(h > 0);
                    let ec = e.contents((h - 1) as nat);
                    assert(self.parts(h) =~= seq![ec] + op);
                    lemma_split(self.kvs@, self.parts(h), 0);
                    assert(self.kvs@.take(0) =~= Seq::<(K, V)>::empty());
                    assert(self.parts(h).take(1) =~= seq![ec]);
                    assert(from(self.kvs@.take(0), self.parts(h).take(1), 0) == ec);
                    assert(self.kvs@.skip(1) =~= ok);
                    assert(self.parts(h).skip(1) =~= op);
                    assert forall|k: int| 0 <= k < self.edges@.len() implies (
                    #[trigger] self.edges@[k]).wf((h - 1) as nat) && self.edges@[k].kvs@.len()
                        >= MIN_LEN && self.edges@[k].filled((h - 1) as nat) by {
                        if k > 0 {
                            assert(self.edges@[k] == old(self).edges@[k - 1]);
                        } else {
                            assert(self.edges@[k] == e);
                        }
                    }
                }
            },
        }
    }

    /// Puts `kv`, and for an internal node the child `edge` after it, behind
    /// everything in a node with room for one more pair.
    fn push_back(&mut self, kv: (K, V), edge: Option<Node<K, V>>, Ghost(h): Ghost<nat>)
        requires
            old(self).wf(h),
            old(self).kvs@.len() < CAPACITY,
            h == 0 ==> edge is None,
            h > 0 ==> (edge matches Some(e) && e.wf((h - 1) as nat)),
            old(self).len + 1 + (if let Some(e) = edge {
                e.len as int
            } else {
                0
            }) <= usize::MAX,
            old(self).filled(h),
            h > 0 ==> (edge matches Some(e) && e.filled((h - 1) as nat) && e.kvs@.len() >= MIN_LEN),
        ensures
            final(self).wf(h),
            final(self).filled(h),
            final(self).kvs@.len() == old(self).kvs@.len() + 1,
            h == 0 ==> final(self).contents(h) == old(self).contents(h) + seq![kv],
            h > 0 ==> final(self).contents(h) == old(self).contents(h) + seq![kv]
                + edge.unwrap().contents((h - 1) as nat),
    {
        let ghost ok = self.kvs@;
        let ghost op = self.parts(h);
        self.kvs.push(kv);
        match edge {
            None => {
                self.len = self.len + 1;
                proof {
                    if h > 0 {
                        assert(false);
                    }
                }
            },
            Some(e) => {
                let el = e.len;
                self.edges.push(e);
                self.len = self.len + 1 + el;
                proof {
                    assert(h > 0);
                    let ec = e.contents((h - 1) as nat);
                    let n = ok.len() as int;
                    assert(self.parts(h) =~= op.push(ec));
                    lemma_split(self.kvs@, self.parts(h), n);
                    assert(self.kvs@.take(n) =~= ok);
                    assert(self.parts(h).take(n + 1) =~= op);
                    assert(self.kvs@.skip(n + 1) =~= Seq::<(K, V)>::empty());
                    assert(self.parts(h).skip(n + 1) =~= seq![ec]);
                    assert(from(self.kvs@.skip(n + 1), self.parts(h).skip(n + 1), 0) == ec);
                    assert forall|k: int| 0 <= k < self.edges@.len() implies (
                    #[trigger] self.edges@[k]).wf((h - 1) as nat) && self.edges@[k].kvs@.len()
                        >= MIN_LEN && self.edges@[k].filled((h - 1) as nat) by {
                        if k < n + 1 {
                            assert(self.edges@[k] == old(self).edges@[k]);
                        } else {
                            assert(self.edges@[k] == e);
                        }
                    }
                }
            },
        }
    }

    /// Merges children `p` and `p + 1` of an internal node, with pair `p`
    /// between them, into child `p`.
    fn merge_children(&mut self, p: usize, Ghost(h): Ghost<nat>)
        requires
            old(self).wf(h),
            h > 0,
            p < old(self).kvs@.len(),
            old(self).edges@[p as int].kvs@.len() + 1 + old(self).edges@[p + 1].kvs@.len()
                <= CAPACITY,
            old(self).almost_filled(h, p as int) || old(self).almost_filled(h, p + 1),
        ensures
            final(self).wf(h),
            final(self).contents(h) == old(self).contents(h),
            final(self).filled(h),
            final(self).kvs@.len() + 1 == old(self).kvs@.len(),
            final(self).len == old(self).len,
    {
        proof {
            self.lemma_around(h, p as int);
            self.lemma_around(h, p + 1);
        }
        let ghost before = *self;
        proof {
            assert(self.edges@[p as int].filled(below(h)));
            assert(self.edges@[p + 1].filled(below(h)));
        }
        let right = self.edges.remove(p + 1);
        let mid = self.kvs.remove(p);
        self.edges[p].merge_with(mid, right, Ghost(below(h)));
        proof {
            before.lemma_merge_children(*self, h, p as int);
        }
    }

    /// Moves the last pair of child `p` up into pair `p`, and pair `p` down to
    /// the front of child `p + 1`, with the last child of child `p` going along.
    fn steal_left(&mut self, p: usize, Ghost(h): Ghost<nat>)
        requires
            old(self).wf(h),
            h > 0,
            p < old(self).kvs@.len(),
            old(self).edges@[p as int].kvs@.len() > 0,
            old(self).edges@[p + 1].kvs@.len() < CAPACITY,
            old(self).almost_filled(h, p + 1),
            old(self).edges@[p as int].kvs@.len() > MIN_LEN,
        ensures
            final(self).wf(h),
            final(self).contents(h) == old(self).contents(h),
            final(self).filled(h),
            final(self).kvs@.len() == old(self).kvs@.len(),
            final(self).len == old(self).len,
    {
        proof {
            self.lemma_around(h, p as int);
            self.lemma_around(h, p + 1);
        }
        proof {
            assert(self.edges@[p as int].filled(below(h)));
            assert(self.edges@[p + 1].filled(below(h)));
        }
        let ghost before = *self;
        let (kv, edge) = self.edges[p].pop_last(Ghost(below(h)));
        let ghost x = kv;
        let ghost left1 = self.edges@[p as int];
        let mut kv = kv;
        core::mem::swap(&mut self.kvs[p], &mut kv);
        self.edges[p + 1].push_front(kv, edge, Ghost(below(h)));
        proof {
            let hb = below(h);
            let lc = before.parts(h)[p as int];
            let cc = before.parts(h)[p + 1];
            let a = self.edges@[p as int].contents(hb);
            let b = self.edges@[p + 1].contents(hb);
            assert(self.edges@[p as int] == left1);
            assert(self.kvs@[p as int] == x);
            assert(kv == before.kvs@[p as int]);
            if hb == 0 {
                assert(lc == a + seq![x]);
                assert(b == seq![kv] + cc);
            } else {
                let ec = edge.unwrap().contents(below(hb));
                assert(lc == a + seq![x] + ec);
                assert(b == ec + seq![kv] + cc);
            }
            assert(a + seq![self.kvs@[p as int]] + b =~= lc + seq![before.kvs@[p as int]] + cc);
            assert(self.edges@ =~= before.edges@.update(p as int, self.edges@[p as int]).update(
                p + 1,
                self.edges@[p + 1],
            ));
            assert(self.kvs@ =~= before.kvs@.update(p as int, self.kvs@[p as int]));
            before.lemma_reshape_window(*self, h, p as int);
        }
    }

    /// Moves the first pair of child `p + 1` up into pair `p`, and pair `p`
    /// down to the back of child `p`, with the first child of child `p + 1`
    /// going along.
    fn steal_right(&mut self, p: usize, Ghost(h): Ghost<nat>)
        requires
            old(self).wf(h),
            h > 0,
            p < old(self).kvs@.len(),
            old(self).edges@[p + 1].kvs@.len() > 0,
            old(self).edges@[p as int].kvs@.len() < CAPACITY,
            old(self).almost_filled(h, p as int),
            old(self).edges@[p + 1].kvs@.len() > MIN_LEN,
        ensures
            final(self).wf(h),
            final(self).contents(h) == old(self).contents(h),
            final(self).filled(h),
            final(self).kvs@.len() == old(self).kvs@.len(),
            final(self).len == old(self).len,
    {
        proof {
            self.lemma_around(h, p as int);
            self.lemma_around(h, p + 1);
        }
        proof {
            assert(self.edges@[p as int].filled(below(h)));
            assert(self.edges@[p + 1].filled(below(h)));
        }
        let ghost before = *self;
        let (kv, edge) = self.edges[p + 1].pop_first(Ghost(below(h)));
        let ghost x = kv;
        let ghost right1 = self.edges@[p + 1];
        let mut kv = kv;
        core::mem::swap(&mut self.kvs[p], &mut kv);
        self.edges[p].push_back(kv, edge, Ghost(below(h)));
        proof {
            let hb = below(h);
            let lc = before.parts(h)[p as int];
            let rc = before.parts(h)[p + 1];
            let a = self.edges@[p as int].contents(hb);
            let b = self.edges@[p + 1].contents(hb);
            assert(self.edges@[p + 1] == right1);
            assert(self.kvs@[p as int] == x);
            assert(kv == before.kvs@[p as int]);
            if hb == 0 {
                assert(rc == seq![x] + b);
                assert(a == lc + seq![kv]);
            } else {
                let ec = edge.unwrap().contents(below(hb));
                assert(rc == ec + seq![x] + b);
                assert(a == lc + seq![kv] + ec);
            }
            assert(a + seq![self.kvs@[p as int]] + b =~= lc + seq![before.kvs@[p as int]] + rc);
            assert(self.edges@ =~= before.edges@.update(p as int, self.edges@[p as int]).update(
                p + 1,
                self.edges@[p + 1],
            ));
            assert(self.kvs@ =~= before.kvs@.update(p as int, self.kvs@[p as int]));
            before.lemma_reshape_window(*self, h, p as int);
        }
    }

    /// After child `j` lost a pair: a child left with fewer than `MIN_LEN`
    /// pairs is merged with a sibling when both fit in one node, or else gets
    /// one pair from that sibling, through the parent pair between them.
    fn handle_underfull_child(&mut self, j: usize, Ghost(h): Ghost<nat>)
        requires
            old(self).wf(h),
            h > 0,
            j < old(self).edges@.len(),
            old(self).almost_filled(h, j as int),
            old(self).kvs@.len() >= 1,
        ensures
            final(self).wf(h),
            final(self).contents(h) == old(self).contents(h),
            final(self).filled(h),
            final(self).kvs@.len() + 1 >= old(self).kvs@.len(),
            final(self).len == old(self).len,
    {
        if self.edges[j].kvs.len() >= MIN_LEN {
            proof {
                self.lemma_almost_filled(h, j as int);
            }
            return ;
        }
        let p = if j > 0 {
            j - 1
        } else {
            0
        };
        proof {
            self.lemma_around(h, p as int);
            self.lemma_around(h, p + 1);
        }
        let left_len = self.edges[p].kvs.len();
        let right_len = self.edges[p + 1].kvs.len();
        if left_len + 1 + right_len <= CAPACITY {
            self.merge_children(p, Ghost(h));
        } else if j > 0 {
            self.steal_left(p, Ghost(h));
        } else {
            self.steal_right(p, Ghost(h));
        }
    }

    /// A new, empty leaf.
    pub fn new_leaf() -> (n: Self)
        ensures
            n.wf(0),
            n.contents(0) == Seq::<(K, V)>::empty(),
    {
        Node { kvs: Vec::new(), edges: Vec::new(), len: 0 }
    }
}

} // verus!
