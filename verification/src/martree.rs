//! An order-statistics B-tree over integer keys with cached subtree sizes,
//! kept beside the document model for throughput comparison against the
//! standard ordered set; it does not participate in the CRDT.

use vstd::multiset::Multiset;
use vstd::prelude::*;

verus! {

broadcast use vstd::seq_lib::group_to_multiset_ensures, vstd::multiset::group_multiset_axioms;

/// Minimum degree: every node but the root holds at least `T - 1` and at
/// most `2 * T - 1` keys.
pub const T: usize = 4;

/// One node: its keys, its children (empty exactly for a leaf), and the
/// cached number of keys in the whole subtree.
pub struct Node {
    pub keys: Vec<usize>,
    pub children: Vec<Node>,
    pub size: usize,
    pub is_leaf: bool,
}

/// A B-tree rooted at a single node.
pub struct MarTree {
    pub root: Node,
}

/// Every key in the subtree, with multiplicity.
pub open spec fn mkeys(n: Node) -> Multiset<usize>
    decreases n, 1int,
{
    if n.is_leaf {
        n.keys@.to_multiset()
    } else {
        n.keys@.to_multiset().add(mkeys_of(n.children@))
    }
}

/// Every key in a row of subtrees, with multiplicity.
pub open spec fn mkeys_of(s: Seq<Node>) -> Multiset<usize>
    decreases s, 0int,
{
    if s.len() == 0 {
        Multiset::empty()
    } else {
        mkeys(s[0]).add(mkeys_of(s.drop_first()))
    }
}

/// Height of a subtree: zero for a node without children.
pub open spec fn height(n: Node) -> nat
    decreases n, 1int,
{
    if n.children@.len() == 0 {
        0
    } else {
        1 + height_of(n.children@)
    }
}

/// Largest height in a row of subtrees.
pub open spec fn height_of(s: Seq<Node>) -> nat
    decreases s, 0int,
{
    if s.len() == 0 {
        0
    } else if height(s[0]) >= height_of(s.drop_first()) {
        height(s[0])
    } else {
        height_of(s.drop_first())
    }
}

/// Key `k` lies strictly between the node keys around child `j`.
pub open spec fn bounded(keys: Seq<usize>, j: int, k: usize) -> bool {
    &&& (j == 0 || keys[j - 1] < k)
    &&& (j == keys.len() || k < keys[j])
}

/// Structural well-formedness of a subtree, except for the minimum key
/// count of the node itself: the leaf flag matches the arity, the key count
/// stays within the B-tree maximum, keys are strictly sorted within the
/// node, every key of child `j` lies strictly between the node keys around
/// `j`, the cached size is the key count of the subtree, and every child
/// satisfies the same together with the non-root minimum.
pub open spec fn inv_core(n: Node) -> bool
    decreases n,
{
    &&& n.keys@.len() <= 2 * T - 1
    &&& (n.is_leaf ==> n.children@.len() == 0)
    &&& (!n.is_leaf ==> n.children@.len() == n.keys@.len() + 1)
    &&& (forall|a: int, b: int|
        0 <= a < b < n.keys@.len() ==> n.keys@[a] < n.keys@[b])
    &&& n.size == mkeys(n).len()
    &&& (forall|j: int|
        0 <= j < n.children@.len() ==> inv_core(#[trigger] n.children@[j])
            && n.children@[j].keys@.len() >= T - 1)
    &&& (forall|j: int, k: usize|
        0 <= j < n.children@.len() && #[trigger] mkeys(n.children@[j]).contains(k) ==> bounded(
            n.keys@,
            j,
            k,
        ))
    &&& (!n.is_leaf ==> forall|j: int|
        0 <= j < n.children@.len() ==> height(#[trigger] n.children@[j]) + 1 == height(n))
}

/// Well-formedness of a whole tree: the root may go below the minimum key
/// count, but an inner root keeps at least one key.
pub open spec fn tree_inv(t: MarTree) -> bool {
    &&& inv_core(t.root)
    &&& !t.root.is_leaf ==> t.root.keys@.len() >= 1
}

/// Splitting a row of subtrees splits its key multiset.
pub proof fn lemma_mkeys_of_concat(s1: Seq<Node>, s2: Seq<Node>)
    ensures
        mkeys_of(s1 + s2) == mkeys_of(s1).add(mkeys_of(s2)),
    decreases s1.len(),
{
    if s1.len() == 0 {
        assert(s1 + s2 =~= s2);
        assert(mkeys_of(s1).add(mkeys_of(s2)) =~= mkeys_of(s2));
    } else {
        assert((s1 + s2).drop_first() =~= s1.drop_first() + s2);
        lemma_mkeys_of_concat(s1.drop_first(), s2);
        assert(mkeys_of(s1 + s2) =~= mkeys_of(s1).add(mkeys_of(s2)));
    }
}

/// The key multiset of a row decomposes around any one subtree.
pub proof fn lemma_mkeys_of_split(s: Seq<Node>, i: int)
    requires
        0 <= i < s.len(),
    ensures
        mkeys_of(s) == mkeys_of(s.subrange(0, i)).add(
            mkeys(s[i]).add(mkeys_of(s.subrange(i + 1, s.len() as int))),
        ),
{
    assert(s =~= s.subrange(0, i) + (s.subrange(i, i + 1) + s.subrange(i + 1, s.len() as int)));
    lemma_mkeys_of_concat(
        s.subrange(0, i),
        s.subrange(i, i + 1) + s.subrange(i + 1, s.len() as int),
    );
    lemma_mkeys_of_concat(s.subrange(i, i + 1), s.subrange(i + 1, s.len() as int));
    let one = s.subrange(i, i + 1);
    assert(one[0] == s[i]);
    assert(one.drop_first().len() == 0);
    assert(one.drop_first() =~= Seq::<Node>::empty());
    assert(mkeys_of(Seq::<Node>::empty()) =~= Multiset::<usize>::empty());
    assert(mkeys_of(one) =~= mkeys(s[i]));
    assert(mkeys_of(s) =~= mkeys_of(s.subrange(0, i)).add(
        mkeys(s[i]).add(mkeys_of(s.subrange(i + 1, s.len() as int))),
    ));
}

/// Concatenating key rows adds their multisets.
pub proof fn lemma_to_multiset_concat(a: Seq<usize>, b: Seq<usize>)
    ensures
        (a + b).to_multiset() == a.to_multiset().add(b.to_multiset()),
    decreases b.len(),
{
    if b.len() == 0 {
        assert(a + b =~= a);
        assert(b.to_multiset() =~= Multiset::<usize>::empty());
        assert((a + b).to_multiset() =~= a.to_multiset().add(b.to_multiset()));
    } else {
        let b0 = b.drop_last();
        lemma_to_multiset_concat(a, b0);
        assert(a + b =~= (a + b0).push(b.last()));
        assert(b =~= b0.push(b.last()));
        assert((a + b).to_multiset() =~= a.to_multiset().add(b.to_multiset()));
    }
}

/// A subtree in a row is no taller than the row.
pub proof fn lemma_height_of_le(s: Seq<Node>, j: int)
    requires
        0 <= j < s.len(),
    ensures
        height(s[j]) <= height_of(s),
    decreases s.len(),
{
    if j == 0 {
    } else {
        lemma_height_of_le(s.drop_first(), j - 1);
        assert(s.drop_first()[j - 1] == s[j]);
    }
}

/// A child is strictly lower than its parent.
pub proof fn lemma_child_height(n: Node, j: int)
    requires
        0 <= j < n.children@.len(),
    ensures
        height(n.children@[j]) < height(n),
{
    lemma_height_of_le(n.children@, j);
}

/// A sub-row is no taller than the row.
pub proof fn lemma_height_of_subrange(s: Seq<Node>, a: int, b: int)
    requires
        0 <= a <= b <= s.len(),
    ensures
        height_of(s.subrange(a, b)) <= height_of(s),
{
    let sub = s.subrange(a, b);
    if sub.len() == 0 {
    } else {
        assert forall|j: int| 0 <= j < sub.len() implies height(sub[j]) <= height_of(s) by {
            lemma_height_of_le(s, a + j);
        }
        lemma_height_of_bound(sub, height_of(s));
    }
}

/// A row of subtrees each bounded in height is bounded in height.
pub proof fn lemma_height_of_bound(s: Seq<Node>, h: nat)
    requires
        forall|j: int| 0 <= j < s.len() ==> height(#[trigger] s[j]) <= h,
    ensures
        height_of(s) <= h,
    decreases s.len(),
{
    if s.len() > 0 {
        assert forall|j: int| 0 <= j < s.drop_first().len() implies height(
            #[trigger] s.drop_first()[j],
        ) <= h by {
            assert(s.drop_first()[j] == s[j + 1]);
        }
        lemma_height_of_bound(s.drop_first(), h);
    }
}

/// A strictly sorted key row holds each key at most once.
pub proof fn lemma_sorted_count(keys: Seq<usize>, k: usize)
    requires
        forall|a: int, b: int| 0 <= a < b < keys.len() ==> keys[a] < keys[b],
    ensures
        keys.to_multiset().count(k) <= 1,
{
    assert forall|i: int, j: int|
        0 <= i < keys.len() && 0 <= j < keys.len() && i != j implies keys[i] != keys[j] by {
        if i < j {
            assert(keys[i] < keys[j]);
        } else {
            assert(keys[j] < keys[i]);
        }
    }
    assert(keys.no_duplicates());
    keys.lemma_multiset_has_no_duplicates();
    if keys.to_multiset().count(k) > 1 {
        assert(keys.to_multiset().contains(k));
    }
}

/// A non-empty row of subtrees of one height has that height.
pub proof fn lemma_height_of_uniform(s: Seq<Node>, h: nat)
    requires
        s.len() >= 1,
        forall|j: int| 0 <= j < s.len() ==> height(#[trigger] s[j]) == h,
    ensures
        height_of(s) == h,
{
    lemma_height_of_le(s, 0);
    lemma_height_of_bound(s, h);
}

/// In a well-formed subtree, a node is a leaf exactly when its height is
/// zero.
pub proof fn lemma_leaf_height(n: Node)
    requires
        inv_core(n),
    ensures
        n.is_leaf <==> height(n) == 0,
{
    if !n.is_leaf {
        assert(n.children@.len() >= 1);
        lemma_height_of_le(n.children@, 0);
    }
}

/// In a well-formed subtree every key occurs at most once.
pub proof fn lemma_inv_distinct(n: Node, k: usize)
    requires
        inv_core(n),
    ensures
        mkeys(n).count(k) <= 1,
    decreases n, 1int,
{
    lemma_sorted_count(n.keys@, k);
    if n.is_leaf {
    } else {
        lemma_mkeys_of_count(n, n.children@, k, 0);
    }
}

/// Counting one key across the children of a well-formed node: at most one
/// child can hold it, and never together with the node itself.
proof fn lemma_mkeys_of_count(n: Node, s: Seq<Node>, k: usize, off: int)
    requires
        inv_core(n),
        !n.is_leaf,
        0 <= off,
        off + s.len() <= n.children@.len(),
        forall|j: int| 0 <= j < s.len() ==> s[j] == n.children@[off + j],
    ensures
        mkeys_of(s).count(k) <= 1,
        mkeys_of(s).count(k) >= 1 ==> n.keys@.to_multiset().count(k) == 0,
        mkeys_of(s).count(k) + n.keys@.to_multiset().count(k) <= 1,
    decreases n, 0int, s.len(),
{
    lemma_sorted_count(n.keys@, k);
    if s.len() == 0 {
    } else {
        assert(s[0] == n.children@[off]);
        lemma_inv_distinct(n.children@[off], k);
        lemma_mkeys_of_count(n, s.drop_first(), k, off + 1);
        if mkeys(s[0]).count(k) >= 1 {
            // the key sits strictly inside child `off`'s interval
            assert(mkeys(n.children@[off]).contains(k));
            assert(bounded(n.keys@, off, k));
            if n.keys@.to_multiset().count(k) >= 1 {
                assert(n.keys@.to_multiset().contains(k));
                assert(n.keys@.contains(k));
                let x = choose|x: int| 0 <= x < n.keys@.len() && n.keys@[x] == k;
                if x <= off - 1 {
                    assert(n.keys@[x] <= n.keys@[off - 1]);
                } else {
                    assert(n.keys@[off] <= n.keys@[x]);
                }
                assert(false);
            }
            if mkeys_of(s.drop_first()).count(k) >= 1 {
                lemma_mkeys_of_first_contains(n, s.drop_first(), k, off + 1);
                assert(false);
            }
        }
    }
}

/// If a row drawn from the children of a well-formed node holds a key, the
/// key lies in the interval of one of those children.
proof fn lemma_mkeys_of_first_contains(n: Node, s: Seq<Node>, k: usize, off: int)
    requires
        inv_core(n),
        !n.is_leaf,
        0 <= off,
        off + s.len() <= n.children@.len(),
        forall|j: int| 0 <= j < s.len() ==> s[j] == n.children@[off + j],
        mkeys_of(s).count(k) >= 1,
        off >= 1,
    ensures
        n.keys@[off - 1] < k,
    decreases s.len(),
{
    if mkeys(s[0]).count(k) >= 1 {
        assert(mkeys(n.children@[off]).contains(k));
        assert(bounded(n.keys@, off, k));
    } else {
        if s.len() == 1 {
            assert(s.drop_first().len() == 0);
            assert(mkeys_of(s.drop_first()) =~= Multiset::<usize>::empty());
            assert(mkeys_of(s).count(k) == 0);
            assert(false);
        }
        assert(mkeys_of(s.drop_first()).count(k) >= 1);
        lemma_mkeys_of_first_contains(n, s.drop_first(), k, off + 1);
        // the recursion placed the key above a later separator
        assert(off + s.len() <= n.keys@.len() + 1);
        assert(off < n.keys@.len());
        assert(n.keys@[off - 1] < n.keys@[off]);
        assert(n.keys@[off - 1] < k);
    }
}


/// Inserting a key into a row inserts it into the row's multiset.
pub proof fn lemma_to_multiset_insert(s: Seq<usize>, i: int, v: usize)
    requires
        0 <= i <= s.len(),
    ensures
        s.insert(i, v).to_multiset() == s.to_multiset().insert(v),
{
    let a = s.subrange(0, i);
    let b = s.subrange(i, s.len() as int);
    assert(s =~= a + b);
    assert(s.insert(i, v) =~= a + (seq![v] + b));
    lemma_to_multiset_concat(a, b);
    lemma_to_multiset_concat(a, seq![v] + b);
    lemma_to_multiset_concat(seq![v], b);
    assert(seq![v] =~= Seq::<usize>::empty().push(v));
    assert(Seq::<usize>::empty().to_multiset() =~= Multiset::<usize>::empty());
    assert(seq![v].to_multiset() =~= Multiset::<usize>::empty().insert(v));
    assert(s.insert(i, v).to_multiset() =~= s.to_multiset().insert(v));
}

/// Keys of one subtree of a well-formed node, seen from the node, lie in
/// the node's multiset.
pub proof fn lemma_mkeys_child_le(n: Node, j: int, k: usize)
    requires
        !n.is_leaf,
        0 <= j < n.children@.len(),
    ensures
        mkeys(n.children@[j]).count(k) <= mkeys(n).count(k),
{
    lemma_mkeys_of_split(n.children@, j);
}

impl Node {
    /// Number of keys stored in the whole subtree, counted directly.
    pub fn total_keys(&self) -> (r: usize)
        requires
            inv_core(*self),
        ensures
            r == mkeys(*self).len(),
        decreases height(*self),
    {
        let mut sum: usize = self.keys.len();
        proof {
            assert(self.keys@.to_multiset().len() == self.keys@.len());
            assert(mkeys_of(self.children@.subrange(0, 0)) =~= Multiset::<usize>::empty());
        }
        let n = self.children.len();
        let mut j: usize = 0;
        while j < n
            invariant
                inv_core(*self),
                n == self.children@.len(),
                0 <= j <= n,
                sum == self.keys@.to_multiset().len() + mkeys_of(
                    self.children@.subrange(0, j as int),
                ).len(),
                sum <= mkeys(*self).len(),
            decreases n - j,
        {
            proof {
                lemma_child_height(*self, j as int);
            }
            let t = self.children[j].total_keys();
            proof {
                let cs = self.children@;
                assert(cs.subrange(0, j + 1) =~= cs.subrange(0, j as int) + cs.subrange(
                    j as int,
                    j + 1,
                ));
                lemma_mkeys_of_concat(cs.subrange(0, j as int), cs.subrange(j as int, j + 1));
                assert(cs.subrange(j as int, j + 1)[0] == cs[j as int]);
                assert(cs.subrange(j as int, j + 1).drop_first() =~= Seq::<Node>::empty());
                assert(mkeys_of(Seq::<Node>::empty()) =~= Multiset::<usize>::empty());
                assert(mkeys_of(cs.subrange(j as int, j + 1)) =~= mkeys(cs[j as int]));
                // the prefix sum stays below the total
                assert(cs =~= cs.subrange(0, j + 1) + cs.subrange(j + 1, n as int));
                lemma_mkeys_of_concat(cs.subrange(0, j + 1), cs.subrange(j + 1, n as int));
                assert(mkeys_of(cs).len() == mkeys_of(cs.subrange(0, j + 1)).len() + mkeys_of(
                    cs.subrange(j + 1, n as int),
                ).len());
            }
            sum = sum + t;
            j = j + 1;
        }
        proof {
            if self.is_leaf {
            } else {
                assert(self.children@.subrange(0, n as int) =~= self.children@);
            }
        }
        sum
    }

    /// Key count of the subtree, recomputed from the cached sizes of the
    /// children.
    pub fn recompute_size(&self) -> (r: usize)
        requires
            forall|j: int|
                0 <= j < self.children@.len() ==> (#[trigger] self.children@[j]).size == mkeys(
                    self.children@[j],
                ).len(),
            self.is_leaf ==> self.children@.len() == 0,
            mkeys(*self).len() <= usize::MAX,
        ensures
            r == mkeys(*self).len(),
    {
        let mut sum: usize = self.keys.len();
        proof {
            assert(self.keys@.to_multiset().len() == self.keys@.len());
            assert(mkeys_of(self.children@.subrange(0, 0)) =~= Multiset::<usize>::empty());
        }
        let n = self.children.len();
        let mut j: usize = 0;
        while j < n
            invariant
                forall|m: int|
                    0 <= m < self.children@.len() ==> (#[trigger] self.children@[m]).size
                        == mkeys(self.children@[m]).len(),
                self.is_leaf ==> self.children@.len() == 0,
                mkeys(*self).len() <= usize::MAX,
                n == self.children@.len(),
                0 <= j <= n,
                sum == self.keys@.to_multiset().len() + mkeys_of(
                    self.children@.subrange(0, j as int),
                ).len(),
                sum <= mkeys(*self).len(),
            decreases n - j,
        {
            let t = self.children[j].size;
            proof {
                let cs = self.children@;
                assert(cs.subrange(0, j + 1) =~= cs.subrange(0, j as int) + cs.subrange(
                    j as int,
                    j + 1,
                ));
                lemma_mkeys_of_concat(cs.subrange(0, j as int), cs.subrange(j as int, j + 1));
                assert(cs.subrange(j as int, j + 1)[0] == cs[j as int]);
                assert(cs.subrange(j as int, j + 1).drop_first() =~= Seq::<Node>::empty());
                assert(mkeys_of(Seq::<Node>::empty()) =~= Multiset::<usize>::empty());
                assert(mkeys_of(cs.subrange(j as int, j + 1)) =~= mkeys(cs[j as int]));
                assert(cs =~= cs.subrange(0, j + 1) + cs.subrange(j + 1, n as int));
                lemma_mkeys_of_concat(cs.subrange(0, j + 1), cs.subrange(j + 1, n as int));
                assert(mkeys_of(cs).len() == mkeys_of(cs.subrange(0, j + 1)).len() + mkeys_of(
                    cs.subrange(j + 1, n as int),
                ).len());
            }
            sum = sum + t;
            j = j + 1;
        }
        proof {
            if self.is_leaf {
            } else {
                assert(self.children@.subrange(0, n as int) =~= self.children@);
            }
        }
        sum
    }
}



/// A row holds a key only if one of its subtrees does.
pub proof fn lemma_mkeys_of_contains(s: Seq<Node>, k: usize)
    requires
        mkeys_of(s).count(k) >= 1,
    ensures
        exists|j: int| 0 <= j < s.len() && mkeys(#[trigger] s[j]).contains(k),
    decreases s.len(),
{
    if s.len() == 0 {
        assert(mkeys_of(s) =~= Multiset::<usize>::empty());
        assert(false);
    } else if mkeys(s[0]).count(k) >= 1 {
        assert(mkeys(s[0]).contains(k));
    } else {
        lemma_mkeys_of_contains(s.drop_first(), k);
        let j = choose|j: int|
            0 <= j < s.drop_first().len() && mkeys(#[trigger] s.drop_first()[j]).contains(k);
        assert(s.drop_first()[j] == s[j + 1]);
        assert(mkeys(s[j + 1]).contains(k));
    }
}

impl Node {
    /// Split the full child at `i` around its median key: the child keeps
    /// the lower half, a new right sibling takes the upper half, and the
    /// median moves up into this node's keys. The subtree below this node
    /// keeps exactly the same keys.
    pub fn split_child(&mut self, i: usize)
        requires
            inv_core(*old(self)),
            !old(self).is_leaf,
            old(self).keys@.len() < 2 * T - 1,
            i < old(self).children@.len(),
            old(self).children@[i as int].keys@.len() == 2 * T - 1,
        ensures
            inv_core(*final(self)),
            final(self).is_leaf == old(self).is_leaf,
            final(self).size == old(self).size,
            final(self).keys@ == old(self).keys@.insert(
                i as int,
                old(self).children@[i as int].keys@[T as int - 1],
            ),
            final(self).children@.len() == old(self).children@.len() + 1,
            forall|j: int| 0 <= j < i ==> final(self).children@[j] == old(self).children@[j],
            forall|j: int|
                i + 2 <= j < final(self).children@.len() ==> final(self).children@[j] == old(
                    self,
                ).children@[j - 1],
            inv_core(final(self).children@[i as int]),
            inv_core(final(self).children@[i as int + 1]),
            final(self).children@[i as int].keys@.len() == T - 1,
            final(self).children@[i as int + 1].keys@.len() == T - 1,
            forall|k: usize|
                mkeys(final(self).children@[i as int]).contains(k) ==> k < old(
                    self,
                ).children@[i as int].keys@[T as int - 1] && mkeys(
                    old(self).children@[i as int],
                ).contains(k),
            forall|k: usize|
                mkeys(final(self).children@[i as int + 1]).contains(k) ==> k > old(
                    self,
                ).children@[i as int].keys@[T as int - 1] && mkeys(
                    old(self).children@[i as int],
                ).contains(k),
            mkeys(final(self).children@[i as int]).add(
                mkeys(final(self).children@[i as int + 1]),
            ).insert(old(self).children@[i as int].keys@[T as int - 1]) == mkeys(
                old(self).children@[i as int],
            ),
            mkeys(*final(self)) == mkeys(*old(self)),
            height(final(self).children@[i as int]) == height(old(self).children@[i as int]),
            height(final(self).children@[i as int + 1]) == height(
                old(self).children@[i as int],
            ),
            height(*final(self)) == height(*old(self)),
    {
        let ghost oldc = old(self).children@[i as int];
        let ghost midg = oldc.keys@[T as int - 1];
        proof {
            assert(inv_core(oldc));
        }
        let mut y = self.children.remove(i);
        let right_keys = y.keys.split_off(T);
        let mid = y.keys.pop().unwrap();
        proof {
            assert(y.keys@ =~= oldc.keys@.subrange(0, T as int - 1));
            assert(right_keys@ =~= oldc.keys@.subrange(T as int, 2 * T as int - 1));
            assert(mid == midg);
        }
        let right_children: Vec<Node> = if y.is_leaf {
            Vec::new()
        } else {
            y.children.split_off(T)
        };
        let mut right = Node {
            keys: right_keys,
            children: right_children,
            size: 0,
            is_leaf: y.is_leaf,
        };
        proof {
            // keys of the old child split as multisets
            let ks = oldc.keys@;
            assert(ks =~= ks.subrange(0, T as int - 1) + (seq![midg] + ks.subrange(
                T as int,
                2 * T as int - 1,
            )));
            lemma_to_multiset_concat(
                ks.subrange(0, T as int - 1),
                seq![midg] + ks.subrange(T as int, 2 * T as int - 1),
            );
            lemma_to_multiset_concat(seq![midg], ks.subrange(T as int, 2 * T as int - 1));
            assert(seq![midg] =~= Seq::<usize>::empty().push(midg));
            assert(Seq::<usize>::empty().to_multiset() =~= Multiset::<usize>::empty());
            if !y.is_leaf {
                assert(y.children@ =~= oldc.children@.subrange(0, T as int));
                assert(right.children@ =~= oldc.children@.subrange(
                    T as int,
                    2 * T as int,
                ));
                assert(oldc.children@ =~= oldc.children@.subrange(0, T as int)
                    + oldc.children@.subrange(T as int, 2 * T as int));
                lemma_mkeys_of_concat(
                    oldc.children@.subrange(0, T as int),
                    oldc.children@.subrange(T as int, 2 * T as int),
                );
            }
            assert(mkeys(y).add(mkeys(right)).insert(midg) =~= mkeys(oldc));
            assert(mkeys(y).len() <= mkeys(oldc).len());
            assert(mkeys(right).len() <= mkeys(oldc).len());
            assert(mkeys(oldc).len() == oldc.size);
            // each child of a piece is a child of the old child
            if !y.is_leaf {
                assert forall|j: int| 0 <= j < y.children@.len() implies #[trigger] y.children@[j]
                    == oldc.children@[j] by {
                    assert(oldc.children@.subrange(0, T as int)[j] == oldc.children@[j]);
                }
                assert forall|j: int|
                    0 <= j < right.children@.len() implies #[trigger] right.children@[j]
                    == oldc.children@[j + T] by {
                    assert(oldc.children@.subrange(T as int, 2 * T as int)[j]
                        == oldc.children@[j + T]);
                }
            }
            // key index links for the pieces
            assert forall|a: int| 0 <= a < T - 1 implies #[trigger] y.keys@[a] == oldc.keys@[a] by {
                assert(oldc.keys@.subrange(0, T as int - 1)[a] == oldc.keys@[a]);
            }
            assert forall|a: int| 0 <= a < T - 1 implies #[trigger] right.keys@[a] == oldc.keys@[a
                + T] by {
                assert(oldc.keys@.subrange(T as int, 2 * T as int - 1)[a] == oldc.keys@[a + T]);
            }
        }
        proof {
            assert forall|j: int| 0 <= j < y.children@.len() implies (#[trigger] y.children@[j]).size
                == mkeys(y.children@[j]).len() by {
                assert(y.children@[j] == oldc.children@[j]);
                assert(inv_core(oldc.children@[j]));
            }
            assert forall|j: int|
                0 <= j < right.children@.len() implies (#[trigger] right.children@[j]).size
                == mkeys(right.children@[j]).len() by {
                assert(right.children@[j] == oldc.children@[j + T]);
                assert(inv_core(oldc.children@[j + T]));
            }
        }
        let ys = y.recompute_size();
        y.size = ys;
        let rs = right.recompute_size();
        right.size = rs;
        self.keys.insert(i, mid);
        proof {
            // contains and bound facts for the lower piece
            assert forall|k: usize| mkeys(y).contains(k) implies k < midg && mkeys(
                oldc,
            ).contains(k) by {
                assert(mkeys(oldc).count(k) >= mkeys(y).count(k));
                if y.keys@.to_multiset().count(k) >= 1 {
                    assert(y.keys@.contains(k));
                    let a = choose|a: int| 0 <= a < y.keys@.len() && y.keys@[a] == k;
                    assert(oldc.keys@[a] == k);
                    assert(oldc.keys@[a] < oldc.keys@[T as int - 1]);
                } else {
                    assert(mkeys_of(y.children@).count(k) >= 1);
                    lemma_mkeys_of_contains(y.children@, k);
                    let j = choose|j: int|
                        0 <= j < y.children@.len() && mkeys(#[trigger] y.children@[j]).contains(
                            k,
                        );
                    assert(mkeys(oldc.children@[j]).contains(k));
                    assert(bounded(oldc.keys@, j, k));
                    assert(k < oldc.keys@[j]);
                    if j < T - 1 {
                        assert(oldc.keys@[j] < oldc.keys@[T as int - 1]);
                    }
                }
            }
            // contains and bound facts for the upper piece
            assert forall|k: usize| mkeys(right).contains(k) implies k > midg && mkeys(
                oldc,
            ).contains(k) by {
                assert(mkeys(oldc).count(k) >= mkeys(right).count(k));
                if right.keys@.to_multiset().count(k) >= 1 {
                    assert(right.keys@.contains(k));
                    let a = choose|a: int| 0 <= a < right.keys@.len() && right.keys@[a] == k;
                    assert(oldc.keys@[a + T] == k);
                    assert(oldc.keys@[T as int - 1] < oldc.keys@[a + T]);
                } else {
                    assert(mkeys_of(right.children@).count(k) >= 1);
                    lemma_mkeys_of_contains(right.children@, k);
                    let j = choose|j: int|
                        0 <= j < right.children@.len() && mkeys(
                            #[trigger] right.children@[j],
                        ).contains(k);
                    assert(mkeys(oldc.children@[j + T]).contains(k));
                    assert(bounded(oldc.keys@, j + T, k));
                    assert(oldc.keys@[j + T - 1] < k);
                    assert(oldc.keys@[T as int - 1] <= oldc.keys@[j + T - 1]);
                }
            }
            // heights of the pieces: same as the old child's
            if y.is_leaf {
                assert(height(y) == 0 && height(right) == 0 && height(oldc) == 0);
            } else {
                assert forall|j: int| 0 <= j < y.children@.len() implies height(
                    #[trigger] y.children@[j],
                ) + 1 == height(oldc) by {
                    assert(y.children@[j] == oldc.children@[j]);
                    assert(height(oldc.children@[j]) + 1 == height(oldc));
                }
                assert forall|j: int| 0 <= j < right.children@.len() implies height(
                    #[trigger] right.children@[j],
                ) + 1 == height(oldc) by {
                    assert(right.children@[j] == oldc.children@[j + T]);
                    assert(height(oldc.children@[j + T]) + 1 == height(oldc));
                }
                lemma_height_of_uniform(y.children@, (height(oldc) - 1) as nat);
                lemma_height_of_uniform(right.children@, (height(oldc) - 1) as nat);
                assert(height(y) == height(oldc));
                assert(height(right) == height(oldc));
            }
            // the pieces are well-formed
            assert(inv_core(y)) by {
                if !y.is_leaf {
                    assert forall|j: int| 0 <= j < y.children@.len() implies height(
                        #[trigger] y.children@[j],
                    ) + 1 == height(y) by {
                        assert(y.children@[j] == oldc.children@[j]);
                        assert(height(oldc.children@[j]) + 1 == height(oldc));
                    }
                    assert forall|j: int, k: usize|
                        0 <= j < y.children@.len() && #[trigger] mkeys(y.children@[j]).contains(
                            k,
                        ) implies bounded(y.keys@, j, k) by {
                        assert(mkeys(oldc.children@[j]).contains(k));
                        assert(bounded(oldc.keys@, j, k));
                    }
                }
            }
            assert(inv_core(right)) by {
                if !right.is_leaf {
                    assert forall|j: int| 0 <= j < right.children@.len() implies height(
                        #[trigger] right.children@[j],
                    ) + 1 == height(right) by {
                        assert(right.children@[j] == oldc.children@[j + T]);
                        assert(height(oldc.children@[j + T]) + 1 == height(oldc));
                    }
                    assert forall|j: int, k: usize|
                        0 <= j < right.children@.len() && #[trigger] mkeys(
                            right.children@[j],
                        ).contains(k) implies bounded(right.keys@, j, k) by {
                        assert(mkeys(oldc.children@[j + T]).contains(k));
                        assert(bounded(oldc.keys@, j + T, k));
                        if j > 0 {
                            assert(right.keys@[j - 1] == oldc.keys@[j + T - 1]);
                        }
                        if j < right.keys@.len() {
                            assert(right.keys@[j] == oldc.keys@[j + T]);
                        }
                    }
                }
            }
        }
        let ghost yg = y;
        let ghost rightg = right;
        self.children.insert(i, y);
        self.children.insert(i + 1, right);
        proof {
            let oldcs = old(self).children@;
            let cs = self.children@;
            assert(cs.len() == oldcs.len() + 1);
            assert forall|j: int| 0 <= j < i implies #[trigger] cs[j] == oldcs[j] by {
                assert(cs[j] == oldcs.remove(i as int).insert(i as int, yg)[j]);
                assert(oldcs.remove(i as int)[j] == oldcs[j]);
            }
            assert(cs[i as int] == yg);
            assert(cs[i as int + 1] == rightg);
            assert forall|j: int| i + 2 <= j < cs.len() implies #[trigger] cs[j] == oldcs[j
                - 1] by {
                assert(cs[j] == oldcs.remove(i as int).insert(i as int, yg)[j - 1]);
                assert(oldcs.remove(i as int).insert(i as int, yg)[j - 1] == oldcs.remove(
                    i as int,
                )[j - 2]);
                assert(oldcs.remove(i as int)[j - 2] == oldcs[j - 1]);
            }
            // the keys below this node are unchanged
            lemma_to_multiset_insert(old(self).keys@, i as int, midg);
            assert(cs =~= oldcs.subrange(0, i as int) + (seq![yg] + (seq![rightg]
                + oldcs.subrange(i as int + 1, oldcs.len() as int))));
            lemma_mkeys_of_concat(
                oldcs.subrange(0, i as int),
                seq![yg] + (seq![rightg] + oldcs.subrange(i as int + 1, oldcs.len() as int)),
            );
            lemma_mkeys_of_concat(
                seq![yg],
                seq![rightg] + oldcs.subrange(i as int + 1, oldcs.len() as int),
            );
            lemma_mkeys_of_concat(
                seq![rightg],
                oldcs.subrange(i as int + 1, oldcs.len() as int),
            );
            assert(seq![yg].drop_first() =~= Seq::<Node>::empty());
            assert(seq![rightg].drop_first() =~= Seq::<Node>::empty());
            assert(mkeys_of(Seq::<Node>::empty()) =~= Multiset::<usize>::empty());
            assert(mkeys_of(seq![yg]) =~= mkeys(yg));
            assert(mkeys_of(seq![rightg]) =~= mkeys(rightg));
            lemma_mkeys_of_split(oldcs, i as int);
            assert(mkeys(*self) =~= mkeys(*old(self)));
            // the whole node is well-formed again
            let ks = old(self).keys@;
            let cur = *self;
            assert(midg == oldc.keys@[T as int - 1]);
            assert(oldc.keys@.contains(midg));
            assert(oldc.keys@.to_multiset().contains(midg));
            assert(mkeys(oldc).contains(midg));
            assert(bounded(ks, i as int, midg));
            assert(cur.keys@ == ks.insert(i as int, midg));
            assert forall|a: int, b: int|
                0 <= a < b < cur.keys@.len() implies cur.keys@[a] < cur.keys@[b] by {
                assert(cur.keys@[i as int] == midg);
                if a < i {
                    assert(cur.keys@[a] == ks[a]);
                    if a < i - 1 {
                        assert(ks[a] < ks[i - 1]);
                    }
                }
                if a > i {
                    assert(cur.keys@[a] == ks[a - 1]);
                }
                if b < i {
                    assert(cur.keys@[b] == ks[b]);
                }
                if b > i {
                    assert(cur.keys@[b] == ks[b - 1]);
                    if b - 1 > i {
                        assert(ks[i as int] < ks[b - 1]);
                    }
                }
                if a < i && b > i && a < i - 1 && b - 1 > i {
                    assert(ks[a] < ks[i - 1] && ks[i - 1] < ks[i as int]);
                }
            }
            assert forall|j: int, k: usize|
                0 <= j < cur.children@.len() && #[trigger] mkeys(cur.children@[j]).contains(
                    k,
                ) implies bounded(cur.keys@, j, k) by {
                if j < i {
                    assert(cur.children@[j] == old(self).children@[j]);
                    assert(bounded(ks, j, k));
                    if j > 0 {
                        assert(cur.keys@[j - 1] == ks[j - 1]);
                    }
                    assert(cur.keys@[j] == ks[j]);
                } else if j == i {
                    assert(mkeys(cur.children@[i as int]).contains(k));
                    assert(k < midg && mkeys(oldc).contains(k));
                    assert(bounded(ks, i as int, k));
                    assert(cur.keys@[i as int] == midg);
                    if j > 0 {
                        assert(cur.keys@[j - 1] == ks[j - 1]);
                    }
                } else if j == i + 1 {
                    assert(mkeys(cur.children@[i as int + 1]).contains(k));
                    assert(k > midg && mkeys(oldc).contains(k));
                    assert(bounded(ks, i as int, k));
                    assert(cur.keys@[i as int] == midg);
                    if j < cur.keys@.len() {
                        assert(cur.keys@[j] == ks[j - 1]);
                    }
                } else {
                    assert(cur.children@[j] == old(self).children@[j - 1]);
                    assert(bounded(ks, j - 1, k));
                    assert(cur.keys@[j - 1] == ks[j - 2]);
                    if j < cur.keys@.len() {
                        assert(cur.keys@[j] == ks[j - 1]);
                    }
                }
            }
            assert forall|j: int| 0 <= j < cur.children@.len() implies inv_core(
                #[trigger] cur.children@[j],
            ) && cur.children@[j].keys@.len() >= T - 1 by {
                if j < i {
                    assert(cur.children@[j] == old(self).children@[j]);
                } else if j >= i + 2 {
                    assert(cur.children@[j] == old(self).children@[j - 1]);
                }
            }
            assert forall|j: int| 0 <= j < cur.children@.len() implies height(
                #[trigger] cur.children@[j],
            ) + 1 == height(*old(self)) by {
                if j < i {
                    assert(cur.children@[j] == old(self).children@[j]);
                    assert(height(old(self).children@[j]) + 1 == height(*old(self)));
                } else if j >= i + 2 {
                    assert(cur.children@[j] == old(self).children@[j - 1]);
                    assert(height(old(self).children@[j - 1]) + 1 == height(*old(self)));
                } else {
                    assert(height(oldc) + 1 == height(*old(self)));
                }
            }
            assert(height(cur) == height(*old(self))) by {
                lemma_height_of_uniform(cur.children@, (height(*old(self)) - 1) as nat);
                lemma_height_of_uniform(
                    old(self).children@,
                    (height(*old(self)) - 1) as nat,
                );
            }
            assert(inv_core(cur));
        }
    }
}



/// Replacing the child in whose interval a fresh key was inserted keeps the
/// node well-formed and adds exactly that key to the subtree.
proof fn lemma_replace_child(m: Node, m2: Node, idx: int, c2: Node, val: usize)
    requires
        inv_core(m),
        !m.is_leaf,
        0 <= idx < m.children@.len(),
        idx == 0 || m.keys@[idx - 1] < val,
        idx == m.keys@.len() || val < m.keys@[idx],
        inv_core(c2),
        c2.keys@.len() >= m.children@[idx].keys@.len(),
        c2.keys@.len() >= T - 1,
        height(c2) == height(m.children@[idx]),
        mkeys(c2) == mkeys(m.children@[idx]).insert(val),
        m2.keys@ == m.keys@,
        m2.is_leaf == m.is_leaf,
        m2.children@ == m.children@.update(idx, c2),
        m2.size == m.size + 1,
    ensures
        inv_core(m2),
        mkeys(m2) == mkeys(m).insert(val),
        height(m2) == height(m),
{
    assert(m.children@.len() >= 1);
    assert(m2.children@.len() == m.children@.len());
    assert forall|j: int| 0 <= j < m2.children@.len() implies height(#[trigger] m2.children@[j])
        + 1 == height(m) by {
        if j != idx {
            assert(m2.children@[j] == m.children@[j]);
        }
        assert(height(m.children@[j]) + 1 == height(m));
    }
    assert(height(m2) == height(m)) by {
        lemma_height_of_uniform(m2.children@, (height(m) - 1) as nat);
        lemma_height_of_uniform(m.children@, (height(m) - 1) as nat);
    }
    assert forall|j: int| 0 <= j < m2.children@.len() implies height(#[trigger] m2.children@[j])
        + 1 == height(m2) by {
        assert(height(m2.children@[j]) + 1 == height(m));
    }
    lemma_mkeys_of_split(m.children@, idx);
    lemma_mkeys_of_split(m2.children@, idx);
    assert(m2.children@[idx] == c2);
    assert(m2.children@.len() == m.children@.len());
    assert(m2.children@.subrange(0, idx) =~= m.children@.subrange(0, idx)) by {
        assert forall|j: int| 0 <= j < idx implies #[trigger] m2.children@.subrange(0, idx)[j]
            == m.children@.subrange(0, idx)[j] by {
            assert(m2.children@.subrange(0, idx)[j] == m2.children@[j]);
            assert(m.children@.subrange(0, idx)[j] == m.children@[j]);
            assert(m2.children@[j] == m.children@[j]);
        }
        assert(m2.children@.subrange(0, idx).len() == idx);
        assert(m.children@.subrange(0, idx).len() == idx);
    }
    let len = m.children@.len() as int;
    assert(m2.children@.subrange(idx + 1, len) =~= m.children@.subrange(idx + 1, len)) by {
        assert forall|j: int|
            0 <= j < len - idx - 1 implies #[trigger] m2.children@.subrange(idx + 1, len)[j]
            == m.children@.subrange(idx + 1, len)[j] by {
            assert(m2.children@.subrange(idx + 1, len)[j] == m2.children@[idx + 1 + j]);
            assert(m.children@.subrange(idx + 1, len)[j] == m.children@[idx + 1 + j]);
            assert(m2.children@[idx + 1 + j] == m.children@[idx + 1 + j]);
        }
        assert(m2.children@.subrange(idx + 1, len).len() == len - idx - 1);
        assert(m.children@.subrange(idx + 1, len).len() == len - idx - 1);
    }
    assert(mkeys(m2) =~= mkeys(m).insert(val));
    // every child keeps its interval; the new key sits in interval `idx`
    assert forall|j: int, k: usize|
        0 <= j < m2.children@.len() && #[trigger] mkeys(m2.children@[j]).contains(k) implies
    bounded(m2.keys@, j, k) by {
        if j == idx {
            if k == val {
            } else {
                assert(mkeys(m.children@[idx]).contains(k));
                assert(bounded(m.keys@, j, k));
            }
        } else {
            assert(m2.children@[j] == m.children@[j]);
            assert(mkeys(m.children@[j]).contains(k));
            assert(bounded(m.keys@, j, k));
        }
    }
    assert forall|j: int| 0 <= j < m2.children@.len() implies inv_core(
        #[trigger] m2.children@[j],
    ) && m2.children@[j].keys@.len() >= T - 1 by {
        if j != idx {
            assert(m2.children@[j] == m.children@[j]);
        }
    }
}


/// Inserting a fresh key at its sorted position keeps a key row strictly
/// sorted.
proof fn lemma_sorted_insert(ks: Seq<usize>, idx: int, val: usize)
    requires
        forall|a: int, b: int| 0 <= a < b < ks.len() ==> ks[a] < ks[b],
        0 <= idx <= ks.len(),
        forall|j: int| 0 <= j < idx ==> ks[j] < val,
        idx == ks.len() || val < ks[idx],
    ensures
        forall|a: int, b: int|
            0 <= a < b < ks.insert(idx, val).len() ==> ks.insert(idx, val)[a] < ks.insert(
                idx,
                val,
            )[b],
{
    let ks2 = ks.insert(idx, val);
    assert forall|a: int, b: int| 0 <= a < b < ks2.len() implies ks2[a] < ks2[b] by {
        assert(ks2[idx] == val);
        if a < idx {
            assert(ks2[a] == ks[a]);
        }
        if a > idx {
            assert(ks2[a] == ks[a - 1]);
        }
        if b < idx {
            assert(ks2[b] == ks[b]);
        }
        if b > idx {
            assert(ks2[b] == ks[b - 1]);
            if b - 1 > idx && idx < ks.len() {
                assert(ks[idx] < ks[b - 1]);
            }
        }
        if a < idx && b > idx && b - 1 > idx {
            if idx < ks.len() {
                assert(ks[a] < ks[b - 1]);
            } else {
                assert(false);
            }
        }
    }
}

impl Node {
    /// Insert a fresh key into a leaf at its sorted position.
    fn insert_leaf(&mut self, val: usize)
        requires
            inv_core(*old(self)),
            old(self).is_leaf,
            old(self).keys@.len() < 2 * T - 1,
            !mkeys(*old(self)).contains(val),
            mkeys(*old(self)).len() < usize::MAX,
        ensures
            inv_core(*final(self)),
            final(self).is_leaf,
            final(self).keys@.len() == old(self).keys@.len() + 1,
            mkeys(*final(self)) == mkeys(*old(self)).insert(val),
            height(*final(self)) == height(*old(self)),
    {
        let n = self.keys.len();
        let mut idx: usize = 0;
        while idx < n && self.keys[idx] < val
            invariant
                *self == *old(self),
                n == self.keys@.len(),
                0 <= idx <= n,
                forall|j: int| 0 <= j < idx ==> self.keys@[j] < val,
            decreases n - idx,
        {
            idx = idx + 1;
        }
        proof {
            assert(!self.keys@.to_multiset().contains(val));
            if idx < n && self.keys@[idx as int] == val {
                assert(self.keys@.contains(val));
                assert(self.keys@.to_multiset().contains(val));
            }
            lemma_to_multiset_insert(self.keys@, idx as int, val);
            lemma_sorted_insert(self.keys@, idx as int, val);
        }
        self.keys.insert(idx, val);
        self.size = self.size + 1;
    }
}

impl Node {
    /// Insert `val` into the subtree rooted at this node, which is not
    /// full; adds exactly the one key.
    #[verifier::rlimit(100)]
    pub fn insert_non_full(&mut self, val: usize)
        requires
            inv_core(*old(self)),
            old(self).keys@.len() < 2 * T - 1,
            !mkeys(*old(self)).contains(val),
            mkeys(*old(self)).len() < usize::MAX,
        ensures
            inv_core(*final(self)),
            final(self).is_leaf == old(self).is_leaf,
            final(self).keys@.len() >= old(self).keys@.len(),
            mkeys(*final(self)) == mkeys(*old(self)).insert(val),
            height(*final(self)) == height(*old(self)),
        decreases height(*old(self)),
    {
        if self.is_leaf {
            self.insert_leaf(val);
        } else {
            let mut idx: usize = self.keys.len();
            while idx > 0 && val < self.keys[idx - 1]
                invariant
                    *self == *old(self),
                    0 <= idx <= self.keys@.len(),
                    forall|j: int| idx <= j < self.keys@.len() ==> val < self.keys@[j],
                decreases idx,
            {
                idx = idx - 1;
            }
            proof {
                // the key is fresh, so it cannot equal the separator below it
                if idx > 0 {
                    assert(!self.keys@.to_multiset().contains(val));
                    if self.keys@[idx - 1] == val {
                        assert(self.keys@.contains(val));
                        assert(self.keys@.to_multiset().contains(val));
                    }
                    assert(self.keys@[idx - 1] < val);
                }
            }
            let ghost pre = *self;
            let ghost idx0 = idx as int;
            if self.children[idx].keys.len() >= 2 * T - 1 {
                proof {
                    lemma_child_height(pre, idx as int);
                    assert(inv_core(pre.children@[idx0]));
                }
                self.split_child(idx);
                let ghost ks = pre.keys@;
                let ghost mid = pre.children@[idx0].keys@[T as int - 1];
                proof {
                    // the promoted median sat in the split child's subtree,
                    // so the fresh key differs from it
                    assert(pre.children@[idx0].keys@.contains(mid));
                    assert(pre.children@[idx0].keys@.to_multiset().contains(mid));
                    assert(mkeys(pre.children@[idx0]).contains(mid));
                    lemma_mkeys_child_le(pre, idx0, mid);
                    assert(mkeys(pre).contains(mid));
                    assert(val != mid);
                }
                if val > self.keys[idx] {
                    idx = idx + 1;
                }
                proof {
                    let cur = *self;
                    assert(cur.keys@[idx0] == mid);
                    if val < mid {
                        assert(idx == idx0);
                        if idx0 > 0 {
                            assert(cur.keys@[idx0 - 1] == ks[idx0 - 1]);
                        }
                    } else {
                        assert(val > mid);
                        assert(idx == idx0 + 1);
                        if idx0 + 1 < cur.keys@.len() {
                            assert(cur.keys@[idx0 + 1] == ks[idx0]);
                            assert(val < ks[idx0]);
                        }
                    }
                    assert(height(cur.children@[idx as int]) <= height(pre.children@[idx0]));
                    assert(height(pre.children@[idx0]) < height(pre));
                    assert(cur.children@[idx as int].keys@.len() == T - 1);
                }
            } else {
                proof {
                    lemma_child_height(pre, idx0);
                }
            }
            let ghost m = *self;
            let ghost oldn = *old(self);
            proof {
                assert(inv_core(m));
                assert(idx < m.children@.len());
                assert(idx == 0 || m.keys@[idx - 1] < val);
                assert(idx == m.keys@.len() || val < m.keys@[idx as int]);
                assert(m.children@[idx as int].keys@.len() < 2 * T - 1);
                assert(height(m.children@[idx as int]) < height(oldn));
                assert(mkeys(m) == mkeys(oldn));
                lemma_mkeys_child_le(m, idx as int, val);
                assert(!mkeys(m.children@[idx as int]).contains(val));
                assert forall|k: usize| true implies #[trigger] mkeys(
                    m.children@[idx as int],
                ).count(k) <= mkeys(m).count(k) by {
                    lemma_mkeys_child_le(m, idx as int, k);
                }
                lemma_mkeys_le_len(mkeys(m.children@[idx as int]), mkeys(m));
            }
            let ghost hm = height(m.children@[idx as int]);
            let mut child = self.children.remove(idx);
            child.insert_non_full(val);
            let ghost c2 = child;
            self.children.insert(idx, child);
            self.size = self.size + 1;
            proof {
                assert(self.children@ =~= m.children@.update(idx as int, c2)) by {
                    assert forall|j: int|
                        0 <= j < m.children@.len() implies #[trigger] self.children@[j]
                        == m.children@.update(idx as int, c2)[j] by {
                        if j < idx {
                            assert(self.children@[j] == m.children@.remove(idx as int)[j]);
                            assert(m.children@.remove(idx as int)[j] == m.children@[j]);
                        } else if j > idx {
                            assert(self.children@[j] == m.children@.remove(idx as int)[j - 1]);
                            assert(m.children@.remove(idx as int)[j - 1] == m.children@[j]);
                        }
                    }
                    assert(self.children@.len() == m.children@.len());
                }
                lemma_replace_child(m, *self, idx as int, c2, val);
            }
        }
    }
}

/// A multiset dominated pointwise by another is no longer than it.
proof fn lemma_mkeys_le_len(a: Multiset<usize>, b: Multiset<usize>)
    requires
        forall|k: usize| #[trigger] a.count(k) <= b.count(k),
    ensures
        a.len() <= b.len(),
{
    let d = b.sub(a);
    assert(a.add(d) =~= b);
}



impl MarTree {
    /// Insert a fresh key into the tree, splitting the root first when it
    /// is full.
    pub fn insert(&mut self, val: usize)
        requires
            tree_inv(*old(self)),
            !mkeys(old(self).root).contains(val),
            mkeys(old(self).root).len() < usize::MAX,
        ensures
            tree_inv(*final(self)),
            mkeys(final(self).root) == mkeys(old(self).root).insert(val),
    {
        if self.root.keys.len() >= 2 * T - 1 {
            let mut old_root = Node::default();
            core::mem::swap(&mut self.root, &mut old_root);
            proof {
                assert(old_root == old(self).root);
                assert forall|j: int|
                    0 <= j < old_root.children@.len() implies (#[trigger] old_root.children@[j]).size
                    == mkeys(old_root.children@[j]).len() by {
                    assert(inv_core(old_root.children@[j]));
                }
            }
            let s = old_root.recompute_size();
            let mut new_root = Node {
                keys: Vec::new(),
                children: Vec::new(),
                size: s,
                is_leaf: false,
            };
            let ghost og = old_root;
            new_root.children.push(old_root);
            proof {
                assert(new_root.children@ =~= seq![og]);
                assert(seq![og].drop_first() =~= Seq::<Node>::empty());
                assert(mkeys_of(Seq::<Node>::empty()) =~= Multiset::<usize>::empty());
                assert(mkeys_of(new_root.children@) =~= mkeys(og));
                assert(new_root.keys@.to_multiset() =~= Multiset::<usize>::empty());
                assert(mkeys(new_root) =~= mkeys(og));
                assert(height_of(seq![og]) == height(og)) by {
                    assert(seq![og].drop_first() =~= Seq::<Node>::empty());
                    assert(height_of(Seq::<Node>::empty()) == 0);
                }
                assert(height(new_root) == 1 + height(og));
                assert(inv_core(new_root));
            }
            new_root.split_child(0);
            proof {
                assert(new_root.keys@.len() == 1);
                assert(mkeys(new_root) == mkeys(og));
            }
            new_root.insert_non_full(val);
            self.root = new_root;
        } else {
            self.root.insert_non_full(val);
        }
    }
}

/// The tallest subtree of a concatenation of rows is the taller of the two
/// rows' tallest subtrees.
pub proof fn lemma_height_of_concat(s1: Seq<Node>, s2: Seq<Node>)
    ensures
        height_of(s1 + s2) == if height_of(s1) >= height_of(s2) {
            height_of(s1)
        } else {
            height_of(s2)
        },
    decreases s1.len(),
{
    if s1.len() == 0 {
        assert(s1 + s2 =~= s2);
    } else {
        assert((s1 + s2).drop_first() =~= s1.drop_first() + s2);
        lemma_height_of_concat(s1.drop_first(), s2);
        assert((s1 + s2)[0] == s1[0]);
    }
}

/// A row in which no subtree holds a key does not hold the key.
proof fn lemma_mkeys_of_count_zero(s: Seq<Node>, val: usize)
    requires
        forall|j: int| 0 <= j < s.len() ==> mkeys(#[trigger] s[j]).count(val) == 0,
    ensures
        mkeys_of(s).count(val) == 0,
    decreases s.len(),
{
    if s.len() == 0 {
        assert(mkeys_of(s) =~= Multiset::<usize>::empty());
    } else {
        assert forall|j: int| 0 <= j < s.drop_first().len() implies mkeys(
            #[trigger] s.drop_first()[j],
        ).count(val) == 0 by {
            assert(s.drop_first()[j] == s[j + 1]);
        }
        lemma_mkeys_of_count_zero(s.drop_first(), val);
    }
}

/// In a well-formed inner node, a key that is not a separator occurs in the
/// subtree exactly as often as in the one child whose interval covers it.
proof fn lemma_search_child(n: Node, val: usize, idx: int)
    requires
        inv_core(n),
        !n.is_leaf,
        0 <= idx < n.children@.len(),
        idx == 0 || n.keys@[idx - 1] < val,
        idx == n.keys@.len() || val < n.keys@[idx],
        !n.keys@.contains(val),
    ensures
        mkeys(n).count(val) == mkeys(n.children@[idx]).count(val),
{
    assert(n.keys@.to_multiset().count(val) == 0) by {
        if n.keys@.to_multiset().count(val) > 0 {
            assert(n.keys@.to_multiset().contains(val));
            assert(n.keys@.contains(val));
        }
    }
    assert forall|j: int|
        0 <= j < n.children@.len() && j != idx implies mkeys(#[trigger] n.children@[j]).count(
        val,
    ) == 0 by {
        if mkeys(n.children@[j]).count(val) > 0 {
            assert(mkeys(n.children@[j]).contains(val));
            assert(bounded(n.keys@, j, val));
            if j < idx {
                assert(val < n.keys@[j]);
                assert(n.keys@[j] <= n.keys@[idx - 1]);
            } else {
                assert(n.keys@[j - 1] < val);
                assert(n.keys@[idx] <= n.keys@[j - 1]);
            }
        }
    }
    lemma_mkeys_of_split(n.children@, idx);
    let lo = n.children@.subrange(0, idx);
    let hi = n.children@.subrange(idx + 1, n.children@.len() as int);
    assert forall|j: int| 0 <= j < lo.len() implies mkeys(#[trigger] lo[j]).count(val) == 0 by {
        assert(lo[j] == n.children@[j]);
    }
    assert forall|j: int| 0 <= j < hi.len() implies mkeys(#[trigger] hi[j]).count(val) == 0 by {
        assert(hi[j] == n.children@[j + idx + 1]);
    }
    lemma_mkeys_of_count_zero(lo, val);
    lemma_mkeys_of_count_zero(hi, val);
}

/// Updating the key at a position swaps it in the key multiset.
proof fn lemma_update_to_multiset(s: Seq<usize>, i: int, v: usize)
    requires
        0 <= i < s.len(),
    ensures
        s.update(i, v).to_multiset() == s.to_multiset().remove(s[i]).insert(v),
{
    assert(s.update(i, v) =~= s.remove(i).insert(i, v));
    lemma_to_multiset_insert(s.remove(i), i, v);
}

/// Replacing one child by a version holding a sub-multiset of its keys
/// keeps the node well-formed and subtracts exactly those keys.
proof fn lemma_update_child_sub(m: Node, m2: Node, idx: int, c2: Node, removed: Multiset<usize>)
    requires
        inv_core(m),
        !m.is_leaf,
        0 <= idx < m.children@.len(),
        inv_core(c2),
        c2.keys@.len() >= T - 1,
        height(c2) == height(m.children@[idx]),
        forall|k: usize| removed.count(k) <= #[trigger] mkeys(m.children@[idx]).count(k),
        mkeys(c2) == mkeys(m.children@[idx]).sub(removed),
        m2.keys@ == m.keys@,
        m2.is_leaf == m.is_leaf,
        m2.children@ == m.children@.update(idx, c2),
        m2.size == m.size - removed.len(),
    ensures
        inv_core(m2),
        mkeys(m2) == mkeys(m).sub(removed),
        height(m2) == height(m),
{
    assert(m.children@.len() >= 1);
    assert(m2.children@.len() == m.children@.len());
    assert forall|j: int| 0 <= j < m2.children@.len() implies height(#[trigger] m2.children@[j])
        + 1 == height(m) by {
        if j != idx {
            assert(m2.children@[j] == m.children@[j]);
        }
        assert(height(m.children@[j]) + 1 == height(m));
    }
    assert(height(m2) == height(m)) by {
        lemma_height_of_uniform(m2.children@, (height(m) - 1) as nat);
        lemma_height_of_uniform(m.children@, (height(m) - 1) as nat);
    }
    assert forall|j: int| 0 <= j < m2.children@.len() implies height(#[trigger] m2.children@[j])
        + 1 == height(m2) by {
        assert(height(m2.children@[j]) + 1 == height(m));
    }
    lemma_mkeys_of_split(m.children@, idx);
    lemma_mkeys_of_split(m2.children@, idx);
    assert(m2.children@[idx] == c2);
    let len = m.children@.len() as int;
    assert(m2.children@.subrange(0, idx) =~= m.children@.subrange(0, idx)) by {
        assert forall|j: int| 0 <= j < idx implies #[trigger] m2.children@.subrange(0, idx)[j]
            == m.children@.subrange(0, idx)[j] by {
            assert(m2.children@.subrange(0, idx)[j] == m2.children@[j]);
            assert(m.children@.subrange(0, idx)[j] == m.children@[j]);
            assert(m2.children@[j] == m.children@[j]);
        }
        assert(m2.children@.subrange(0, idx).len() == idx);
        assert(m.children@.subrange(0, idx).len() == idx);
    }
    assert(m2.children@.subrange(idx + 1, len) =~= m.children@.subrange(idx + 1, len)) by {
        assert forall|j: int|
            0 <= j < len - idx - 1 implies #[trigger] m2.children@.subrange(idx + 1, len)[j]
            == m.children@.subrange(idx + 1, len)[j] by {
            assert(m2.children@.subrange(idx + 1, len)[j] == m2.children@[idx + 1 + j]);
            assert(m.children@.subrange(idx + 1, len)[j] == m.children@[idx + 1 + j]);
            assert(m2.children@[idx + 1 + j] == m.children@[idx + 1 + j]);
        }
        assert(m2.children@.subrange(idx + 1, len).len() == len - idx - 1);
        assert(m.children@.subrange(idx + 1, len).len() == len - idx - 1);
    }
    assert(mkeys(m2) =~= mkeys(m).sub(removed));
    assert forall|j: int, k: usize|
        0 <= j < m2.children@.len() && #[trigger] mkeys(m2.children@[j]).contains(k) implies
    bounded(m2.keys@, j, k) by {
        if j == idx {
            assert(mkeys(c2).count(k) >= 1);
            assert(mkeys(m.children@[idx]).count(k) >= 1);
            assert(mkeys(m.children@[idx]).contains(k));
            assert(bounded(m.keys@, j, k));
        } else {
            assert(m2.children@[j] == m.children@[j]);
            assert(mkeys(m.children@[j]).contains(k));
            assert(bounded(m.keys@, j, k));
        }
    }
    assert forall|j: int| 0 <= j < m2.children@.len() implies inv_core(
        #[trigger] m2.children@[j],
    ) && m2.children@[j].keys@.len() >= T - 1 by {
        if j != idx {
            assert(m2.children@[j] == m.children@[j]);
        }
    }
}

impl Node {
    /// Largest key in a non-empty subtree: descend along the rightmost
    /// children to the last key of a leaf.
    fn max_key(&self) -> (r: usize)
        requires
            inv_core(*self),
            self.keys@.len() >= 1,
        ensures
            mkeys(*self).contains(r),
            forall|k: usize| #[trigger] mkeys(*self).contains(k) ==> k <= r,
        decreases height(*self),
    {
        if self.is_leaf {
            let r = self.keys[self.keys.len() - 1];
            proof {
                assert(self.keys@.contains(r));
                assert forall|k: usize| #[trigger] mkeys(*self).contains(k) implies k <= r by {
                    assert(self.keys@.contains(k));
                    let a = choose|a: int| 0 <= a < self.keys@.len() && self.keys@[a] == k;
                    if a < self.keys@.len() - 1 {
                        assert(self.keys@[a] < self.keys@[self.keys@.len() - 1]);
                    }
                }
            }
            r
        } else {
            let last = self.children.len() - 1;
            proof {
                lemma_child_height(*self, last as int);
                assert(inv_core(self.children@[last as int]));
            }
            let r = self.children[last].max_key();
            proof {
                lemma_mkeys_child_le(*self, last as int, r);
                assert(mkeys(self.children@[last as int]).contains(r));
                assert(bounded(self.keys@, last as int, r));
                assert(self.keys@[last - 1] < r);
                assert forall|k: usize| #[trigger] mkeys(*self).contains(k) implies k <= r by {
                    if self.keys@.to_multiset().count(k) >= 1 {
                        assert(self.keys@.contains(k));
                        let a = choose|a: int| 0 <= a < self.keys@.len() && self.keys@[a] == k;
                        assert(self.keys@[a] <= self.keys@[last - 1]);
                    } else {
                        assert(mkeys_of(self.children@).count(k) >= 1);
                        lemma_mkeys_of_contains(self.children@, k);
                        let j = choose|j: int|
                            0 <= j < self.children@.len() && mkeys(
                                #[trigger] self.children@[j],
                            ).contains(k);
                        if j == last {
                        } else {
                            assert(bounded(self.keys@, j, k));
                            assert(k < self.keys@[j]);
                            assert(self.keys@[j] <= self.keys@[last - 1]);
                        }
                    }
                }
            }
            r
        }
    }

    /// Smallest key in a non-empty subtree.
    fn min_key(&self) -> (r: usize)
        requires
            inv_core(*self),
            self.keys@.len() >= 1,
        ensures
            mkeys(*self).contains(r),
            forall|k: usize| #[trigger] mkeys(*self).contains(k) ==> k >= r,
        decreases height(*self),
    {
        if self.is_leaf {
            let r = self.keys[0];
            proof {
                assert(self.keys@.contains(r));
                assert forall|k: usize| #[trigger] mkeys(*self).contains(k) implies k >= r by {
                    assert(self.keys@.contains(k));
                    let a = choose|a: int| 0 <= a < self.keys@.len() && self.keys@[a] == k;
                    if a > 0 {
                        assert(self.keys@[0] < self.keys@[a]);
                    }
                }
            }
            r
        } else {
            proof {
                lemma_child_height(*self, 0);
                assert(inv_core(self.children@[0]));
            }
            let r = self.children[0].min_key();
            proof {
                lemma_mkeys_child_le(*self, 0, r);
                assert(mkeys(self.children@[0]).contains(r));
                assert(bounded(self.keys@, 0, r));
                assert(r < self.keys@[0]);
                assert forall|k: usize| #[trigger] mkeys(*self).contains(k) implies k >= r by {
                    if self.keys@.to_multiset().count(k) >= 1 {
                        assert(self.keys@.contains(k));
                        let a = choose|a: int| 0 <= a < self.keys@.len() && self.keys@[a] == k;
                        assert(self.keys@[0] <= self.keys@[a]);
                    } else {
                        assert(mkeys_of(self.children@).count(k) >= 1);
                        lemma_mkeys_of_contains(self.children@, k);
                        let j = choose|j: int|
                            0 <= j < self.children@.len() && mkeys(
                                #[trigger] self.children@[j],
                            ).contains(k);
                        if j == 0 {
                        } else {
                            assert(bounded(self.keys@, j, k));
                            assert(self.keys@[j - 1] < k);
                            assert(self.keys@[0] <= self.keys@[j - 1]);
                        }
                    }
                }
            }
            r
        }
    }

    /// Largest key below the separator at `idx`.
    pub fn get_predecessor(&self, idx: usize) -> (r: usize)
        requires
            inv_core(*self),
            !self.is_leaf,
            idx < self.keys@.len(),
        ensures
            mkeys(self.children@[idx as int]).contains(r),
            forall|k: usize| #[trigger] mkeys(self.children@[idx as int]).contains(k) ==> k <= r,
            r < self.keys@[idx as int],
    {
        proof {
            assert(inv_core(self.children@[idx as int]));
        }
        let r = self.children[idx].max_key();
        proof {
            assert(bounded(self.keys@, idx as int, r));
        }
        r
    }

    /// Smallest key above the separator at `idx`.
    pub fn get_successor(&self, idx: usize) -> (r: usize)
        requires
            inv_core(*self),
            !self.is_leaf,
            idx < self.keys@.len(),
        ensures
            mkeys(self.children@[idx as int + 1]).contains(r),
            forall|k: usize| #[trigger] mkeys(self.children@[idx as int + 1]).contains(k) ==> k
                >= r,
            r > self.keys@[idx as int],
    {
        proof {
            assert(inv_core(self.children@[idx as int + 1]));
        }
        let r = self.children[idx + 1].min_key();
        proof {
            assert(bounded(self.keys@, idx as int + 1, r));
        }
        r
    }
}



impl Node {
    /// Merge the child at `idx`, the separator above it, and the right
    /// sibling into one full child. The subtree keeps exactly the same
    /// keys.
    #[verifier::rlimit(100)]
    pub fn merge_children(&mut self, idx: usize)
        requires
            inv_core(*old(self)),
            !old(self).is_leaf,
            idx < old(self).keys@.len(),
            old(self).children@[idx as int].keys@.len() == T - 1,
            old(self).children@[idx as int + 1].keys@.len() == T - 1,
        ensures
            inv_core(*final(self)),
            !final(self).is_leaf,
            final(self).is_leaf == old(self).is_leaf,
            final(self).size == old(self).size,
            final(self).keys@ == old(self).keys@.remove(idx as int),
            final(self).children@.len() == old(self).children@.len() - 1,
            forall|j: int| 0 <= j < idx ==> final(self).children@[j] == old(self).children@[j],
            forall|j: int|
                idx < j < final(self).children@.len() ==> final(self).children@[j] == old(
                    self,
                ).children@[j + 1],
            inv_core(final(self).children@[idx as int]),
            final(self).children@[idx as int].keys@.len() == 2 * T - 1,
            mkeys(final(self).children@[idx as int]) == mkeys(
                old(self).children@[idx as int],
            ).add(mkeys(old(self).children@[idx as int + 1])).insert(
                old(self).keys@[idx as int],
            ),
            mkeys(*final(self)) == mkeys(*old(self)),
            height(*final(self)) == height(*old(self)),
            height(final(self).children@[idx as int]) + 1 == height(*old(self)),
    {
        let ghost oldn = *old(self);
        let ghost oldcs = old(self).children@;
        let ghost c1g = oldcs[idx as int];
        let ghost c2g = oldcs[idx as int + 1];
        let ghost sepg = old(self).keys@[idx as int];
        proof {
            assert(inv_core(c1g) && inv_core(c2g));
            assert(height(c1g) + 1 == height(oldn));
            assert(height(c2g) + 1 == height(oldn));
            lemma_leaf_height(c1g);
            lemma_leaf_height(c2g);
            assert(c1g.is_leaf == c2g.is_leaf);
            // keys of both children and the separator sit inside the
            // subtree, so the merged size fits
            lemma_mkeys_of_split(oldcs, idx as int);
            let rest = oldcs.subrange(idx as int + 1, oldcs.len() as int);
            lemma_mkeys_of_split(rest, 0);
            assert(rest[0] == c2g);
            assert(mkeys(oldn).len() == oldn.size);
            assert(oldn.keys@.to_multiset().len() == oldn.keys@.len());
            assert(mkeys(c1g).len() + mkeys(c2g).len() + 1 <= oldn.size);
        }
        let sep = self.keys.remove(idx);
        let right = self.children.remove(idx + 1);
        let mut child = self.children.remove(idx);
        let Node { keys: mut rkeys, children: mut rchildren, size: rsize, is_leaf: _ } = right;
        child.keys.push(sep);
        child.keys.append(&mut rkeys);
        if !child.is_leaf {
            child.children.append(&mut rchildren);
        }
        proof {
            assert(child.keys@ =~= c1g.keys@ + (seq![sepg] + c2g.keys@));
            lemma_to_multiset_concat(c1g.keys@, seq![sepg] + c2g.keys@);
            lemma_to_multiset_concat(seq![sepg], c2g.keys@);
            assert(seq![sepg] =~= Seq::<usize>::empty().push(sepg));
            assert(Seq::<usize>::empty().to_multiset() =~= Multiset::<usize>::empty());
            if !child.is_leaf {
                assert(child.children@ =~= c1g.children@ + c2g.children@);
                lemma_mkeys_of_concat(c1g.children@, c2g.children@);
            }
            assert(mkeys(child) =~= mkeys(c1g).add(mkeys(c2g)).insert(sepg));
            assert(mkeys(child).len() == mkeys(c1g).len() + mkeys(c2g).len() + 1);
            assert(child.size == mkeys(c1g).len());
            assert(rsize == mkeys(c2g).len());
        }
        child.size = child.size + rsize + 1;
        let ghost merged = child;
        proof {
            // every key of the lower child sits below the separator, every
            // key of the upper child above it
            assert forall|a: int| 0 <= a < c1g.keys@.len() implies c1g.keys@[a] < sepg by {
                assert(c1g.keys@.contains(c1g.keys@[a]));
                assert(c1g.keys@.to_multiset().contains(c1g.keys@[a]));
                assert(mkeys(c1g).contains(c1g.keys@[a]));
                assert(bounded(oldn.keys@, idx as int, c1g.keys@[a]));
            }
            assert forall|a: int| 0 <= a < c2g.keys@.len() implies c2g.keys@[a] > sepg by {
                assert(c2g.keys@.contains(c2g.keys@[a]));
                assert(c2g.keys@.to_multiset().contains(c2g.keys@[a]));
                assert(mkeys(c2g).contains(c2g.keys@[a]));
                assert(bounded(oldn.keys@, idx as int + 1, c2g.keys@[a]));
            }
            assert forall|k: usize| #[trigger] mkeys(c1g).contains(k) implies k < sepg by {
                assert(bounded(oldn.keys@, idx as int, k));
            }
            assert forall|k: usize| #[trigger] mkeys(c2g).contains(k) implies k > sepg by {
                assert(bounded(oldn.keys@, idx as int + 1, k));
            }
            // index map of the merged key row
            assert forall|m: int| 0 <= m < merged.keys@.len() implies merged.keys@[m] == (if m < T
                - 1 {
                c1g.keys@[m]
            } else if m == T - 1 {
                sepg
            } else {
                c2g.keys@[m - T]
            }) by {}
            assert forall|a: int, b: int|
                0 <= a < b < merged.keys@.len() implies merged.keys@[a] < merged.keys@[b] by {
                if a < T - 1 && b < T - 1 {
                    assert(c1g.keys@[a] < c1g.keys@[b]);
                } else if a >= T && b >= T {
                    assert(c2g.keys@[a - T] < c2g.keys@[b - T]);
                }
            }
            if !merged.is_leaf {
                assert forall|j: int| 0 <= j < merged.children@.len() implies merged.children@[j]
                    == (if j < T {
                    c1g.children@[j]
                } else {
                    c2g.children@[j - T]
                }) by {}
                // grandchildren stay well-formed and bounded
                assert forall|j: int| 0 <= j < merged.children@.len() implies inv_core(
                    #[trigger] merged.children@[j],
                ) && merged.children@[j].keys@.len() >= T - 1 by {
                    if j < T {
                        assert(merged.children@[j] == c1g.children@[j]);
                        assert(inv_core(c1g.children@[j]));
                    } else {
                        assert(merged.children@[j] == c2g.children@[j - T]);
                        assert(inv_core(c2g.children@[j - T]));
                    }
                }
                assert forall|j: int, k: usize|
                    0 <= j < merged.children@.len() && #[trigger] mkeys(
                        merged.children@[j],
                    ).contains(k) implies bounded(merged.keys@, j, k) by {
                    if j < T {
                        assert(merged.children@[j] == c1g.children@[j]);
                        assert(mkeys(c1g.children@[j]).contains(k));
                        assert(bounded(c1g.keys@, j, k));
                        lemma_mkeys_child_le(c1g, j, k);
                        assert(mkeys(c1g).contains(k));
                        assert(k < sepg);
                    } else {
                        assert(merged.children@[j] == c2g.children@[j - T]);
                        assert(mkeys(c2g.children@[j - T]).contains(k));
                        assert(bounded(c2g.keys@, j - T, k));
                        lemma_mkeys_child_le(c2g, j - T, k);
                        assert(mkeys(c2g).contains(k));
                        assert(k > sepg);
                    }
                }
                // height of the merged child
                lemma_height_of_concat(c1g.children@, c2g.children@);
                assert(height(merged) == height(c1g));
                assert forall|j: int| 0 <= j < merged.children@.len() implies height(
                    #[trigger] merged.children@[j],
                ) + 1 == height(merged) by {
                    if j < T {
                        assert(merged.children@[j] == c1g.children@[j]);
                        assert(height(c1g.children@[j]) + 1 == height(c1g));
                    } else {
                        assert(merged.children@[j] == c2g.children@[j - T]);
                        assert(height(c2g.children@[j - T]) + 1 == height(c2g));
                    }
                }
            } else {
                assert(height(merged) == 0 && height(c1g) == 0);
            }
            assert(inv_core(merged));
        }
        self.children.insert(idx, child);
        proof {
            let cs = self.children@;
            assert(cs.len() == oldcs.len() - 1);
            assert forall|j: int| 0 <= j < idx implies #[trigger] cs[j] == oldcs[j] by {
                assert(cs[j] == oldcs.remove(idx as int + 1).remove(idx as int)[j]);
                assert(oldcs.remove(idx as int + 1).remove(idx as int)[j] == oldcs.remove(
                    idx as int + 1,
                )[j]);
                assert(oldcs.remove(idx as int + 1)[j] == oldcs[j]);
            }
            assert(cs[idx as int] == merged);
            assert forall|j: int| idx < j < cs.len() implies #[trigger] cs[j] == oldcs[j + 1] by {
                assert(cs[j] == oldcs.remove(idx as int + 1).remove(idx as int)[j - 1]);
                assert(oldcs.remove(idx as int + 1).remove(idx as int)[j - 1] == oldcs.remove(
                    idx as int + 1,
                )[j]);
                assert(oldcs.remove(idx as int + 1)[j] == oldcs[j + 1]);
            }
            // keys below this node are unchanged as a multiset
            lemma_mkeys_of_split(cs, idx as int);
            lemma_mkeys_of_split(oldcs, idx as int);
            let rest = oldcs.subrange(idx as int + 1, oldcs.len() as int);
            lemma_mkeys_of_split(rest, 0);
            assert(rest[0] == c2g);
            assert(cs.subrange(0, idx as int) =~= oldcs.subrange(0, idx as int)) by {
                assert forall|j: int|
                    0 <= j < idx implies #[trigger] cs.subrange(0, idx as int)[j]
                    == oldcs.subrange(0, idx as int)[j] by {
                    assert(cs.subrange(0, idx as int)[j] == cs[j]);
                    assert(oldcs.subrange(0, idx as int)[j] == oldcs[j]);
                }
                assert(cs.subrange(0, idx as int).len() == idx as int);
                assert(oldcs.subrange(0, idx as int).len() == idx as int);
            }
            assert(cs.subrange(idx as int + 1, cs.len() as int) =~= rest.subrange(
                1,
                rest.len() as int,
            )) by {
                assert forall|j: int|
                    0 <= j < cs.len() - idx - 1 implies #[trigger] cs.subrange(
                    idx as int + 1,
                    cs.len() as int,
                )[j] == rest.subrange(1, rest.len() as int)[j] by {
                    assert(cs.subrange(idx as int + 1, cs.len() as int)[j] == cs[idx + 1 + j]);
                    assert(rest.subrange(1, rest.len() as int)[j] == rest[j + 1]);
                    assert(rest[j + 1] == oldcs[idx + 2 + j]);
                    assert(cs[idx + 1 + j] == oldcs[idx + 2 + j]);
                }
                assert(cs.subrange(idx as int + 1, cs.len() as int).len() == cs.len() - idx - 1);
                assert(rest.subrange(1, rest.len() as int).len() == rest.len() - 1);
            }
            assert(self.keys@ == oldn.keys@.remove(idx as int));
            assert(mkeys(*self) =~= mkeys(oldn));
            // parent key row stays sorted
            assert forall|a: int, b: int|
                0 <= a < b < self.keys@.len() implies self.keys@[a] < self.keys@[b] by {
                let ks = oldn.keys@;
                if a < idx {
                    assert(self.keys@[a] == ks[a]);
                } else {
                    assert(self.keys@[a] == ks[a + 1]);
                }
                if b < idx {
                    assert(self.keys@[b] == ks[b]);
                } else {
                    assert(self.keys@[b] == ks[b + 1]);
                }
            }
            // children keep their intervals
            assert forall|j: int, k: usize|
                0 <= j < cs.len() && #[trigger] mkeys(cs[j]).contains(k) implies bounded(
                self.keys@,
                j,
                k,
            ) by {
                let ks = oldn.keys@;
                if j < idx {
                    assert(cs[j] == oldcs[j]);
                    assert(bounded(ks, j, k));
                    if j > 0 {
                        assert(self.keys@[j - 1] == ks[j - 1]);
                    }
                    if j < self.keys@.len() {
                        assert(self.keys@[j] == if j < idx {
                            ks[j]
                        } else {
                            ks[j + 1]
                        });
                        assert(k < ks[j]);
                    }
                } else if j == idx {
                    assert(mkeys(merged).count(k) >= 1);
                    if mkeys(c1g).count(k) >= 1 {
                        assert(mkeys(c1g).contains(k));
                        assert(bounded(ks, idx as int, k));
                        if idx < self.keys@.len() {
                            assert(self.keys@[idx as int] == ks[idx + 1]);
                            assert(k < ks[idx as int] && ks[idx as int] < ks[idx + 1]);
                        }
                        if idx > 0 {
                            assert(self.keys@[idx - 1] == ks[idx - 1]);
                        }
                    } else if k == sepg {
                        if idx < self.keys@.len() {
                            assert(self.keys@[idx as int] == ks[idx + 1]);
                            assert(ks[idx as int] < ks[idx + 1]);
                        }
                        if idx > 0 {
                            assert(self.keys@[idx - 1] == ks[idx - 1]);
                            assert(ks[idx - 1] < ks[idx as int]);
                        }
                    } else {
                        assert(mkeys(c2g).count(k) >= 1);
                        assert(mkeys(c2g).contains(k));
                        assert(bounded(ks, idx as int + 1, k));
                        if idx < self.keys@.len() {
                            assert(self.keys@[idx as int] == ks[idx + 1]);
                        }
                        if idx > 0 {
                            assert(self.keys@[idx - 1] == ks[idx - 1]);
                            assert(ks[idx - 1] < ks[idx as int] && ks[idx as int] < k);
                        }
                    }
                } else {
                    assert(cs[j] == oldcs[j + 1]);
                    assert(bounded(ks, j + 1, k));
                    assert(self.keys@[j - 1] == ks[j]);
                    if j < self.keys@.len() {
                        assert(self.keys@[j] == ks[j + 1]);
                    }
                }
            }
            assert forall|j: int| 0 <= j < cs.len() implies inv_core(#[trigger] cs[j])
                && cs[j].keys@.len() >= T - 1 by {
                if j < idx {
                    assert(cs[j] == oldcs[j]);
                } else if j > idx {
                    assert(cs[j] == oldcs[j + 1]);
                }
            }
            assert forall|j: int| 0 <= j < cs.len() implies height(#[trigger] cs[j]) + 1
                == height(oldn) by {
                if j < idx {
                    assert(cs[j] == oldcs[j]);
                    assert(height(oldcs[j]) + 1 == height(oldn));
                } else if j > idx {
                    assert(cs[j] == oldcs[j + 1]);
                    assert(height(oldcs[j + 1]) + 1 == height(oldn));
                } else {
                    assert(height(merged) == height(c1g));
                }
            }
            assert(height(*self) == height(oldn)) by {
                lemma_height_of_uniform(cs, (height(oldn) - 1) as nat);
                lemma_height_of_uniform(oldcs, (height(oldn) - 1) as nat);
            }
            assert(inv_core(*self));
        }
    }
}



impl Node {
    /// Move the separator above child `idx - 1` down into child `idx` and
    /// the left sibling's greatest key up into its place; an inner sibling
    /// also hands over its last subtree. The keys below this node are
    /// unchanged.
    #[verifier::rlimit(100)]
    pub fn borrow_left(&mut self, idx: usize)
        requires
            inv_core(*old(self)),
            !old(self).is_leaf,
            1 <= idx < old(self).children@.len(),
            old(self).children@[idx as int - 1].keys@.len() >= T,
            old(self).children@[idx as int].keys@.len() < 2 * T - 1,
        ensures
            inv_core(*final(self)),
            final(self).is_leaf == old(self).is_leaf,
            final(self).size == old(self).size,
            final(self).keys@.len() == old(self).keys@.len(),
            final(self).children@.len() == old(self).children@.len(),
            forall|j: int|
                0 <= j < final(self).children@.len() && j != idx - 1 && j != idx
                    ==> final(self).children@[j] == old(self).children@[j],
            forall|m: int|
                0 <= m < final(self).keys@.len() && m != idx - 1
                    ==> final(self).keys@[m] == old(self).keys@[m],
            final(self).keys@[idx as int - 1] < old(self).keys@[idx as int - 1],
            final(self).children@[idx as int].keys@.len()
                == old(self).children@[idx as int].keys@.len() + 1,
            mkeys(*final(self)) == mkeys(*old(self)),
            height(*final(self)) == height(*old(self)),
    {
        let ghost oldn = *old(self);
        let ghost oldcs = old(self).children@;
        let ghost lg = oldcs[idx as int - 1];
        let ghost rg = oldcs[idx as int];
        let ghost pk = oldn.keys@[idx as int - 1];
        proof {
            assert(inv_core(lg) && inv_core(rg));
            assert(height(lg) + 1 == height(oldn));
            assert(height(rg) + 1 == height(oldn));
            lemma_leaf_height(lg);
            lemma_leaf_height(rg);
            assert(lg.is_leaf == rg.is_leaf);
            // room for the sizes: both subtrees and the separator sit in
            // this node's key multiset
            lemma_mkeys_of_split(oldcs, idx as int - 1);
            let rest = oldcs.subrange(idx as int, oldcs.len() as int);
            lemma_mkeys_of_split(rest, 0);
            assert(rest[0] == rg);
            assert(mkeys(oldn).len() == oldn.size);
            assert(oldn.keys@.to_multiset().len() == oldn.keys@.len());
            assert(mkeys(lg).len() + mkeys(rg).len() + 1 <= oldn.size);
        }
        let parent_key = self.keys[idx - 1];
        let mut right = self.children.remove(idx);
        let mut left = self.children.remove(idx - 1);
        right.keys.insert(0, parent_key);
        let borrowed = left.keys.pop().unwrap();
        proof {
            assert(borrowed == lg.keys@.last());
            assert(lg.keys@.contains(borrowed));
            assert(lg.keys@.to_multiset().contains(borrowed));
            assert(mkeys(lg).contains(borrowed));
            assert(bounded(oldn.keys@, idx as int - 1, borrowed));
            assert(borrowed < pk);
            // the separator swap in the parent's key row
            lemma_to_multiset_insert(rg.keys@, 0, pk);
            assert(left.keys@ =~= lg.keys@.remove(lg.keys@.len() - 1));
        }
        let _ = self.keys.remove(idx - 1);
        self.keys.insert(idx - 1, borrowed);
        left.size = left.size - 1;
        right.size = right.size + 1;
        let ghost movedg = if lg.is_leaf {
            lg
        } else {
            lg.children@.last()
        };
        if !left.is_leaf {
            proof {
                lemma_mkeys_of_split(lg.children@, lg.children@.len() - 1);
                assert(lg.children@.subrange(
                    lg.children@.len() as int,
                    lg.children@.len() as int,
                ) =~= Seq::<Node>::empty());
                assert(mkeys_of(Seq::<Node>::empty()) =~= Multiset::<usize>::empty());
                assert(inv_core(lg.children@[lg.children@.len() - 1]));
            }
            let moved = left.children.pop().unwrap();
            let moved_size = moved.size;
            right.children.insert(0, moved);
            left.size = left.size - moved_size;
            right.size = right.size + moved_size;
            proof {
                assert(left.children@ =~= lg.children@.remove(lg.children@.len() - 1));
                assert(left.children@ =~= lg.children@.subrange(0, lg.children@.len() - 1));
                assert(right.children@ =~= seq![movedg] + rg.children@);
                lemma_mkeys_of_concat(seq![movedg], rg.children@);
                assert(seq![movedg].drop_first() =~= Seq::<Node>::empty());
                assert(mkeys_of(seq![movedg]) =~= mkeys(movedg));
            }
        }
        let ghost leftg = left;
        let ghost rightg = right;
        proof {
            let lkm = if lg.is_leaf {
                Multiset::<usize>::empty()
            } else {
                mkeys(movedg)
            };
            // key multisets of the two reshaped children
            assert(mkeys(leftg) =~= mkeys(lg).remove(borrowed).sub(lkm));
            assert(mkeys(rightg) =~= mkeys(rg).insert(pk).add(lkm));
            assert(mkeys(leftg).len() == leftg.size);
            assert(mkeys(rightg).len() == rightg.size);
            // every key of the reshaped left child is below the borrowed
            // key; every key of the reshaped right child is above it
            assert forall|k: usize| #[trigger] mkeys(leftg).contains(k) implies k
                < borrowed by {
                if leftg.keys@.to_multiset().count(k) >= 1 {
                    assert(leftg.keys@.contains(k));
                    let a = choose|a: int| 0 <= a < leftg.keys@.len() && leftg.keys@[a] == k;
                    assert(lg.keys@[a] == k);
                    assert(lg.keys@[a] < lg.keys@[lg.keys@.len() - 1]);
                } else {
                    assert(mkeys_of(leftg.children@).count(k) >= 1);
                    lemma_mkeys_of_contains(leftg.children@, k);
                    let j = choose|j: int|
                        0 <= j < leftg.children@.len() && mkeys(
                            #[trigger] leftg.children@[j],
                        ).contains(k);
                    assert(leftg.children@[j] == lg.children@[j]);
                    assert(bounded(lg.keys@, j, k));
                    assert(k < lg.keys@[j]);
                    assert(lg.keys@[j] <= lg.keys@[lg.keys@.len() - 1]);
                }
            }
            assert forall|k: usize| #[trigger] mkeys(lg).contains(k) implies k < pk by {
                assert(bounded(oldn.keys@, idx as int - 1, k));
            }
            assert forall|k: usize| #[trigger] mkeys(rg).contains(k) implies k > pk by {
                assert(bounded(oldn.keys@, idx as int, k));
            }
            if !lg.is_leaf {
                assert forall|k: usize| #[trigger] mkeys(movedg).contains(k) implies borrowed < k
                    < pk by {
                    lemma_mkeys_child_le(lg, lg.children@.len() - 1, k);
                    assert(mkeys(lg).contains(k));
                    assert(bounded(lg.keys@, lg.children@.len() - 1, k));
                }
            }
            // the reshaped children are well-formed
            assert(inv_core(leftg)) by {
                assert forall|a: int, b: int|
                    0 <= a < b < leftg.keys@.len() implies leftg.keys@[a] < leftg.keys@[b] by {
                    assert(leftg.keys@[a] == lg.keys@[a]);
                    assert(leftg.keys@[b] == lg.keys@[b]);
                }
                if !leftg.is_leaf {
                    assert forall|j: int| 0 <= j < leftg.children@.len() implies inv_core(
                        #[trigger] leftg.children@[j],
                    ) && leftg.children@[j].keys@.len() >= T - 1 && height(leftg.children@[j])
                        + 1 == height(lg) by {
                        assert(leftg.children@[j] == lg.children@[j]);
                        assert(inv_core(lg.children@[j]));
                        assert(height(lg.children@[j]) + 1 == height(lg));
                    }
                    lemma_height_of_uniform(leftg.children@, (height(lg) - 1) as nat);
                    assert(height(leftg) == height(lg));
                    assert forall|j: int, k: usize|
                        0 <= j < leftg.children@.len() && #[trigger] mkeys(
                            leftg.children@[j],
                        ).contains(k) implies bounded(leftg.keys@, j, k) by {
                        assert(leftg.children@[j] == lg.children@[j]);
                        assert(mkeys(lg.children@[j]).contains(k));
                        assert(bounded(lg.keys@, j, k));
                        if j > 0 {
                            assert(leftg.keys@[j - 1] == lg.keys@[j - 1]);
                        }
                        if j < leftg.keys@.len() {
                            assert(leftg.keys@[j] == lg.keys@[j]);
                        }
                    }
                }
            }
            if leftg.is_leaf {
                assert(height(leftg) == 0 && height(lg) == 0);
            }
            assert(inv_core(rightg)) by {
                assert forall|a: int, b: int|
                    0 <= a < b < rightg.keys@.len() implies rightg.keys@[a] < rightg.keys@[b] by {
                    if a == 0 {
                        assert(rightg.keys@[b] == rg.keys@[b - 1]);
                        assert(rg.keys@.contains(rg.keys@[b - 1]));
                        assert(rg.keys@.to_multiset().contains(rg.keys@[b - 1]));
                        assert(mkeys(rg).contains(rg.keys@[b - 1]));
                    } else {
                        assert(rightg.keys@[a] == rg.keys@[a - 1]);
                        assert(rightg.keys@[b] == rg.keys@[b - 1]);
                    }
                }
                if !rightg.is_leaf {
                    assert forall|j: int| 0 <= j < rightg.children@.len() implies inv_core(
                        #[trigger] rightg.children@[j],
                    ) && rightg.children@[j].keys@.len() >= T - 1 && height(
                        rightg.children@[j],
                    ) + 1 == height(rg) by {
                        if j == 0 {
                            assert(rightg.children@[0] == movedg);
                            assert(inv_core(movedg));
                            assert(height(movedg) + 1 == height(lg));
                        } else {
                            assert(rightg.children@[j] == rg.children@[j - 1]);
                            assert(inv_core(rg.children@[j - 1]));
                            assert(height(rg.children@[j - 1]) + 1 == height(rg));
                        }
                    }
                    lemma_height_of_uniform(rightg.children@, (height(rg) - 1) as nat);
                    assert(height(rightg) == height(rg));
                    assert forall|j: int, k: usize|
                        0 <= j < rightg.children@.len() && #[trigger] mkeys(
                            rightg.children@[j],
                        ).contains(k) implies bounded(rightg.keys@, j, k) by {
                        if j == 0 {
                            assert(mkeys(movedg).contains(k));
                            assert(k < pk);
                            assert(rightg.keys@[0] == pk);
                        } else {
                            assert(rightg.children@[j] == rg.children@[j - 1]);
                            assert(mkeys(rg.children@[j - 1]).contains(k));
                            assert(bounded(rg.keys@, j - 1, k));
                            if j == 1 {
                                lemma_mkeys_child_le(rg, 0, k);
                                assert(mkeys(rg).contains(k));
                                assert(rightg.keys@[0] == pk);
                            } else {
                                assert(rightg.keys@[j - 1] == rg.keys@[j - 2]);
                            }
                            if j < rightg.keys@.len() {
                                assert(rightg.keys@[j] == rg.keys@[j - 1]);
                            }
                        }
                    }
                }
            }
            if rightg.is_leaf {
                assert(height(rightg) == 0 && height(rg) == 0);
            }
        }
        self.children.insert(idx - 1, left);
        self.children.insert(idx, right);
        proof {
            let cs = self.children@;
            let ks = self.keys@;
            assert(cs.len() == oldcs.len());
            assert(ks == oldn.keys@.remove(idx as int - 1).insert(idx as int - 1, borrowed));
            assert(ks =~= oldn.keys@.update(idx as int - 1, borrowed)) by {
                assert forall|m: int| 0 <= m < ks.len() implies #[trigger] ks[m]
                    == oldn.keys@.update(idx as int - 1, borrowed)[m] by {
                    if m < idx - 1 {
                        assert(ks[m] == oldn.keys@.remove(idx as int - 1)[m]);
                        assert(oldn.keys@.remove(idx as int - 1)[m] == oldn.keys@[m]);
                    } else if m > idx - 1 {
                        assert(ks[m] == oldn.keys@.remove(idx as int - 1)[m - 1]);
                        assert(oldn.keys@.remove(idx as int - 1)[m - 1] == oldn.keys@[m]);
                    }
                }
            }
            lemma_update_to_multiset(oldn.keys@, idx as int - 1, borrowed);
            assert forall|j: int| 0 <= j < cs.len() implies #[trigger] cs[j] == (if j == idx - 1 {
                leftg
            } else if j == idx {
                rightg
            } else {
                oldcs[j]
            }) by {
                let base = oldcs.remove(idx as int).remove(idx as int - 1);
                if j < idx - 1 {
                    assert(cs[j] == base.insert(idx as int - 1, leftg)[j]);
                    assert(base.insert(idx as int - 1, leftg)[j] == base[j]);
                    assert(base[j] == oldcs.remove(idx as int)[j]);
                    assert(oldcs.remove(idx as int)[j] == oldcs[j]);
                } else if j > idx {
                    assert(cs[j] == base.insert(idx as int - 1, leftg)[j - 1]);
                    assert(base.insert(idx as int - 1, leftg)[j - 1] == base[j - 2]);
                    assert(base[j - 2] == oldcs.remove(idx as int)[j - 1]);
                    assert(oldcs.remove(idx as int)[j - 1] == oldcs[j]);
                }
            }
            // the keys below this node are unchanged
            lemma_mkeys_of_split(cs, idx as int - 1);
            lemma_mkeys_of_split(oldcs, idx as int - 1);
            let rest = oldcs.subrange(idx as int, oldcs.len() as int);
            let rest2 = cs.subrange(idx as int, cs.len() as int);
            lemma_mkeys_of_split(rest, 0);
            lemma_mkeys_of_split(rest2, 0);
            assert(rest[0] == rg);
            assert(rest2[0] == rightg);
            assert(cs.subrange(0, idx as int - 1) =~= oldcs.subrange(0, idx as int - 1)) by {
                assert forall|j: int|
                    0 <= j < idx - 1 implies #[trigger] cs.subrange(0, idx as int - 1)[j]
                    == oldcs.subrange(0, idx as int - 1)[j] by {
                    assert(cs.subrange(0, idx as int - 1)[j] == cs[j]);
                    assert(oldcs.subrange(0, idx as int - 1)[j] == oldcs[j]);
                }
                assert(cs.subrange(0, idx as int - 1).len() == idx as int - 1);
                assert(oldcs.subrange(0, idx as int - 1).len() == idx as int - 1);
            }
            assert(rest2.subrange(1, rest2.len() as int) =~= rest.subrange(
                1,
                rest.len() as int,
            )) by {
                assert forall|j: int|
                    0 <= j < rest.len() - 1 implies #[trigger] rest2.subrange(
                    1,
                    rest2.len() as int,
                )[j] == rest.subrange(1, rest.len() as int)[j] by {
                    assert(rest2.subrange(1, rest2.len() as int)[j] == rest2[j + 1]);
                    assert(rest.subrange(1, rest.len() as int)[j] == rest[j + 1]);
                    assert(rest2[j + 1] == cs[idx + 1 + j]);
                    assert(rest[j + 1] == oldcs[idx + 1 + j]);
                    assert(cs[idx + 1 + j] == oldcs[idx + 1 + j]);
                }
                assert(rest2.subrange(1, rest2.len() as int).len() == rest2.len() - 1);
                assert(rest.subrange(1, rest.len() as int).len() == rest.len() - 1);
            }
            assert(mkeys(*self) =~= mkeys(oldn));
            // the parent's key row is still sorted
            assert forall|a: int, b: int| 0 <= a < b < ks.len() implies ks[a] < ks[b] by {
                if a == idx - 1 {
                    assert(ks[b] == oldn.keys@[b]);
                    assert(borrowed < pk);
                    if b > idx - 1 {
                        assert(oldn.keys@[idx as int - 1] <= oldn.keys@[b] || idx as int - 1
                            >= b);
                    }
                } else if b == idx - 1 {
                    assert(ks[a] == oldn.keys@[a]);
                    assert(mkeys(lg).contains(borrowed));
                    assert(bounded(oldn.keys@, idx as int - 1, borrowed));
                    if a < idx - 2 {
                        assert(oldn.keys@[a] < oldn.keys@[idx as int - 2]);
                    }
                } else {
                    assert(ks[a] == oldn.keys@[a]);
                    assert(ks[b] == oldn.keys@[b]);
                }
            }
            // each child keeps an interval
            assert forall|j: int, k: usize|
                0 <= j < cs.len() && #[trigger] mkeys(cs[j]).contains(k) implies bounded(
                ks,
                j,
                k,
            ) by {
                let ok = oldn.keys@;
                if j < idx - 1 {
                    assert(cs[j] == oldcs[j]);
                    assert(bounded(ok, j, k));
                    if j > 0 {
                        assert(ks[j - 1] == ok[j - 1]);
                    }
                    if j < ks.len() {
                        if j == idx - 1 {
                        } else {
                            assert(ks[j] == ok[j]);
                        }
                    }
                } else if j == idx - 1 {
                    assert(mkeys(leftg).contains(k));
                    assert(k < borrowed);
                    assert(ks[idx as int - 1] == borrowed);
                    if j > 0 {
                        assert(ks[j - 1] == ok[j - 1]);
                        assert(mkeys(lg).count(k) >= mkeys(leftg).count(k));
                        assert(mkeys(lg).contains(k));
                        assert(bounded(ok, idx as int - 1, k));
                    }
                } else if j == idx {
                    assert(mkeys(rightg).contains(k));
                    assert(ks[idx as int - 1] == borrowed);
                    if mkeys(rg).count(k) >= 1 {
                        assert(mkeys(rg).contains(k));
                        assert(k > pk && pk > borrowed);
                        if (idx as int) < ks.len() {
                            assert(bounded(ok, idx as int, k));
                            assert(ks[idx as int] == ok[idx as int]);
                        }
                    } else if k == pk {
                        assert(pk > borrowed);
                        if (idx as int) < ks.len() {
                            assert(ks[idx as int] == ok[idx as int]);
                            assert(pk < ok[idx as int]);
                        }
                    } else {
                        assert(mkeys(movedg).count(k) >= 1 && !lg.is_leaf);
                        assert(mkeys(movedg).contains(k));
                        assert(borrowed < k && k < pk);
                        if (idx as int) < ks.len() {
                            assert(ks[idx as int] == ok[idx as int]);
                            assert(pk < ok[idx as int]);
                        }
                    }
                } else {
                    assert(cs[j] == oldcs[j]);
                    assert(bounded(ok, j, k));
                    assert(ks[j - 1] == ok[j - 1]);
                    if j < ks.len() {
                        assert(ks[j] == ok[j]);
                    }
                }
            }
            assert forall|j: int| 0 <= j < cs.len() implies inv_core(#[trigger] cs[j])
                && cs[j].keys@.len() >= T - 1 by {
                if j != idx - 1 && j != idx {
                    assert(cs[j] == oldcs[j]);
                }
            }
            assert forall|j: int| 0 <= j < cs.len() implies height(#[trigger] cs[j]) + 1
                == height(oldn) by {
                if j == idx - 1 {
                    assert(height(leftg) == height(lg));
                } else if j == idx {
                    assert(height(rightg) == height(rg));
                } else {
                    assert(cs[j] == oldcs[j]);
                    assert(height(oldcs[j]) + 1 == height(oldn));
                }
            }
            assert(height(*self) == height(oldn)) by {
                lemma_height_of_uniform(cs, (height(oldn) - 1) as nat);
                lemma_height_of_uniform(oldcs, (height(oldn) - 1) as nat);
            }
            assert(inv_core(*self));
        }
    }
}



impl Node {
    /// Move the separator above child `idx` down onto the end of that
    /// child and the right sibling's least key up into its place; an inner
    /// sibling also hands over its first subtree. The keys below this node
    /// are unchanged.
    #[verifier::rlimit(100)]
    pub fn borrow_right(&mut self, idx: usize)
        requires
            inv_core(*old(self)),
            !old(self).is_leaf,
            idx + 1 < old(self).children@.len(),
            old(self).children@[idx as int + 1].keys@.len() >= T,
            old(self).children@[idx as int].keys@.len() < 2 * T - 1,
        ensures
            inv_core(*final(self)),
            final(self).is_leaf == old(self).is_leaf,
            final(self).size == old(self).size,
            final(self).keys@.len() == old(self).keys@.len(),
            final(self).children@.len() == old(self).children@.len(),
            forall|j: int|
                0 <= j < final(self).children@.len() && j != idx && j != idx + 1
                    ==> final(self).children@[j] == old(self).children@[j],
            forall|m: int|
                0 <= m < final(self).keys@.len() && m != idx
                    ==> final(self).keys@[m] == old(self).keys@[m],
            final(self).keys@[idx as int] > old(self).keys@[idx as int],
            final(self).children@[idx as int].keys@.len()
                == old(self).children@[idx as int].keys@.len() + 1,
            mkeys(*final(self)) == mkeys(*old(self)),
            height(*final(self)) == height(*old(self)),
    {
        let ghost oldn = *old(self);
        let ghost oldcs = old(self).children@;
        let ghost lg = oldcs[idx as int];
        let ghost rg = oldcs[idx as int + 1];
        let ghost pk = oldn.keys@[idx as int];
        proof {
            assert(inv_core(lg) && inv_core(rg));
            assert(height(lg) + 1 == height(oldn));
            assert(height(rg) + 1 == height(oldn));
            lemma_leaf_height(lg);
            lemma_leaf_height(rg);
            assert(lg.is_leaf == rg.is_leaf);
            lemma_mkeys_of_split(oldcs, idx as int);
            let rest = oldcs.subrange(idx as int + 1, oldcs.len() as int);
            lemma_mkeys_of_split(rest, 0);
            assert(rest[0] == rg);
            assert(mkeys(oldn).len() == oldn.size);
            assert(oldn.keys@.to_multiset().len() == oldn.keys@.len());
            assert(mkeys(lg).len() + mkeys(rg).len() + 1 <= oldn.size);
        }
        let parent_key = self.keys[idx];
        let mut right = self.children.remove(idx + 1);
        let mut left = self.children.remove(idx);
        left.keys.push(parent_key);
        let borrowed = right.keys.remove(0);
        proof {
            assert(borrowed == rg.keys@[0]);
            assert(rg.keys@.contains(borrowed));
            assert(rg.keys@.to_multiset().contains(borrowed));
            assert(mkeys(rg).contains(borrowed));
            assert(bounded(oldn.keys@, idx as int + 1, borrowed));
            assert(borrowed > pk);
            assert(left.keys@ =~= lg.keys@ + seq![pk]);
            lemma_to_multiset_concat(lg.keys@, seq![pk]);
            assert(seq![pk] =~= Seq::<usize>::empty().push(pk));
            assert(Seq::<usize>::empty().to_multiset() =~= Multiset::<usize>::empty());
        }
        let _ = self.keys.remove(idx);
        self.keys.insert(idx, borrowed);
        left.size = left.size + 1;
        right.size = right.size - 1;
        let ghost movedg = if rg.is_leaf {
            rg
        } else {
            rg.children@[0]
        };
        if !right.is_leaf {
            proof {
                lemma_mkeys_of_split(rg.children@, 0);
                assert(rg.children@.subrange(0, 0) =~= Seq::<Node>::empty());
                assert(mkeys_of(Seq::<Node>::empty()) =~= Multiset::<usize>::empty());
                assert(inv_core(rg.children@[0]));
            }
            let moved = right.children.remove(0);
            let moved_size = moved.size;
            left.children.push(moved);
            left.size = left.size + moved_size;
            right.size = right.size - moved_size;
            proof {
                assert(right.children@ =~= rg.children@.subrange(1, rg.children@.len() as int));
                assert(left.children@ =~= lg.children@ + seq![movedg]);
                lemma_mkeys_of_concat(lg.children@, seq![movedg]);
                assert(seq![movedg].drop_first() =~= Seq::<Node>::empty());
                assert(mkeys_of(seq![movedg]) =~= mkeys(movedg));
            }
        }
        let ghost leftg = left;
        let ghost rightg = right;
        proof {
            let lkm = if rg.is_leaf {
                Multiset::<usize>::empty()
            } else {
                mkeys(movedg)
            };
            assert(mkeys(leftg) =~= mkeys(lg).insert(pk).add(lkm));
            assert(mkeys(rightg) =~= mkeys(rg).remove(borrowed).sub(lkm));
            assert(mkeys(leftg).len() == leftg.size);
            assert(mkeys(rightg).len() == rightg.size);
            assert forall|k: usize| #[trigger] mkeys(lg).contains(k) implies k < pk by {
                assert(bounded(oldn.keys@, idx as int, k));
            }
            assert forall|k: usize| #[trigger] mkeys(rg).contains(k) implies k > pk by {
                assert(bounded(oldn.keys@, idx as int + 1, k));
            }
            if !rg.is_leaf {
                assert forall|k: usize| #[trigger] mkeys(movedg).contains(k) implies pk < k
                    < borrowed by {
                    lemma_mkeys_child_le(rg, 0, k);
                    assert(mkeys(rg).contains(k));
                    assert(bounded(rg.keys@, 0, k));
                }
            }
            // every key of the reshaped right child is above the borrowed
            // key
            assert forall|k: usize| #[trigger] mkeys(rightg).contains(k) implies k
                > borrowed by {
                if rightg.keys@.to_multiset().count(k) >= 1 {
                    assert(rightg.keys@.contains(k));
                    let a = choose|a: int| 0 <= a < rightg.keys@.len() && rightg.keys@[a] == k;
                    assert(rightg.keys@[a] == rg.keys@[a + 1]);
                    assert(rg.keys@[0] < rg.keys@[a + 1]);
                } else {
                    assert(mkeys_of(rightg.children@).count(k) >= 1);
                    lemma_mkeys_of_contains(rightg.children@, k);
                    let j = choose|j: int|
                        0 <= j < rightg.children@.len() && mkeys(
                            #[trigger] rightg.children@[j],
                        ).contains(k);
                    assert(rightg.children@[j] == rg.children@[j + 1]);
                    assert(mkeys(rg.children@[j + 1]).contains(k));
                    assert(bounded(rg.keys@, j + 1, k));
                    assert(rg.keys@[j] >= rg.keys@[0]);
                }
            }
            // the reshaped children are well-formed
            assert(inv_core(leftg)) by {
                assert forall|a: int, b: int|
                    0 <= a < b < leftg.keys@.len() implies leftg.keys@[a] < leftg.keys@[b] by {
                    if b == leftg.keys@.len() - 1 {
                        assert(leftg.keys@[a] == lg.keys@[a]);
                        assert(lg.keys@.contains(lg.keys@[a]));
                        assert(lg.keys@.to_multiset().contains(lg.keys@[a]));
                        assert(mkeys(lg).contains(lg.keys@[a]));
                    } else {
                        assert(leftg.keys@[a] == lg.keys@[a]);
                        assert(leftg.keys@[b] == lg.keys@[b]);
                    }
                }
                if !leftg.is_leaf {
                    assert forall|j: int| 0 <= j < leftg.children@.len() implies inv_core(
                        #[trigger] leftg.children@[j],
                    ) && leftg.children@[j].keys@.len() >= T - 1 && height(leftg.children@[j])
                        + 1 == height(lg) by {
                        if j < leftg.children@.len() - 1 {
                            assert(leftg.children@[j] == lg.children@[j]);
                            assert(inv_core(lg.children@[j]));
                            assert(height(lg.children@[j]) + 1 == height(lg));
                        } else {
                            assert(leftg.children@[j] == movedg);
                            assert(inv_core(movedg));
                            assert(height(movedg) + 1 == height(rg));
                        }
                    }
                    lemma_height_of_uniform(leftg.children@, (height(lg) - 1) as nat);
                    assert(height(leftg) == height(lg));
                    assert forall|j: int, k: usize|
                        0 <= j < leftg.children@.len() && #[trigger] mkeys(
                            leftg.children@[j],
                        ).contains(k) implies bounded(leftg.keys@, j, k) by {
                        if j < leftg.children@.len() - 1 {
                            assert(leftg.children@[j] == lg.children@[j]);
                            assert(mkeys(lg.children@[j]).contains(k));
                            assert(bounded(lg.keys@, j, k));
                            if j > 0 {
                                assert(leftg.keys@[j - 1] == lg.keys@[j - 1]);
                            }
                            if j == lg.keys@.len() {
                                lemma_mkeys_child_le(lg, j, k);
                                assert(mkeys(lg).contains(k));
                                assert(leftg.keys@[j] == pk);
                            } else {
                                assert(leftg.keys@[j] == lg.keys@[j]);
                            }
                        } else {
                            assert(mkeys(movedg).contains(k));
                            assert(pk < k);
                            assert(leftg.keys@[j - 1] == pk);
                        }
                    }
                }
            }
            if leftg.is_leaf {
                assert(height(leftg) == 0 && height(lg) == 0);
            }
            assert(inv_core(rightg)) by {
                assert forall|a: int, b: int|
                    0 <= a < b < rightg.keys@.len() implies rightg.keys@[a] < rightg.keys@[b] by {
                    assert(rightg.keys@[a] == rg.keys@[a + 1]);
                    assert(rightg.keys@[b] == rg.keys@[b + 1]);
                }
                if !rightg.is_leaf {
                    assert forall|j: int| 0 <= j < rightg.children@.len() implies inv_core(
                        #[trigger] rightg.children@[j],
                    ) && rightg.children@[j].keys@.len() >= T - 1 && height(
                        rightg.children@[j],
                    ) + 1 == height(rg) by {
                        assert(rightg.children@[j] == rg.children@[j + 1]);
                        assert(inv_core(rg.children@[j + 1]));
                        assert(height(rg.children@[j + 1]) + 1 == height(rg));
                    }
                    lemma_height_of_uniform(rightg.children@, (height(rg) - 1) as nat);
                    assert(height(rightg) == height(rg));
                    assert forall|j: int, k: usize|
                        0 <= j < rightg.children@.len() && #[trigger] mkeys(
                            rightg.children@[j],
                        ).contains(k) implies bounded(rightg.keys@, j, k) by {
                        assert(rightg.children@[j] == rg.children@[j + 1]);
                        assert(mkeys(rg.children@[j + 1]).contains(k));
                        assert(bounded(rg.keys@, j + 1, k));
                        if j > 0 {
                            assert(rightg.keys@[j - 1] == rg.keys@[j]);
                        }
                        if j < rightg.keys@.len() {
                            assert(rightg.keys@[j] == rg.keys@[j + 1]);
                        }
                    }
                }
            }
            if rightg.is_leaf {
                assert(height(rightg) == 0 && height(rg) == 0);
            }
        }
        self.children.insert(idx, left);
        self.children.insert(idx + 1, right);
        proof {
            let cs = self.children@;
            let ks = self.keys@;
            assert(cs.len() == oldcs.len());
            assert(ks =~= oldn.keys@.update(idx as int, borrowed)) by {
                assert forall|m: int| 0 <= m < ks.len() implies #[trigger] ks[m]
                    == oldn.keys@.update(idx as int, borrowed)[m] by {
                    if m < idx {
                        assert(ks[m] == oldn.keys@.remove(idx as int)[m]);
                        assert(oldn.keys@.remove(idx as int)[m] == oldn.keys@[m]);
                    } else if m > idx {
                        assert(ks[m] == oldn.keys@.remove(idx as int)[m - 1]);
                        assert(oldn.keys@.remove(idx as int)[m - 1] == oldn.keys@[m]);
                    }
                }
            }
            lemma_update_to_multiset(oldn.keys@, idx as int, borrowed);
            assert forall|j: int| 0 <= j < cs.len() implies #[trigger] cs[j] == (if j == idx {
                leftg
            } else if j == idx + 1 {
                rightg
            } else {
                oldcs[j]
            }) by {
                let base = oldcs.remove(idx as int + 1).remove(idx as int);
                if j < idx {
                    assert(cs[j] == base.insert(idx as int, leftg)[j]);
                    assert(base.insert(idx as int, leftg)[j] == base[j]);
                    assert(base[j] == oldcs.remove(idx as int + 1)[j]);
                    assert(oldcs.remove(idx as int + 1)[j] == oldcs[j]);
                } else if j > idx + 1 {
                    assert(cs[j] == base.insert(idx as int, leftg)[j - 1]);
                    assert(base.insert(idx as int, leftg)[j - 1] == base[j - 2]);
                    assert(base[j - 2] == oldcs.remove(idx as int + 1)[j - 1]);
                    assert(oldcs.remove(idx as int + 1)[j - 1] == oldcs[j]);
                }
            }
            lemma_mkeys_of_split(cs, idx as int);
            lemma_mkeys_of_split(oldcs, idx as int);
            let rest = oldcs.subrange(idx as int + 1, oldcs.len() as int);
            let rest2 = cs.subrange(idx as int + 1, cs.len() as int);
            lemma_mkeys_of_split(rest, 0);
            lemma_mkeys_of_split(rest2, 0);
            assert(rest[0] == rg);
            assert(rest2[0] == rightg);
            assert(cs.subrange(0, idx as int) =~= oldcs.subrange(0, idx as int)) by {
                assert forall|j: int|
                    0 <= j < idx implies #[trigger] cs.subrange(0, idx as int)[j]
                    == oldcs.subrange(0, idx as int)[j] by {
                    assert(cs.subrange(0, idx as int)[j] == cs[j]);
                    assert(oldcs.subrange(0, idx as int)[j] == oldcs[j]);
                }
                assert(cs.subrange(0, idx as int).len() == idx as int);
                assert(oldcs.subrange(0, idx as int).len() == idx as int);
            }
            assert(rest2.subrange(1, rest2.len() as int) =~= rest.subrange(
                1,
                rest.len() as int,
            )) by {
                assert forall|j: int|
                    0 <= j < rest.len() - 1 implies #[trigger] rest2.subrange(
                    1,
                    rest2.len() as int,
                )[j] == rest.subrange(1, rest.len() as int)[j] by {
                    assert(rest2.subrange(1, rest2.len() as int)[j] == rest2[j + 1]);
                    assert(rest.subrange(1, rest.len() as int)[j] == rest[j + 1]);
                    assert(rest2[j + 1] == cs[idx + 2 + j]);
                    assert(rest[j + 1] == oldcs[idx + 2 + j]);
                    assert(cs[idx + 2 + j] == oldcs[idx + 2 + j]);
                }
                assert(rest2.subrange(1, rest2.len() as int).len() == rest2.len() - 1);
                assert(rest.subrange(1, rest.len() as int).len() == rest.len() - 1);
            }
            assert(mkeys(*self) =~= mkeys(oldn));
            assert forall|a: int, b: int| 0 <= a < b < ks.len() implies ks[a] < ks[b] by {
                if a == idx {
                    assert(ks[b] == oldn.keys@[b]);
                    assert(mkeys(rg).contains(borrowed));
                    assert(bounded(oldn.keys@, idx as int + 1, borrowed));
                } else if b == idx {
                    assert(ks[a] == oldn.keys@[a]);
                    assert(borrowed > pk);
                } else {
                    assert(ks[a] == oldn.keys@[a]);
                    assert(ks[b] == oldn.keys@[b]);
                }
            }
            assert forall|j: int, k: usize|
                0 <= j < cs.len() && #[trigger] mkeys(cs[j]).contains(k) implies bounded(
                ks,
                j,
                k,
            ) by {
                let ok = oldn.keys@;
                if j < idx {
                    assert(cs[j] == oldcs[j]);
                    assert(bounded(ok, j, k));
                    if j > 0 {
                        assert(ks[j - 1] == ok[j - 1]);
                    }
                    if j < ks.len() && j != idx {
                        assert(ks[j] == ok[j] || j == idx);
                        if j < idx {
                            assert(ks[j] == ok[j]);
                        }
                    }
                } else if j == idx {
                    assert(mkeys(leftg).contains(k));
                    assert(ks[idx as int] == borrowed);
                    if j > 0 {
                        assert(ks[j - 1] == ok[j - 1]);
                    }
                    if mkeys(lg).count(k) >= 1 {
                        assert(mkeys(lg).contains(k));
                        assert(k < pk && pk < borrowed);
                        if j > 0 {
                            assert(bounded(ok, idx as int, k));
                        }
                    } else if k == pk {
                        assert(pk < borrowed);
                        if j > 0 {
                            assert(ok[idx - 1] < ok[idx as int]);
                        }
                    } else {
                        assert(mkeys(movedg).count(k) >= 1 && !rg.is_leaf);
                        assert(mkeys(movedg).contains(k));
                        assert(pk < k && k < borrowed);
                        if j > 0 {
                            assert(ok[idx - 1] < ok[idx as int]);
                        }
                    }
                } else if j == idx + 1 {
                    assert(mkeys(rightg).contains(k));
                    assert(k > borrowed);
                    assert(ks[idx as int] == borrowed);
                    if j < ks.len() {
                        assert(ks[j] == ok[j]);
                        assert(mkeys(rg).count(k) >= mkeys(rightg).count(k));
                        assert(mkeys(rg).contains(k));
                        assert(bounded(ok, idx as int + 1, k));
                    }
                } else {
                    assert(cs[j] == oldcs[j]);
                    assert(bounded(ok, j, k));
                    assert(ks[j - 1] == ok[j - 1]);
                    if j < ks.len() {
                        assert(ks[j] == ok[j]);
                    }
                }
            }
            assert forall|j: int| 0 <= j < cs.len() implies inv_core(#[trigger] cs[j])
                && cs[j].keys@.len() >= T - 1 by {
                if j != idx && j != idx + 1 {
                    assert(cs[j] == oldcs[j]);
                }
            }
            assert forall|j: int| 0 <= j < cs.len() implies height(#[trigger] cs[j]) + 1
                == height(oldn) by {
                if j == idx {
                    assert(height(leftg) == height(lg));
                } else if j == idx + 1 {
                    assert(height(rightg) == height(rg));
                } else {
                    assert(cs[j] == oldcs[j]);
                    assert(height(oldcs[j]) + 1 == height(oldn));
                }
            }
            assert(height(*self) == height(oldn)) by {
                lemma_height_of_uniform(cs, (height(oldn) - 1) as nat);
                lemma_height_of_uniform(oldcs, (height(oldn) - 1) as nat);
            }
            assert(inv_core(*self));
        }
    }
}



/// Replacing a separator by the greatest key of the child below it, after
/// that key has been removed from the child, removes exactly the old
/// separator from the subtree.
#[verifier::rlimit(100)]
proof fn lemma_remove_via_pred(oldn: Node, m2: Node, idx: int, c2: Node, pred: usize)
    requires
        inv_core(oldn),
        !oldn.is_leaf,
        0 <= idx < oldn.keys@.len(),
        mkeys(oldn.children@[idx]).contains(pred),
        forall|k: usize| #[trigger] mkeys(oldn.children@[idx]).contains(k) ==> k <= pred,
        pred < oldn.keys@[idx],
        inv_core(c2),
        c2.keys@.len() >= T - 1,
        height(c2) == height(oldn.children@[idx]),
        mkeys(c2) == mkeys(oldn.children@[idx]).remove(pred),
        m2.is_leaf == oldn.is_leaf,
        m2.keys@ == oldn.keys@.update(idx, pred),
        m2.children@ == oldn.children@.update(idx, c2),
        m2.size == oldn.size - 1,
    ensures
        inv_core(m2),
        mkeys(m2) == mkeys(oldn).remove(oldn.keys@[idx]),
        height(m2) == height(oldn),
{
    let ks = oldn.keys@;
    let cs = oldn.children@;
    let val = ks[idx];
    let c = cs[idx];
    assert(inv_core(c));
    lemma_inv_distinct(c, pred);
    // heights
    assert(m2.children@.len() == cs.len());
    assert forall|j: int| 0 <= j < m2.children@.len() implies height(#[trigger] m2.children@[j])
        + 1 == height(oldn) by {
        if j != idx {
            assert(m2.children@[j] == cs[j]);
        }
        assert(height(cs[j]) + 1 == height(oldn));
    }
    assert(height(m2) == height(oldn)) by {
        lemma_height_of_uniform(m2.children@, (height(oldn) - 1) as nat);
        lemma_height_of_uniform(cs, (height(oldn) - 1) as nat);
    }
    assert forall|j: int| 0 <= j < m2.children@.len() implies height(#[trigger] m2.children@[j])
        + 1 == height(m2) by {
        assert(height(m2.children@[j]) + 1 == height(oldn));
    }
    // key multiset
    lemma_update_to_multiset(ks, idx, pred);
    lemma_mkeys_of_split(cs, idx);
    lemma_mkeys_of_split(m2.children@, idx);
    let len = cs.len() as int;
    assert(m2.children@.subrange(0, idx) =~= cs.subrange(0, idx)) by {
        assert forall|j: int| 0 <= j < idx implies #[trigger] m2.children@.subrange(0, idx)[j]
            == cs.subrange(0, idx)[j] by {
            assert(m2.children@.subrange(0, idx)[j] == m2.children@[j]);
            assert(cs.subrange(0, idx)[j] == cs[j]);
            assert(m2.children@[j] == cs[j]);
        }
        assert(m2.children@.subrange(0, idx).len() == idx);
        assert(cs.subrange(0, idx).len() == idx);
    }
    assert(m2.children@.subrange(idx + 1, len) =~= cs.subrange(idx + 1, len)) by {
        assert forall|j: int|
            0 <= j < len - idx - 1 implies #[trigger] m2.children@.subrange(idx + 1, len)[j]
            == cs.subrange(idx + 1, len)[j] by {
            assert(m2.children@.subrange(idx + 1, len)[j] == m2.children@[idx + 1 + j]);
            assert(cs.subrange(idx + 1, len)[j] == cs[idx + 1 + j]);
            assert(m2.children@[idx + 1 + j] == cs[idx + 1 + j]);
        }
        assert(m2.children@.subrange(idx + 1, len).len() == len - idx - 1);
        assert(cs.subrange(idx + 1, len).len() == len - idx - 1);
    }
    assert(mkeys(m2) =~= mkeys(oldn).remove(val));
    // sorted keys
    assert forall|a: int, b: int| 0 <= a < b < m2.keys@.len() implies m2.keys@[a]
        < m2.keys@[b] by {
        assert(bounded(ks, idx, pred));
        if a == idx {
            assert(m2.keys@[b] == ks[b]);
            assert(ks[idx] <= ks[b] || idx >= b);
            assert(pred < ks[idx]);
            assert(ks[idx] < ks[b]);
        } else if b == idx {
            assert(m2.keys@[a] == ks[a]);
            assert(ks[a] < pred);
        } else {
            assert(m2.keys@[a] == ks[a]);
            assert(m2.keys@[b] == ks[b]);
        }
    }
    // intervals
    assert forall|j: int, k: usize|
        0 <= j < m2.children@.len() && #[trigger] mkeys(m2.children@[j]).contains(k) implies
    bounded(m2.keys@, j, k) by {
        if j == idx {
            assert(mkeys(c2).count(k) >= 1);
            assert(mkeys(c).count(k) >= 1);
            assert(mkeys(c).contains(k));
            assert(bounded(ks, idx, k));
            assert(k <= pred);
            assert(mkeys(c).count(pred) <= 1);
            assert(mkeys(c2).count(pred) == 0);
            assert(k != pred);
            assert(k < pred);
            assert(m2.keys@[idx] == pred);
            if j > 0 {
                assert(m2.keys@[j - 1] == ks[j - 1]);
            }
        } else if j == idx + 1 {
            assert(m2.children@[j] == cs[j]);
            assert(mkeys(cs[j]).contains(k));
            assert(bounded(ks, j, k));
            assert(m2.keys@[idx] == pred);
            assert(ks[idx] < k);
            if j < m2.keys@.len() {
                assert(m2.keys@[j] == ks[j]);
            }
        } else {
            assert(m2.children@[j] == cs[j]);
            assert(mkeys(cs[j]).contains(k));
            assert(bounded(ks, j, k));
            if j > 0 {
                assert(m2.keys@[j - 1] == ks[j - 1]);
            }
            if j < m2.keys@.len() {
                assert(m2.keys@[j] == ks[j]);
            }
        }
    }
    assert forall|j: int| 0 <= j < m2.children@.len() implies inv_core(
        #[trigger] m2.children@[j],
    ) && m2.children@[j].keys@.len() >= T - 1 by {
        if j != idx {
            assert(m2.children@[j] == cs[j]);
        }
    }
}

/// Replacing a separator by the least key of the child above it, after
/// that key has been removed from the child, removes exactly the old
/// separator from the subtree.
#[verifier::rlimit(100)]
proof fn lemma_remove_via_succ(oldn: Node, m2: Node, idx: int, c2: Node, succ: usize)
    requires
        inv_core(oldn),
        !oldn.is_leaf,
        0 <= idx < oldn.keys@.len(),
        mkeys(oldn.children@[idx + 1]).contains(succ),
        forall|k: usize| #[trigger] mkeys(oldn.children@[idx + 1]).contains(k) ==> k >= succ,
        succ > oldn.keys@[idx],
        inv_core(c2),
        c2.keys@.len() >= T - 1,
        height(c2) == height(oldn.children@[idx + 1]),
        mkeys(c2) == mkeys(oldn.children@[idx + 1]).remove(succ),
        m2.is_leaf == oldn.is_leaf,
        m2.keys@ == oldn.keys@.update(idx, succ),
        m2.children@ == oldn.children@.update(idx + 1, c2),
        m2.size == oldn.size - 1,
    ensures
        inv_core(m2),
        mkeys(m2) == mkeys(oldn).remove(oldn.keys@[idx]),
        height(m2) == height(oldn),
{
    let ks = oldn.keys@;
    let cs = oldn.children@;
    let val = ks[idx];
    let c = cs[idx + 1];
    assert(inv_core(c));
    lemma_inv_distinct(c, succ);
    assert(m2.children@.len() == cs.len());
    assert forall|j: int| 0 <= j < m2.children@.len() implies height(#[trigger] m2.children@[j])
        + 1 == height(oldn) by {
        if j != idx + 1 {
            assert(m2.children@[j] == cs[j]);
        }
        assert(height(cs[j]) + 1 == height(oldn));
    }
    assert(height(m2) == height(oldn)) by {
        lemma_height_of_uniform(m2.children@, (height(oldn) - 1) as nat);
        lemma_height_of_uniform(cs, (height(oldn) - 1) as nat);
    }
    assert forall|j: int| 0 <= j < m2.children@.len() implies height(#[trigger] m2.children@[j])
        + 1 == height(m2) by {
        assert(height(m2.children@[j]) + 1 == height(oldn));
    }
    lemma_update_to_multiset(ks, idx, succ);
    lemma_mkeys_of_split(cs, idx + 1);
    lemma_mkeys_of_split(m2.children@, idx + 1);
    let len = cs.len() as int;
    assert(m2.children@.subrange(0, idx + 1) =~= cs.subrange(0, idx + 1)) by {
        assert forall|j: int| 0 <= j < idx + 1 implies #[trigger] m2.children@.subrange(
            0,
            idx + 1,
        )[j] == cs.subrange(0, idx + 1)[j] by {
            assert(m2.children@.subrange(0, idx + 1)[j] == m2.children@[j]);
            assert(cs.subrange(0, idx + 1)[j] == cs[j]);
            assert(m2.children@[j] == cs[j]);
        }
        assert(m2.children@.subrange(0, idx + 1).len() == idx + 1);
        assert(cs.subrange(0, idx + 1).len() == idx + 1);
    }
    assert(m2.children@.subrange(idx + 2, len) =~= cs.subrange(idx + 2, len)) by {
        assert forall|j: int|
            0 <= j < len - idx - 2 implies #[trigger] m2.children@.subrange(idx + 2, len)[j]
            == cs.subrange(idx + 2, len)[j] by {
            assert(m2.children@.subrange(idx + 2, len)[j] == m2.children@[idx + 2 + j]);
            assert(cs.subrange(idx + 2, len)[j] == cs[idx + 2 + j]);
            assert(m2.children@[idx + 2 + j] == cs[idx + 2 + j]);
        }
        assert(m2.children@.subrange(idx + 2, len).len() == len - idx - 2);
        assert(cs.subrange(idx + 2, len).len() == len - idx - 2);
    }
    assert(mkeys(m2) =~= mkeys(oldn).remove(val));
    assert forall|a: int, b: int| 0 <= a < b < m2.keys@.len() implies m2.keys@[a]
        < m2.keys@[b] by {
        assert(bounded(ks, idx + 1, succ));
        if a == idx {
            assert(m2.keys@[b] == ks[b]);
            assert(b >= idx + 1);
            assert(succ < ks[idx + 1] || idx + 1 == ks.len());
            if b > idx + 1 {
                assert(ks[idx + 1] < ks[b]);
            }
        } else if b == idx {
            assert(m2.keys@[a] == ks[a]);
            assert(ks[a] <= ks[idx] || a >= idx);
            if a < idx {
                assert(ks[a] < ks[idx]);
            }
            assert(ks[idx] < succ);
        } else {
            assert(m2.keys@[a] == ks[a]);
            assert(m2.keys@[b] == ks[b]);
        }
    }
    assert forall|j: int, k: usize|
        0 <= j < m2.children@.len() && #[trigger] mkeys(m2.children@[j]).contains(k) implies
    bounded(m2.keys@, j, k) by {
        if j == idx + 1 {
            assert(mkeys(c2).count(k) >= 1);
            assert(mkeys(c).count(k) >= 1);
            assert(mkeys(c).contains(k));
            assert(bounded(ks, idx + 1, k));
            assert(k >= succ);
            assert(mkeys(c).count(succ) <= 1);
            assert(mkeys(c2).count(succ) == 0);
            assert(k != succ);
            assert(k > succ);
            assert(m2.keys@[idx] == succ);
            if j < m2.keys@.len() {
                assert(m2.keys@[j] == ks[j]);
            }
        } else if j == idx {
            assert(m2.children@[j] == cs[j]);
            assert(mkeys(cs[j]).contains(k));
            assert(bounded(ks, j, k));
            assert(m2.keys@[idx] == succ);
            assert(k < ks[idx]);
            if j > 0 {
                assert(m2.keys@[j - 1] == ks[j - 1]);
            }
        } else {
            assert(m2.children@[j] == cs[j]);
            assert(mkeys(cs[j]).contains(k));
            assert(bounded(ks, j, k));
            if j > 0 {
                assert(m2.keys@[j - 1] == ks[j - 1]);
            }
            if j < m2.keys@.len() {
                assert(m2.keys@[j] == ks[j]);
            }
        }
    }
    assert forall|j: int| 0 <= j < m2.children@.len() implies inv_core(
        #[trigger] m2.children@[j],
    ) && m2.children@[j].keys@.len() >= T - 1 by {
        if j != idx + 1 {
            assert(m2.children@[j] == cs[j]);
        }
    }
}



impl Node {
    /// Remove `val` from the subtree rooted here, reporting whether it was
    /// present. Descending always rebalances first, so no node underflows;
    /// only an inner root can be left without keys, and then it has exactly
    /// one child.
    #[verifier::rlimit(100)]
    pub fn remove(&mut self, val: usize) -> (deleted: bool)
        requires
            inv_core(*old(self)),
            !old(self).is_leaf ==> old(self).keys@.len() >= 1,
        ensures
            inv_core(*final(self)),
            final(self).is_leaf == old(self).is_leaf,
            final(self).keys@.len() >= old(self).keys@.len() - 1,
            deleted == mkeys(*old(self)).contains(val),
            deleted ==> mkeys(*final(self)) == mkeys(*old(self)).remove(val),
            !deleted ==> mkeys(*final(self)) == mkeys(*old(self)),
            height(*final(self)) == height(*old(self)),
        decreases height(*old(self)),
    {
        let ghost oldn = *old(self);
        let n = self.keys.len();
        let mut idx: usize = 0;
        while idx < n && self.keys[idx] < val
            invariant
                *self == *old(self),
                n == self.keys@.len(),
                0 <= idx <= n,
                forall|j: int| 0 <= j < idx ==> self.keys@[j] < val,
            decreases n - idx,
        {
            idx = idx + 1;
        }
        if idx < n && self.keys[idx] == val {
            // the key is a key of this node
            proof {
                assert(oldn.keys@.contains(val));
                assert(oldn.keys@.to_multiset().contains(val));
                assert(mkeys(oldn).count(val) >= oldn.keys@.to_multiset().count(val));
                assert(mkeys(oldn).contains(val));
            }
            if self.is_leaf {
                let _ = self.keys.remove(idx);
                self.size = self.size - 1;
                proof {
                    assert(self.keys@ == oldn.keys@.remove(idx as int));
                    assert(self.keys@.to_multiset() =~= oldn.keys@.to_multiset().remove(val));
                    assert forall|a: int, b: int|
                        0 <= a < b < self.keys@.len() implies self.keys@[a] < self.keys@[b] by {
                        if a < idx {
                            assert(self.keys@[a] == oldn.keys@[a]);
                        } else {
                            assert(self.keys@[a] == oldn.keys@[a + 1]);
                        }
                        if b < idx {
                            assert(self.keys@[b] == oldn.keys@[b]);
                        } else {
                            assert(self.keys@[b] == oldn.keys@[b + 1]);
                        }
                    }
                }
                return true;
            }
            proof {
                assert(inv_core(oldn.children@[idx as int]));
                assert(inv_core(oldn.children@[idx as int + 1]));
            }
            if self.children[idx].keys.len() >= T {
                let pred = self.get_predecessor(idx);
                let _ = self.keys.remove(idx);
                self.keys.insert(idx, pred);
                proof {
                    lemma_child_height(oldn, idx as int);
                }
                let mut child = self.children.remove(idx);
                let del = child.remove(pred);
                proof {
                    assert(del);
                }
                let ghost c2 = child;
                self.children.insert(idx, child);
                self.size = self.size - 1;
                proof {
                    assert(self.keys@ =~= oldn.keys@.update(idx as int, pred)) by {
                        assert forall|m: int|
                            0 <= m < self.keys@.len() implies #[trigger] self.keys@[m]
                            == oldn.keys@.update(idx as int, pred)[m] by {
                            if m < idx {
                                assert(self.keys@[m] == oldn.keys@.remove(idx as int)[m]);
                                assert(oldn.keys@.remove(idx as int)[m] == oldn.keys@[m]);
                            } else if m > idx {
                                assert(self.keys@[m] == oldn.keys@.remove(idx as int)[m - 1]);
                                assert(oldn.keys@.remove(idx as int)[m - 1] == oldn.keys@[m]);
                            }
                        }
                    }
                    assert(self.children@ =~= oldn.children@.update(idx as int, c2)) by {
                        assert forall|j: int|
                            0 <= j < oldn.children@.len() implies #[trigger] self.children@[j]
                            == oldn.children@.update(idx as int, c2)[j] by {
                            if j < idx {
                                assert(self.children@[j] == oldn.children@.remove(
                                    idx as int,
                                )[j]);
                                assert(oldn.children@.remove(idx as int)[j]
                                    == oldn.children@[j]);
                            } else if j > idx {
                                assert(self.children@[j] == oldn.children@.remove(idx as int)[j
                                    - 1]);
                                assert(oldn.children@.remove(idx as int)[j - 1]
                                    == oldn.children@[j]);
                            }
                        }
                        assert(self.children@.len() == oldn.children@.len());
                    }
                    lemma_remove_via_pred(oldn, *self, idx as int, c2, pred);
                }
                return true;
            } else if self.children[idx + 1].keys.len() >= T {
                let succ = self.get_successor(idx);
                let _ = self.keys.remove(idx);
                self.keys.insert(idx, succ);
                proof {
                    lemma_child_height(oldn, idx as int + 1);
                }
                let mut child = self.children.remove(idx + 1);
                let del = child.remove(succ);
                proof {
                    assert(del);
                }
                let ghost c2 = child;
                self.children.insert(idx + 1, child);
                self.size = self.size - 1;
                proof {
                    assert(self.keys@ =~= oldn.keys@.update(idx as int, succ)) by {
                        assert forall|m: int|
                            0 <= m < self.keys@.len() implies #[trigger] self.keys@[m]
                            == oldn.keys@.update(idx as int, succ)[m] by {
                            if m < idx {
                                assert(self.keys@[m] == oldn.keys@.remove(idx as int)[m]);
                                assert(oldn.keys@.remove(idx as int)[m] == oldn.keys@[m]);
                            } else if m > idx {
                                assert(self.keys@[m] == oldn.keys@.remove(idx as int)[m - 1]);
                                assert(oldn.keys@.remove(idx as int)[m - 1] == oldn.keys@[m]);
                            }
                        }
                    }
                    assert(self.children@ =~= oldn.children@.update(idx as int + 1, c2)) by {
                        assert forall|j: int|
                            0 <= j < oldn.children@.len() implies #[trigger] self.children@[j]
                            == oldn.children@.update(idx as int + 1, c2)[j] by {
                            if j < idx + 1 {
                                assert(self.children@[j] == oldn.children@.remove(
                                    idx as int + 1,
                                )[j]);
                                assert(oldn.children@.remove(idx as int + 1)[j]
                                    == oldn.children@[j]);
                            } else if j > idx + 1 {
                                assert(self.children@[j] == oldn.children@.remove(
                                    idx as int + 1,
                                )[j - 1]);
                                assert(oldn.children@.remove(idx as int + 1)[j - 1]
                                    == oldn.children@[j]);
                            }
                        }
                        assert(self.children@.len() == oldn.children@.len());
                    }
                    lemma_remove_via_succ(oldn, *self, idx as int, c2, succ);
                }
                return true;
            } else {
                self.merge_children(idx);
                let ghost m = *self;
                proof {
                    assert(mkeys(m.children@[idx as int]).contains(val));
                    lemma_child_height(m, idx as int);
                    assert(inv_core(m.children@[idx as int]));
                }
                let mut child = self.children.remove(idx);
                let del = child.remove(val);
                proof {
                    assert(del);
                }
                let ghost c2 = child;
                self.children.insert(idx, child);
                self.size = self.size - 1;
                proof {
                    assert(self.children@ =~= m.children@.update(idx as int, c2)) by {
                        assert forall|j: int|
                            0 <= j < m.children@.len() implies #[trigger] self.children@[j]
                            == m.children@.update(idx as int, c2)[j] by {
                            if j < idx {
                                assert(self.children@[j] == m.children@.remove(idx as int)[j]);
                                assert(m.children@.remove(idx as int)[j] == m.children@[j]);
                            } else if j > idx {
                                assert(self.children@[j] == m.children@.remove(idx as int)[j
                                    - 1]);
                                assert(m.children@.remove(idx as int)[j - 1] == m.children@[j]);
                            }
                        }
                        assert(self.children@.len() == m.children@.len());
                    }
                    let ghost one = Multiset::<usize>::empty().insert(val);
                    assert forall|k: usize| one.count(k) <= #[trigger] mkeys(
                        m.children@[idx as int],
                    ).count(k) by {
                        if k == val {
                            assert(mkeys(m.children@[idx as int]).count(val) >= 1);
                        }
                    }
                    assert(mkeys(c2) =~= mkeys(m.children@[idx as int]).sub(one));
                    lemma_update_child_sub(m, *self, idx as int, c2, one);
                    assert(mkeys(*self) =~= mkeys(oldn).remove(val));
                }
                return true;
            }
        }
        // the key is not a key of this node
        proof {
            assert(!oldn.keys@.contains(val)) by {
                if oldn.keys@.contains(val) {
                    let a = choose|a: int| 0 <= a < oldn.keys@.len() && oldn.keys@[a] == val;
                    if a < idx {
                        assert(oldn.keys@[a] < val);
                    } else {
                        assert(idx < n);
                        if a > idx {
                            assert(oldn.keys@[idx as int] < oldn.keys@[a]);
                        }
                    }
                }
            }
        }
        if self.is_leaf {
            proof {
                assert(oldn.keys@.to_multiset().count(val) == 0) by {
                    if oldn.keys@.to_multiset().count(val) > 0 {
                        assert(oldn.keys@.to_multiset().contains(val));
                        assert(oldn.keys@.contains(val));
                    }
                }
                assert(!mkeys(oldn).contains(val));
            }
            return false;
        }
        // rebalance the child we are about to descend into
        let mut idx2 = idx;
        proof {
            assert(inv_core(oldn.children@[idx as int]));
        }
        if self.children[idx].keys.len() == T - 1 {
            if idx > 0 && self.children[idx - 1].keys.len() >= T {
                self.borrow_left(idx);
            } else if idx + 1 < self.children.len() && self.children[idx + 1].keys.len() >= T {
                self.borrow_right(idx);
            } else {
                if idx < self.keys.len() {
                    proof {
                        assert(inv_core(oldn.children@[idx as int + 1]));
                        assert(oldn.children@[idx as int + 1].keys@.len() == T - 1);
                    }
                    self.merge_children(idx);
                } else {
                    proof {
                        assert(idx >= 1);
                        assert(inv_core(oldn.children@[idx as int - 1]));
                        assert(oldn.children@[idx as int - 1].keys@.len() == T - 1);
                    }
                    self.merge_children(idx - 1);
                    idx2 = idx - 1;
                }
            }
        }
        let ghost m = *self;
        proof {
            // the rebalanced node holds the same keys, and the target
            // interval still brackets the key
            assert(inv_core(m));
            assert(mkeys(m) == mkeys(oldn));
            assert(height(m) == height(oldn));
            assert(idx2 < m.children@.len());
            assert(idx2 == 0 || m.keys@[idx2 - 1] < val);
            assert(idx2 == m.keys@.len() || val < m.keys@[idx2 as int]);
            assert(!m.keys@.contains(val)) by {
                if m.keys@.contains(val) {
                    let a = choose|a: int| 0 <= a < m.keys@.len() && m.keys@[a] == val;
                    if a < idx2 {
                        assert(m.keys@[a] <= m.keys@[idx2 - 1]);
                    } else {
                        assert(m.keys@[idx2 as int] <= m.keys@[a]);
                    }
                }
            }
            lemma_search_child(m, val, idx2 as int);
            lemma_child_height(m, idx2 as int);
            assert(inv_core(m.children@[idx2 as int]));
            assert(m.children@[idx2 as int].keys@.len() >= T);
        }
        let mut child = self.children.remove(idx2);
        let deleted = child.remove(val);
        let ghost c2 = child;
        self.children.insert(idx2, child);
        if deleted {
            self.size = self.size - 1;
        }
        proof {
            assert(self.children@ =~= m.children@.update(idx2 as int, c2)) by {
                assert forall|j: int| 0 <= j < m.children@.len() implies #[trigger] self
                    .children@[j] == m.children@.update(idx2 as int, c2)[j] by {
                    if j < idx2 {
                        assert(self.children@[j] == m.children@.remove(idx2 as int)[j]);
                        assert(m.children@.remove(idx2 as int)[j] == m.children@[j]);
                    } else if j > idx2 {
                        assert(self.children@[j] == m.children@.remove(idx2 as int)[j - 1]);
                        assert(m.children@.remove(idx2 as int)[j - 1] == m.children@[j]);
                    }
                }
                assert(self.children@.len() == m.children@.len());
            }
            let ghost removed = if deleted {
                Multiset::<usize>::empty().insert(val)
            } else {
                Multiset::<usize>::empty()
            };
            assert forall|k: usize| removed.count(k) <= #[trigger] mkeys(
                m.children@[idx2 as int],
            ).count(k) by {
                if deleted && k == val {
                    assert(mkeys(m.children@[idx2 as int]).contains(val));
                }
            }
            assert(mkeys(c2) =~= mkeys(m.children@[idx2 as int]).sub(removed));
            lemma_update_child_sub(m, *self, idx2 as int, c2, removed);
            if deleted {
                assert(mkeys(m.children@[idx2 as int]).contains(val));
                assert(mkeys(oldn).count(val) == mkeys(m.children@[idx2 as int]).count(val));
                assert(mkeys(oldn).contains(val));
                assert(mkeys(*self) =~= mkeys(oldn).remove(val));
            } else {
                assert(mkeys(oldn).count(val) == mkeys(m.children@[idx2 as int]).count(val));
                assert(!mkeys(oldn).contains(val));
                assert(mkeys(*self) =~= mkeys(oldn));
            }
        }
        deleted
    }
}



/// Exactly what [`Node::validate`] checks, as a predicate: key-count
/// bounds, adjacent keys in order, and the child arity, recursively.
pub open spec fn valid_shape(n: Node, is_root: bool) -> bool
    decreases n,
{
    &&& (!is_root ==> n.keys@.len() >= T - 1)
    &&& n.keys@.len() <= 2 * T - 1
    &&& (forall|j: int| 1 <= j < n.keys@.len() ==> n.keys@[j - 1] < #[trigger] n.keys@[j])
    &&& (!n.is_leaf ==> n.children@.len() == n.keys@.len() + 1 && (forall|j: int|
        0 <= j < n.children@.len() ==> valid_shape(#[trigger] n.children@[j], false)))
}

/// A well-formed subtree passes the shape check.
pub proof fn lemma_inv_valid_shape(n: Node, is_root: bool)
    requires
        inv_core(n),
        !is_root ==> n.keys@.len() >= T - 1,
    ensures
        valid_shape(n, is_root),
    decreases n,
{
    if !n.is_leaf {
        assert forall|j: int| 0 <= j < n.children@.len() implies valid_shape(
            #[trigger] n.children@[j],
            false,
        ) by {
            assert(inv_core(n.children@[j]));
            lemma_inv_valid_shape(n.children@[j], false);
        }
    }
}

/// A well-formed tree passes the shape check at the root.
pub proof fn lemma_tree_valid(t: MarTree)
    requires
        tree_inv(t),
    ensures
        valid_shape(t.root, true),
{
    lemma_inv_valid_shape(t.root, true);
}

impl Node {
    /// Check the structural shape of this subtree: key-count bounds,
    /// ordered keys, and child arity.
    pub fn validate(&self, is_root: bool) -> (r: bool)
        ensures
            r == valid_shape(*self, is_root),
        decreases height(*self),
    {
        if !is_root && self.keys.len() < T - 1 {
            return false;
        }
        if self.keys.len() > 2 * T - 1 {
            return false;
        }
        let n = self.keys.len();
        let mut i: usize = 1;
        while i < n
            invariant
                n == self.keys@.len(),
                1 <= i <= n || (n == 0 && i == 1),
                forall|j: int| 1 <= j < i ==> self.keys@[j - 1] < #[trigger] self.keys@[j],
            decreases n - i,
        {
            if self.keys[i - 1] >= self.keys[i] {
                return false;
            }
            i = i + 1;
        }
        if self.is_leaf {
            return true;
        }
        if self.children.len() != self.keys.len() + 1 {
            return false;
        }
        let m = self.children.len();
        let mut j: usize = 0;
        while j < m
            invariant
                m == self.children@.len(),
                !self.is_leaf,
                0 <= j <= m,
                forall|k: int| 0 <= k < j ==> valid_shape(#[trigger] self.children@[k], false),
            decreases m - j,
        {
            proof {
                lemma_child_height(*self, j as int);
            }
            if !self.children[j].validate(false) {
                return false;
            }
            j = j + 1;
        }
        true
    }
}

impl MarTree {
    /// Remove `val` from the tree if present; a root left empty hands its
    /// place to its only child. Removing an absent key changes nothing.
    pub fn remove(&mut self, val: usize)
        requires
            tree_inv(*old(self)),
        ensures
            tree_inv(*final(self)),
            mkeys(final(self).root) == mkeys(old(self).root).remove(val),
    {
        let deleted = self.root.remove(val);
        proof {
            if !deleted {
                assert(mkeys(self.root) =~= mkeys(old(self).root).remove(val));
            }
        }
        if self.root.keys.len() == 0 && !self.root.is_leaf {
            proof {
                assert(self.root.children@.len() == 1);
                assert(inv_core(self.root.children@[0]));
            }
            let ghost shrunk = self.root;
            let r = self.root.children.remove(0);
            let ghost rg = r;
            self.root = r;
            proof {
                assert(shrunk.keys@.to_multiset() =~= Multiset::<usize>::empty());
                assert(shrunk.children@ =~= seq![rg]);
                assert(seq![rg].drop_first() =~= Seq::<Node>::empty());
                assert(mkeys_of(Seq::<Node>::empty()) =~= Multiset::<usize>::empty());
                assert(mkeys_of(shrunk.children@) =~= mkeys(rg));
                assert(mkeys(shrunk) =~= mkeys(rg));
            }
        }
    }

    /// Check the structural shape of the whole tree.
    pub fn validate(&self) -> (r: bool)
        ensures
            r == valid_shape(self.root, true),
    {
        self.root.validate(true)
    }
}


impl Default for Node {
    /// An empty leaf.
    fn default() -> (r: Node)
        ensures
            r.keys@.len() == 0,
            r.children@.len() == 0,
            r.size == 0,
            r.is_leaf,
            inv_core(r),
            mkeys(r) == Multiset::<usize>::empty(),
    {
        let r = Node { keys: Vec::new(), children: Vec::new(), size: 0, is_leaf: true };
        proof {
            assert(r.keys@.to_multiset() =~= Multiset::<usize>::empty());
        }
        r
    }
}

impl Default for MarTree {
    /// A tree holding no keys.
    fn default() -> (r: MarTree)
        ensures
            tree_inv(r),
            mkeys(r.root) == Multiset::<usize>::empty(),
            r.root.size == 0,
            r.root.is_leaf,
    {
        MarTree { root: Node::default() }
    }
}

} // verus!
