//! A binary tree of exclusively-owned nodes, grown by level-order insertion.
//!
//! A position in the tree is addressed by a path: a sequence of booleans,
//! `false` for a step to the left child and `true` for a step to the right.
//! Level order ranks positions first by depth and then left-to-right within
//! a depth; `insert` always fills the first empty child slot in that order,
//! which keeps a tree built by insertions alone *complete* (every level full
//! except possibly the last, which is filled from the left with no gaps).

use vstd::prelude::*;

verus! {

/// Two raised to the `n`-th power, used to rank paths by depth.
pub open spec fn two_pow(n: nat) -> nat
    decreases n,
{
    if n == 0 {
        1
    } else {
        2 * two_pow((n - 1) as nat)
    }
}

/// The left-to-right position of a path within its depth: the value of the
/// path read as a binary numeral, `false` as 0 and `true` as 1.
pub open spec fn path_val(p: Seq<bool>) -> nat
    decreases p.len(),
{
    if p.len() == 0 {
        0
    } else {
        2 * path_val(p.drop_last()) + (if p.last() {
            1nat
        } else {
            0nat
        })
    }
}

/// Whether position `p` comes strictly before position `q` in level order:
/// shallower first, and left-to-right within a depth.
pub open spec fn path_before(p: Seq<bool>, q: Seq<bool>) -> bool {
    p.len() < q.len() || (p.len() == q.len() && path_val(p) < path_val(q))
}

/// Whether position `q` is the parent position of `p`: one step shorter,
/// and a prefix of it.
pub open spec fn path_parent_of(q: Seq<bool>, p: Seq<bool>) -> bool {
    p.len() == q.len() + 1 && q == p.take(q.len() as int)
}

/// The level-order rank of a path, counting from 1 at the root: depth `d`
/// holds the ranks `two_pow(d)` up to `two_pow(d + 1) - 1`, left to right.
pub open spec fn path_idx(p: Seq<bool>) -> nat {
    two_pow(p.len()) + path_val(p)
}

/// The path whose level-order rank is `m`, for `m >= 1`: the binary digits
/// of `m` after the leading one, read top-down.
pub open spec fn path_of_idx(m: nat) -> Seq<bool>
    decreases m,
{
    if m <= 1 {
        Seq::empty()
    } else {
        path_of_idx(m / 2).push(m % 2 == 1)
    }
}

pub proof fn lemma_two_pow_pos(n: nat)
    ensures
        two_pow(n) >= 1,
    decreases n,
{
    if n > 0 {
        lemma_two_pow_pos((n - 1) as nat);
    }
}

pub proof fn lemma_two_pow_mono(m: nat, n: nat)
    requires
        m <= n,
    ensures
        two_pow(m) <= two_pow(n),
    decreases n,
{
    if m < n {
        lemma_two_pow_mono(m, (n - 1) as nat);
        lemma_two_pow_pos((n - 1) as nat);
    }
}

/// A path's position within its depth is below the number of positions
/// at that depth.
pub proof fn lemma_path_val_bound(p: Seq<bool>)
    ensures
        path_val(p) < two_pow(p.len()),
    decreases p.len(),
{
    if p.len() > 0 {
        lemma_path_val_bound(p.drop_last());
    }
}

/// Prepending one step shifts a path's position by a full block of the
/// subtree's width when the step goes right.
pub proof fn lemma_path_val_prepend(b: bool, p: Seq<bool>)
    ensures
        path_val(seq![b] + p) == (if b {
            two_pow(p.len())
        } else {
            0nat
        }) + path_val(p),
    decreases p.len(),
{
    if p.len() == 0 {
        assert(seq![b] + p =~= seq![b]);
        assert((seq![b]).drop_last() =~= Seq::<bool>::empty());
        assert(path_val(seq![b]) == 2 * path_val(Seq::<bool>::empty()) + (if b {
            1nat
        } else {
            0nat
        }));
    } else {
        let q = seq![b] + p;
        assert(q.drop_last() =~= seq![b] + p.drop_last());
        assert(q.last() == p.last());
        lemma_path_val_prepend(b, p.drop_last());
    }
}

pub proof fn lemma_path_val_single(b: bool)
    ensures
        path_val(seq![b]) == (if b {
            1nat
        } else {
            0nat
        }),
{
    assert(path_val(Seq::<bool>::empty()) == 0);
    assert(seq![b].drop_last() =~= Seq::<bool>::empty());
    assert(seq![b].last() == b);
}

/// Level order on paths agrees with the order of their ranks.
pub proof fn lemma_path_before_idx(p: Seq<bool>, q: Seq<bool>)
    ensures
        path_before(p, q) <==> path_idx(p) < path_idx(q),
{
    lemma_path_val_bound(p);
    lemma_path_val_bound(q);
    if p.len() < q.len() {
        lemma_two_pow_mono(p.len() + 1, q.len());
        assert(two_pow(p.len() + 1) == 2 * two_pow(p.len()));
    } else if q.len() < p.len() {
        lemma_two_pow_mono(q.len() + 1, p.len());
        assert(two_pow(q.len() + 1) == 2 * two_pow(q.len()));
    }
}

/// Two paths of one depth and one position are the same path.
pub proof fn lemma_path_val_injective(p: Seq<bool>, q: Seq<bool>)
    requires
        p.len() == q.len(),
        path_val(p) == path_val(q),
    ensures
        p == q,
    decreases p.len(),
{
    if p.len() > 0 {
        let bp: nat = if p.last() {
            1
        } else {
            0
        };
        let bq: nat = if q.last() {
            1
        } else {
            0
        };
        assert(path_val(p) == 2 * path_val(p.drop_last()) + bp);
        assert(path_val(q) == 2 * path_val(q.drop_last()) + bq);
        assert(bp == bq) by {
            if bp != bq {
                assert(2 * path_val(p.drop_last()) + bp != 2 * path_val(q.drop_last()) + bq);
            }
        }
        lemma_path_val_injective(p.drop_last(), q.drop_last());
        assert(p =~= q) by {
            assert(forall|i: int| 0 <= i < p.len() - 1 ==> p[i] == #[trigger] q[i]) by {
                assert(forall|i: int|
                    0 <= i < p.len() - 1 ==> p[i] == p.drop_last()[i] && #[trigger] q[i]
                        == q.drop_last()[i]);
            }
            assert(p[p.len() - 1] == q[q.len() - 1]);
        }
    } else {
        assert(p =~= q);
    }
}

/// Two paths of one rank are the same path.
pub proof fn lemma_path_idx_injective(p: Seq<bool>, q: Seq<bool>)
    requires
        path_idx(p) == path_idx(q),
    ensures
        p == q,
{
    lemma_path_before_idx(p, q);
    lemma_path_before_idx(q, p);
    lemma_path_val_injective(p, q);
}

/// `path_of_idx` really is the inverse of `path_idx`.
pub proof fn lemma_path_of_idx(m: nat)
    requires
        m >= 1,
    ensures
        path_idx(path_of_idx(m)) == m,
    decreases m,
{
    if m <= 1 {
        assert(path_of_idx(m) =~= Seq::<bool>::empty());
    } else {
        lemma_path_of_idx(m / 2);
        let p = path_of_idx(m / 2);
        let q = p.push(m % 2 == 1);
        assert(q.drop_last() =~= p);
        assert(q.last() == (m % 2 == 1));
        assert(path_val(q) == 2 * path_val(p) + (if m % 2 == 1 {
            1nat
        } else {
            0nat
        }));
        assert(two_pow(q.len()) == 2 * two_pow(p.len()));
        assert(m == 2 * (m / 2) + m % 2);
    }
}

/// One vertex of a binary tree. Each child slot is an optional, exclusively
/// owned subtree: the parent is the only owner, and dropping the parent drops
/// the whole subtree.
pub struct TreeNode<K> {
    pub left: Option<Box<TreeNode<K>>>,
    pub right: Option<Box<TreeNode<K>>>,
    pub key: K,
}

impl<K> TreeNode<K> {
    /// The child reached by one step of a path: left for `false`, right for
    /// `true`, unboxed to a plain node value.
    pub open spec fn child_node(self, b: bool) -> Option<TreeNode<K>> {
        if b {
            match self.right {
                Some(c) => Some(*c),
                None => None,
            }
        } else {
            match self.left {
                Some(c) => Some(*c),
                None => None,
            }
        }
    }

    /// Whether a node exists at the given path below (and including) `self`.
    pub open spec fn has_node(self, p: Seq<bool>) -> bool
        decreases p.len(),
    {
        p.len() == 0 || (match self.child_node(p[0]) {
            Some(c) => c.has_node(p.drop_first()),
            None => false,
        })
    }

    /// The key stored at the given path, if a node exists there.
    pub open spec fn key_at(self, p: Seq<bool>) -> Option<K>
        decreases p.len(),
    {
        if p.len() == 0 {
            Some(self.key)
        } else {
            match self.child_node(p[0]) {
                Some(c) => c.key_at(p.drop_first()),
                None => None,
            }
        }
    }

    /// The number of nodes in the tree rooted at `self` (always at least 1).
    pub open spec fn size(self) -> nat
        decreases self,
    {
        1 + (match self.left {
            Some(c) => c.size(),
            None => 0nat,
        }) + (match self.right {
            Some(c) => c.size(),
            None => 0nat,
        })
    }

    /// Whether `p` addresses an empty child slot: its parent position holds
    /// a node, but `p` itself does not.
    pub open spec fn is_slot(self, p: Seq<bool>) -> bool {
        p.len() > 0 && self.has_node(p.drop_last()) && !self.has_node(p)
    }

    /// Whether `p` is the first empty child slot in level order: the slot
    /// that level-order insertion fills.
    pub open spec fn is_first_slot(self, p: Seq<bool>) -> bool {
        self.is_slot(p) && forall|q: Seq<bool>| self.is_slot(q) ==> !path_before(q, p)
    }

    /// A leaf node holding `k`, as a specification value.
    pub open spec fn leaf(k: K) -> TreeNode<K> {
        TreeNode { left: None, right: None, key: k }
    }

    /// How one insertion changes a tree: a fresh leaf with key `k` now sits
    /// at `p`, and every other position is untouched, in shape and in key.
    pub open spec fn grown_at(pre: Self, post: Self, p: Seq<bool>, k: K) -> bool {
        &&& post.size() == pre.size() + 1
        &&& forall|q: Seq<bool>|
            #![trigger post.has_node(q)]
            #![trigger pre.has_node(q)]
            post.has_node(q) <==> (pre.has_node(q) || q == p)
        &&& post.key_at(p) == Some(k)
        &&& forall|q: Seq<bool>|
            #![trigger post.key_at(q)]
            #![trigger pre.key_at(q)]
            q != p ==> post.key_at(q) == pre.key_at(q)
    }

    /// What `insert` promises: the tree grew by one leaf, exactly at the
    /// first empty child slot in level order.
    pub open spec fn inserted(pre: Self, post: Self, k: K) -> bool {
        exists|p: Seq<bool>| #[trigger] pre.is_first_slot(p) && Self::grown_at(pre, post, p, k)
    }

    /// Whether the tree is complete: the occupied positions are exactly the
    /// first `size` positions in level order. Every level is then full
    /// except possibly the last, which is filled from the left with no gaps.
    pub open spec fn is_complete(self) -> bool {
        forall|p: Seq<bool>|
            #![trigger self.has_node(p)]
            #![trigger path_idx(p)]
            self.has_node(p) <==> path_idx(p) <= self.size()
    }

    /// Stepping into a child shortens every path question by one.
    pub proof fn lemma_child_path(self, b: bool, c: TreeNode<K>, p: Seq<bool>)
        requires
            self.child_node(b) == Some(c),
        ensures
            self.has_node(seq![b] + p) == c.has_node(p),
            self.key_at(seq![b] + p) == c.key_at(p),
    {
        let q = seq![b] + p;
        assert(q.len() == p.len() + 1);
        assert(q[0] == b);
        assert(q.drop_first() =~= p);
    }

    /// An empty slot of a child, seen from the parent.
    pub proof fn lemma_slot_lift(self, b: bool, c: TreeNode<K>, p: Seq<bool>)
        requires
            self.child_node(b) == Some(c),
            c.is_slot(p),
        ensures
            self.is_slot(seq![b] + p),
    {
        let q = seq![b] + p;
        assert(q.drop_last() =~= seq![b] + p.drop_last());
        self.lemma_child_path(b, c, p.drop_last());
        self.lemma_child_path(b, c, p);
    }

    /// When both children are present, every empty slot lies inside one of
    /// them, and its path decomposes accordingly.
    pub proof fn lemma_slot_decompose(self, q: Seq<bool>)
        requires
            self.is_slot(q),
            self.child_node(false) is Some,
            self.child_node(true) is Some,
        ensures
            q.len() >= 2,
            self.child_node(q[0]).unwrap().is_slot(q.drop_first()),
    {
        let c = self.child_node(q[0]).unwrap();
        if q.len() == 1 {
            assert(q =~= seq![q[0]] + Seq::<bool>::empty());
            self.lemma_child_path(q[0], c, Seq::<bool>::empty());
            assert(self.has_node(q));
        }
        assert(q =~= seq![q[0]] + q.drop_first());
        self.lemma_child_path(q[0], c, q.drop_first());
        assert(q.drop_last() =~= seq![q[0]] + q.drop_first().drop_last());
        self.lemma_child_path(q[0], c, q.drop_first().drop_last());
    }

    /// `size` seen through `child_node`, so that trees with equal children
    /// and equal keys need not share their boxes to share their size.
    pub proof fn lemma_size_unfold(self)
        ensures
            self.size() == 1 + (match self.child_node(false) {
                Some(c) => c.size(),
                None => 0nat,
            }) + (match self.child_node(true) {
                Some(c) => c.size(),
                None => 0nat,
            }),
    {
    }

    /// One step of an empty slot's path, taken from the parent's side.
    pub proof fn lemma_slot_step(self, q: Seq<bool>)
        requires
            self.is_slot(q),
            q.len() >= 2,
        ensures
            self.child_node(q[0]) is Some,
            self.child_node(q[0]).unwrap().is_slot(q.drop_first()),
    {
        assert(q.drop_last().len() >= 1);
        assert(q.drop_last()[0] == q[0]);
        let c = self.child_node(q[0]).unwrap();
        assert(q.drop_last().drop_first() =~= q.drop_first().drop_last());
        assert(q =~= seq![q[0]] + q.drop_first());
        self.lemma_child_path(q[0], c, q.drop_first());
        assert(q.drop_last() =~= seq![q[0]] + q.drop_first().drop_last());
        self.lemma_child_path(q[0], c, q.drop_first().drop_last());
    }

    /// Filling an empty slot directly below the root grows the tree there.
    proof fn lemma_grow_leaf(pre: Self, post: Self, b: bool, k: K)
        requires
            pre.child_node(b) is None,
            post.child_node(b) == Some(Self::leaf(k)),
            post.child_node(!b) == pre.child_node(!b),
            post.key == pre.key,
        ensures
            Self::grown_at(pre, post, seq![b], k),
    {
        let p = seq![b];
        let lf = Self::leaf(k);
        pre.lemma_size_unfold();
        post.lemma_size_unfold();
        assert(lf.size() == 1);
        assert forall|q: Seq<bool>|
            (post.has_node(q) <==> (pre.has_node(q) || q == p)) && (q != p ==> post.key_at(q)
                == pre.key_at(q)) by {
            if q.len() == 0 {
                assert(post.has_node(q) && pre.has_node(q));
                assert(q != p);
                assert(post.key_at(q) == Some(post.key));
                assert(pre.key_at(q) == Some(pre.key));
            } else {
                let q0 = q.drop_first();
                assert(q =~= seq![q[0]] + q0);
                if q[0] == b {
                    post.lemma_child_path(b, lf, q0);
                    if q0.len() == 0 {
                        assert(q =~= p);
                        assert(lf.has_node(q0));
                    } else {
                        assert(lf.child_node(q0[0]) is None);
                        assert(!lf.has_node(q0));
                        assert(lf.key_at(q0) is None);
                        assert(!pre.has_node(q));
                        assert(pre.key_at(q) is None);
                        assert(q != p);
                    }
                } else {
                    assert(q[0] == !b);
                    assert(q != p);
                    match pre.child_node(q[0]) {
                        Some(c) => {
                            pre.lemma_child_path(q[0], c, q0);
                            post.lemma_child_path(q[0], c, q0);
                        },
                        None => {
                            assert(!pre.has_node(q) && !post.has_node(q));
                            assert(pre.key_at(q) is None && post.key_at(q) is None);
                        },
                    }
                }
            }
        }
        post.lemma_child_path(b, lf, Seq::<bool>::empty());
        assert(seq![b] + Seq::<bool>::empty() =~= p);
        assert(lf.key_at(Seq::<bool>::empty()) == Some(k));
    }

    /// A growth inside one child, seen from the parent: the path gains the
    /// step into that child.
    proof fn lemma_grow_step(
        pre: Self,
        post: Self,
        b: bool,
        pre_c: TreeNode<K>,
        post_c: TreeNode<K>,
        p: Seq<bool>,
        k: K,
    )
        requires
            pre.child_node(b) == Some(pre_c),
            post.child_node(b) == Some(post_c),
            post.child_node(!b) == pre.child_node(!b),
            post.key == pre.key,
            Self::grown_at(pre_c, post_c, p, k),
        ensures
            Self::grown_at(pre, post, seq![b] + p, k),
    {
        let bp = seq![b] + p;
        pre.lemma_size_unfold();
        post.lemma_size_unfold();
        assert forall|q: Seq<bool>|
            (post.has_node(q) <==> (pre.has_node(q) || q == bp)) && (q != bp ==> post.key_at(q)
                == pre.key_at(q)) by {
            if q.len() == 0 {
                assert(post.has_node(q) && pre.has_node(q));
                assert(q != bp);
            } else {
                let q0 = q.drop_first();
                assert(q =~= seq![q[0]] + q0);
                if q[0] == b {
                    pre.lemma_child_path(b, pre_c, q0);
                    post.lemma_child_path(b, post_c, q0);
                    if q0 == p {
                        assert(q =~= bp);
                    }
                    if q == bp {
                        assert(q0 =~= bp.drop_first());
                        assert(bp.drop_first() =~= p);
                    }
                } else {
                    assert(q[0] == !b);
                    assert(q != bp);
                    match pre.child_node(q[0]) {
                        Some(c) => {
                            pre.lemma_child_path(q[0], c, q0);
                            post.lemma_child_path(q[0], c, q0);
                        },
                        None => {
                            assert(!pre.has_node(q) && !post.has_node(q));
                            assert(pre.key_at(q) is None && post.key_at(q) is None);
                        },
                    }
                }
            }
        }
        post.lemma_child_path(b, post_c, p);
        assert(seq![b] + p =~= bp);
    }

    /// A single node is a complete tree of size one.
    pub proof fn lemma_leaf_complete(self)
        requires
            self.left is None,
            self.right is None,
        ensures
            self.is_complete(),
            self.size() == 1,
    {
        assert(path_val(Seq::<bool>::empty()) == 0);
        assert forall|p: Seq<bool>| self.has_node(p) <==> path_idx(p) <= self.size() by {
            if p.len() == 0 {
                assert(self.has_node(p));
                assert(path_idx(p) == 1);
            } else {
                assert(self.child_node(p[0]) is None);
                assert(!self.has_node(p));
                lemma_two_pow_mono(1, p.len());
                assert(two_pow(0) == 1);
                assert(two_pow(1) == 2);
                assert(path_idx(p) >= 2);
            }
        }
    }

    /// In a complete tree of size `n`, the first empty slot in level order
    /// is the position of rank `n + 1`.
    pub proof fn lemma_first_slot_of_complete(self)
        requires
            self.is_complete(),
        ensures
            self.is_first_slot(path_of_idx(self.size() + 1)),
    {
        let n = self.size();
        let p = path_of_idx(n + 1);
        lemma_path_of_idx(n + 1);
        assert(n >= 1);
        if p.len() == 0 {
            assert(path_val(Seq::<bool>::empty()) == 0);
            assert(path_idx(p) == 1);
        }
        let par = p.drop_last();
        assert(p == path_of_idx((n + 1) / 2).push((n + 1) % 2 == 1));
        assert(par =~= path_of_idx((n + 1) / 2));
        lemma_path_of_idx((n + 1) / 2);
        assert(path_idx(par) == (n + 1) / 2);
        assert((n + 1) / 2 <= n);
        assert(self.has_node(par));
        assert(!self.has_node(p));
        assert forall|q: Seq<bool>| self.is_slot(q) implies !path_before(q, p) by {
            assert(!self.has_node(q));
            assert(path_idx(q) > n);
            lemma_path_before_idx(q, p);
        }
    }

    /// A tree has at most one first empty slot in level order.
    pub proof fn lemma_first_slot_unique(self, p: Seq<bool>, q: Seq<bool>)
        requires
            self.is_first_slot(p),
            self.is_first_slot(q),
        ensures
            p == q,
    {
        assert(!path_before(p, q));
        assert(!path_before(q, p));
        lemma_path_val_injective(p, q);
    }

    /// Completeness: inserting into a complete tree yields a complete tree
    /// one node larger, the new leaf sitting at the next level-order rank.
    /// Starting from a single node, any sequence of insertions therefore
    /// keeps the tree complete, growing it by one node per call.
    pub proof fn lemma_insert_into_complete(pre: Self, post: Self, k: K)
        requires
            pre.is_complete(),
            Self::inserted(pre, post, k),
        ensures
            post.is_complete(),
            post.size() == pre.size() + 1,
            Self::grown_at(pre, post, path_of_idx(pre.size() + 1), k),
    {
        let n = pre.size();
        let p0 = path_of_idx(n + 1);
        pre.lemma_first_slot_of_complete();
        let p = choose|p: Seq<bool>| pre.is_first_slot(p) && Self::grown_at(pre, post, p, k);
        pre.lemma_first_slot_unique(p, p0);
        lemma_path_of_idx(n + 1);
        assert forall|q: Seq<bool>| post.has_node(q) <==> path_idx(q) <= post.size() by {
            assert(post.has_node(q) <==> (pre.has_node(q) || q == p0));
            if path_idx(q) == n + 1 {
                lemma_path_idx_injective(q, p0);
            }
        }
    }

    /// Ownership integrity: every non-root position that holds a node hangs
    /// off exactly one parent position, which also holds a node. Positions
    /// are paths from the root, so distinct paths address distinct nodes and
    /// no node is reachable two ways: the structure is a tree, not a graph.
    pub proof fn lemma_unique_parent(self, p: Seq<bool>)
        requires
            self.has_node(p),
            p.len() > 0,
        ensures
            self.has_node(p.drop_last()),
            forall|q: Seq<bool>| #[trigger] path_parent_of(q, p) ==> q == p.drop_last(),
        decreases p.len(),
    {
        if p.len() == 1 {
            assert(p.drop_last() =~= Seq::<bool>::empty());
        } else {
            let c = self.child_node(p[0]).unwrap();
            assert(c.has_node(p.drop_first()));
            c.lemma_unique_parent(p.drop_first());
            assert(p.drop_last() =~= seq![p[0]] + p.drop_first().drop_last());
            self.lemma_child_path(p[0], c, p.drop_first().drop_last());
        }
        assert forall|q: Seq<bool>| #[trigger] path_parent_of(q, p) implies q == p.drop_last() by {
            assert(q =~= p.drop_last());
        }
    }

    /// Fluent attachment overwrites: after two left attachments, only the
    /// second child is present; the first was dropped with nothing dangling.
    /// The hypotheses are exactly what `with_left` ensures of each call.
    pub proof fn lemma_attach_overwrite(
        base: Self,
        once: Self,
        twice: Self,
        c1: TreeNode<K>,
        c2: TreeNode<K>,
    )
        requires
            once.key == base.key,
            once.right == base.right,
            once.child_node(false) == Some(c1),
            twice.key == once.key,
            twice.right == once.right,
            twice.child_node(false) == Some(c2),
        ensures
            twice.child_node(false) == Some(c2),
            twice.key == base.key,
            twice.right == base.right,
    {
    }

    /// Order of fill: five insertions into a fresh single-node root land,
    /// in order, at left, right, left-left, left-right and right-left —
    /// breadth first, left before right at each level — and the root keeps
    /// its key. The hypotheses are what `new` and five calls of `insert`
    /// ensure, whatever the keys are.
    pub proof fn lemma_fill_order(
        t0: Self,
        t1: Self,
        t2: Self,
        t3: Self,
        t4: Self,
        t5: Self,
        k1: K,
        k2: K,
        k3: K,
        k4: K,
        k5: K,
    )
        requires
            t0.left is None,
            t0.right is None,
            Self::inserted(t0, t1, k1),
            Self::inserted(t1, t2, k2),
            Self::inserted(t2, t3, k3),
            Self::inserted(t3, t4, k4),
            Self::inserted(t4, t5, k5),
        ensures
            t5.key_at(Seq::<bool>::empty()) == Some(t0.key),
            t5.key_at(seq![false]) == Some(k1),
            t5.key_at(seq![true]) == Some(k2),
            t5.key_at(seq![false, false]) == Some(k3),
            t5.key_at(seq![false, true]) == Some(k4),
            t5.key_at(seq![true, false]) == Some(k5),
    {
        let e = Seq::<bool>::empty();
        let pl = seq![false];
        let pr = seq![true];
        let pll = seq![false, false];
        let plr = seq![false, true];
        let prl = seq![true, false];
        assert(path_of_idx(1) =~= e);
        assert(path_of_idx(2) =~= pl);
        assert(path_of_idx(3) =~= pr);
        assert(path_of_idx(4) =~= pll);
        assert(path_of_idx(5) =~= plr);
        assert(path_of_idx(6) =~= prl);
        t0.lemma_leaf_complete();
        Self::lemma_insert_into_complete(t0, t1, k1);
        Self::lemma_insert_into_complete(t1, t2, k2);
        Self::lemma_insert_into_complete(t2, t3, k3);
        Self::lemma_insert_into_complete(t3, t4, k4);
        Self::lemma_insert_into_complete(t4, t5, k5);
        // The six positions are pairwise distinct, so each key, once
        // placed, survives the later insertions.
        assert(e.len() == 0 && pl.len() == 1 && pr.len() == 1 && pll.len() == 2 && plr.len() == 2
            && prl.len() == 2);
        assert(pl[0] == false && pr[0] == true);
        assert(pll[1] == false && plr[1] == true);
        assert(pll[0] == false && prl[0] == true);
        assert(t0.key_at(e) == Some(t0.key));
        assert(t1.key_at(e) == Some(t0.key) && t1.key_at(pl) == Some(k1));
        assert(t2.key_at(e) == Some(t0.key) && t2.key_at(pl) == Some(k1) && t2.key_at(pr) == Some(
            k2,
        ));
        assert(t3.key_at(e) == Some(t0.key) && t3.key_at(pl) == Some(k1) && t3.key_at(pr) == Some(
            k2,
        ) && t3.key_at(pll) == Some(k3));
        assert(t4.key_at(e) == Some(t0.key) && t4.key_at(pl) == Some(k1) && t4.key_at(pr) == Some(
            k2,
        ) && t4.key_at(pll) == Some(k3) && t4.key_at(plr) == Some(k4));
        assert(t5.key_at(e) == Some(t0.key) && t5.key_at(pl) == Some(k1) && t5.key_at(pr) == Some(
            k2,
        ) && t5.key_at(pll) == Some(k3) && t5.key_at(plr) == Some(k4) && t5.key_at(prl) == Some(
            k5,
        ));
    }

    /// Creates a leaf node holding `key`, with both child slots empty.
    pub fn new(key: K) -> (r: Self)
        ensures
            r.key == key,
            r.left is None,
            r.right is None,
            r.size() == 1,
            r.is_complete(),
    {
        let r = TreeNode { left: None, right: None, key };
        proof {
            r.lemma_leaf_complete();
        }
        r
    }

    /// Attaches `node` as the left child, consuming the receiver and
    /// returning it for chaining. An already-occupied slot is silently
    /// overwritten; the previous occupant is dropped.
    pub fn with_left(self, node: TreeNode<K>) -> (r: Self)
        ensures
            r.key == self.key,
            r.right == self.right,
            r.child_node(false) == Some(node),
    {
        TreeNode { left: Some(Box::new(node)), right: self.right, key: self.key }
    }

    /// Attaches `node` as the right child, consuming the receiver and
    /// returning it for chaining. An already-occupied slot is silently
    /// overwritten; the previous occupant is dropped.
    pub fn with_right(self, node: TreeNode<K>) -> (r: Self)
        ensures
            r.key == self.key,
            r.left == self.left,
            r.child_node(true) == Some(node),
    {
        TreeNode { left: self.left, right: Some(Box::new(node)), key: self.key }
    }

    /// Finds the first empty child slot in level order — the slot a
    /// breadth-first, left-to-right scan reaches first — as a recursive
    /// search that keeps whichever candidate ranks first in that order.
    fn first_free(&self) -> (r: Vec<bool>)
        ensures
            self.is_first_slot(r@),
        decreases *self,
    {
        match (&self.left, &self.right) {
            (None, _) => {
                let mut r: Vec<bool> = Vec::new();
                r.push(false);
                proof {
                    assert(r@ =~= seq![false]);
                    assert(r@.drop_last() =~= Seq::<bool>::empty());
                    assert(!self.has_node(r@));
                    lemma_path_val_single(false);
                    assert forall|q: Seq<bool>| self.is_slot(q) implies !path_before(q, r@) by {
                        assert(q.len() >= 1);
                    }
                }
                r
            },
            (Some(_), None) => {
                let mut r: Vec<bool> = Vec::new();
                r.push(true);
                proof {
                    assert(r@ =~= seq![true]);
                    assert(r@.drop_last() =~= Seq::<bool>::empty());
                    assert(!self.has_node(r@));
                    lemma_path_val_single(true);
                    assert forall|q: Seq<bool>| self.is_slot(q) implies !path_before(q, r@) by {
                        if q.len() == 1 && path_val(q) < path_val(r@) {
                            lemma_path_val_single(q[0]);
                            assert(q =~= seq![q[0]]);
                            assert(!q[0]);
                            let c = self.child_node(false).unwrap();
                            assert(q.drop_first() =~= Seq::<bool>::empty());
                            assert(c.has_node(Seq::<bool>::empty()));
                            assert(self.has_node(q));
                        }
                    }
                }
                r
            },
            (Some(l), Some(rt)) => {
                let mut pl = l.first_free();
                let mut pr = rt.first_free();
                let ghost lc = self.child_node(false).unwrap();
                let ghost rc = self.child_node(true).unwrap();
                if pl.len() <= pr.len() {
                    let ghost pl0 = pl@;
                    pl.insert(0, false);
                    proof {
                        let p = pl@;
                        assert(p.drop_first() =~= pl0);
                        assert(p =~= seq![false] + pl0);
                        self.lemma_slot_lift(false, lc, pl0);
                        assert forall|q: Seq<bool>| self.is_slot(q) implies !path_before(q, p) by {
                            self.lemma_slot_decompose(q);
                            let q0 = q.drop_first();
                            assert(q =~= seq![q[0]] + q0);
                            lemma_path_val_prepend(q[0], q0);
                            lemma_path_val_prepend(false, pl0);
                            if !q[0] {
                                assert(lc.is_slot(q0));
                                assert(!path_before(q0, pl0));
                            } else {
                                assert(rc.is_slot(q0));
                                assert(!path_before(q0, pr@));
                                if q.len() == p.len() {
                                    lemma_path_val_bound(pl0);
                                    lemma_two_pow_mono(pl0.len(), q0.len());
                                }
                            }
                        }
                    }
                    pl
                } else {
                    let ghost pr0 = pr@;
                    pr.insert(0, true);
                    proof {
                        let p = pr@;
                        assert(p.drop_first() =~= pr0);
                        assert(p =~= seq![true] + pr0);
                        self.lemma_slot_lift(true, rc, pr0);
                        assert forall|q: Seq<bool>| self.is_slot(q) implies !path_before(q, p) by {
                            self.lemma_slot_decompose(q);
                            let q0 = q.drop_first();
                            assert(q =~= seq![q[0]] + q0);
                            lemma_path_val_prepend(q[0], q0);
                            lemma_path_val_prepend(true, pr0);
                            if !q[0] {
                                assert(lc.is_slot(q0));
                                assert(!path_before(q0, pl@));
                            } else {
                                assert(rc.is_slot(q0));
                                assert(!path_before(q0, pr0));
                            }
                        }
                    }
                    pr
                }
            },
        }
    }

    /// Installs a fresh leaf with key `k` at the empty slot addressed by
    /// `path[i..]`, descending one owned child at a time.
    fn install(node: &mut TreeNode<K>, path: &Vec<bool>, i: usize, k: K)
        requires
            i < path@.len(),
            old(node).is_slot(path@.skip(i as int)),
        ensures
            Self::grown_at(*old(node), *final(node), path@.skip(i as int), k),
        decreases path@.len() - i,
    {
        let ghost prel = path@.skip(i as int);
        let b = path[i];
        proof {
            assert(prel.len() == path@.len() - i);
            assert(prel[0] == b);
        }
        if i == path.len() - 1 {
            proof {
                assert(prel =~= seq![b]);
                assert(prel.drop_first() =~= Seq::<bool>::empty());
                if node.child_node(b) is Some {
                    let c = node.child_node(b).unwrap();
                    assert(c.has_node(Seq::<bool>::empty()));
                    assert(node.has_node(prel));
                }
            }
            if b {
                node.right = Some(Box::new(TreeNode { left: None, right: None, key: k }));
            } else {
                node.left = Some(Box::new(TreeNode { left: None, right: None, key: k }));
            }
            proof {
                assert(node.child_node(b) == Some(Self::leaf(k)));
                Self::lemma_grow_leaf(*old(node), *node, b, k);
            }
        } else {
            proof {
                assert(prel.len() >= 2);
                old(node).lemma_slot_step(prel);
                assert(path@.skip(i as int + 1) =~= prel.drop_first());
            }
            if b {
                let mut c: Box<TreeNode<K>> = node.right.take().unwrap();
                let ghost pre_c = *c;
                Self::install(&mut *c, path, i + 1, k);
                let ghost post_c = *c;
                node.right = Some(c);
                proof {
                    Self::lemma_grow_step(*old(node), *node, true, pre_c, post_c,
                        prel.drop_first(), k);
                    assert(seq![true] + prel.drop_first() =~= prel);
                }
            } else {
                let mut c: Box<TreeNode<K>> = node.left.take().unwrap();
                let ghost pre_c = *c;
                Self::install(&mut *c, path, i + 1, k);
                let ghost post_c = *c;
                node.left = Some(c);
                proof {
                    Self::lemma_grow_step(*old(node), *node, false, pre_c, post_c,
                        prel.drop_first(), k);
                    assert(seq![false] + prel.drop_first() =~= prel);
                }
            }
        }
    }

    /// Adds a new leaf holding `new_key` at the first empty child slot in
    /// breadth-first, left-to-right order, scanning from this node as the
    /// root of the scan. Shape is purely a function of the sequence of
    /// insertions: keys are never compared.
    pub fn insert(&mut self, new_key: K)
        ensures
            Self::inserted(*old(self), *final(self), new_key),
            old(self).is_complete() ==> final(self).is_complete() && final(self).size() == old(
                self,
            ).size() + 1,
    {
        let path = self.first_free();
        proof {
            assert(path@.skip(0) =~= path@);
        }
        Self::install(self, &path, 0, new_key);
        proof {
            assert(old(self).is_first_slot(path@));
            assert(Self::grown_at(*old(self), *self, path@, new_key));
            if old(self).is_complete() {
                Self::lemma_insert_into_complete(*old(self), *self, new_key);
            }
        }
    }

}

} // verus!
