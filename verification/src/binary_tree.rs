//! A plain (unbalanced) binary search tree over `i64` keys, together with
//! the ordered-set contract that any conforming container implements.

use vstd::prelude::*;

verus! {

broadcast use vstd::set::group_set_axioms;

/// One occupied position of the tree: a key and two optional owned children.
pub struct Node {
    pub value: i64,
    pub left: BinaryTree,
    pub right: BinaryTree,
}

/// A tree is either empty or one owned root node.
pub type BinaryTree = Option<Box<Node>>;

/// The keys of a subtree, as a mathematical set.
pub open spec fn bst_keys(t: BinaryTree) -> Set<i64>
    decreases t,
{
    match t {
        None => Set::empty(),
        Some(n) => bst_keys(n.left).insert(n.value).union(bst_keys(n.right)),
    }
}

/// The in-order (left, self, right) traversal of a subtree.
pub open spec fn bst_seq(t: BinaryTree) -> Seq<i64>
    decreases t,
{
    match t {
        None => Seq::empty(),
        Some(n) => bst_seq(n.left) + seq![n.value] + bst_seq(n.right),
    }
}

/// The pre-order (self, left, right) traversal of a subtree.
pub open spec fn bst_pre_seq(t: BinaryTree) -> Seq<i64>
    decreases t,
{
    match t {
        None => Seq::empty(),
        Some(n) => seq![n.value] + bst_pre_seq(n.left) + bst_pre_seq(n.right),
    }
}

/// The search-order invariant: at every node, all keys of the left subtree
/// compare less than the node's key and all keys of the right subtree greater.
pub open spec fn bst_ordered(t: BinaryTree) -> bool
    decreases t,
{
    match t {
        None => true,
        Some(n) => {
            &&& bst_ordered(n.left)
            &&& bst_ordered(n.right)
            &&& (forall|k: i64| bst_keys(n.left).contains(k) ==> k < n.value)
            &&& (forall|k: i64| bst_keys(n.right).contains(k) ==> k > n.value)
        },
    }
}

/// The keys of a node taken on its own, outside any enclosing tree.
pub open spec fn bst_node_keys(n: Node) -> Set<i64> {
    bst_keys(n.left).insert(n.value).union(bst_keys(n.right))
}

/// The search-order invariant of a node taken on its own.
pub open spec fn bst_node_ordered(n: Node) -> bool {
    &&& bst_ordered(n.left)
    &&& bst_ordered(n.right)
    &&& (forall|k: i64| bst_keys(n.left).contains(k) ==> k < n.value)
    &&& (forall|k: i64| bst_keys(n.right).contains(k) ==> k > n.value)
}

/// What insertion builds, node for node: descend by comparison, place a
/// fresh leaf at the absent position, keep the tree unchanged on an equal
/// key.
pub open spec fn spec_bst_insert(t: BinaryTree, item: i64) -> BinaryTree
    decreases t,
{
    match t {
        None => Some(Box::new(Node { value: item, left: None, right: None })),
        Some(n) => {
            if item < n.value {
                Some(
                    Box::new(
                        Node { value: n.value, left: spec_bst_insert(n.left, item), right: n.right },
                    ),
                )
            } else if item > n.value {
                Some(
                    Box::new(
                        Node { value: n.value, left: n.left, right: spec_bst_insert(n.right, item) },
                    ),
                )
            } else {
                t
            }
        },
    }
}

/// What removing the least key of a node's subtree yields: the key and the
/// rebuilt subtree.
pub open spec fn spec_bst_delete_min(n: Node) -> (i64, BinaryTree)
    decreases n,
{
    match n.left {
        None => (n.value, n.right),
        Some(l) => {
            let p = spec_bst_delete_min(*l);
            (p.0, Some(Box::new(Node { value: n.value, left: p.1, right: n.right })))
        },
    }
}

/// What deletion builds, node for node: descend by comparison; a leaf is
/// dropped, a one-child node is replaced by its child, and a two-child
/// node takes the minimum of its right subtree (the in-order successor)
/// as its key, keeping the left subtree unchanged.
pub open spec fn spec_bst_delete(t: BinaryTree, item: i64) -> BinaryTree
    decreases t,
{
    match t {
        None => None,
        Some(n) => {
            if item < n.value {
                Some(
                    Box::new(
                        Node { value: n.value, left: spec_bst_delete(n.left, item), right: n.right },
                    ),
                )
            } else if item > n.value {
                Some(
                    Box::new(
                        Node { value: n.value, left: n.left, right: spec_bst_delete(n.right, item) },
                    ),
                )
            } else if n.left is None && n.right is None {
                None
            } else if n.right is None {
                n.left
            } else if n.left is None {
                n.right
            } else {
                let p = spec_bst_delete_min(*n.right.unwrap());
                Some(Box::new(Node { value: p.0, left: n.left, right: p.1 }))
            }
        },
    }
}

/// A strictly ascending sequence of keys.
pub open spec fn strictly_sorted(s: Seq<i64>) -> bool {
    forall|i: int, j: int| 0 <= i < j < s.len() ==> s[i] < s[j]
}

/// Membership law: a key occurs in the in-order traversal exactly when it
/// is a key of the tree, which ties `contained` to `in_order`.
pub proof fn lemma_bst_seq_keys(t: BinaryTree)
    ensures
        forall|k: i64| bst_seq(t).contains(k) <==> bst_keys(t).contains(k),
    decreases t,
{
    match t {
        None => {},
        Some(n) => {
            lemma_bst_seq_keys(n.left);
            lemma_bst_seq_keys(n.right);
            let s = bst_seq(t);
            let l = bst_seq(n.left);
            let r = bst_seq(n.right);
            assert(s == l + seq![n.value] + r);
            assert forall|k: i64| s.contains(k) implies bst_keys(t).contains(k) by {
                let i = choose|i: int| 0 <= i < s.len() && s[i] == k;
                if i < l.len() {
                    assert(l[i] == k);
                    assert(l.contains(k));
                } else if i == l.len() {
                    assert(k == n.value);
                } else {
                    assert(r[i - l.len() - 1] == k);
                    assert(r.contains(k));
                }
            };
            assert forall|k: i64| bst_keys(t).contains(k) implies s.contains(k) by {
                if bst_keys(n.left).contains(k) {
                    assert(l.contains(k));
                    let i = choose|i: int| 0 <= i < l.len() && l[i] == k;
                    assert(s[i] == k);
                    assert(s.contains(k));
                } else if k == n.value {
                    assert(s[l.len() as int] == k);
                    assert(s.contains(k));
                } else {
                    assert(bst_keys(n.right).contains(k));
                    assert(r.contains(k));
                    let i = choose|i: int| 0 <= i < r.len() && r[i] == k;
                    assert(s[l.len() + 1 + i] == k);
                    assert(s.contains(k));
                }
            };
        },
    }
}

/// Membership law for the pre-order traversal: it visits exactly the keys.
pub proof fn lemma_bst_pre_seq_keys(t: BinaryTree)
    ensures
        forall|k: i64| bst_pre_seq(t).contains(k) <==> bst_keys(t).contains(k),
    decreases t,
{
    match t {
        None => {},
        Some(n) => {
            lemma_bst_pre_seq_keys(n.left);
            lemma_bst_pre_seq_keys(n.right);
            let s = bst_pre_seq(t);
            let l = bst_pre_seq(n.left);
            let r = bst_pre_seq(n.right);
            assert(s == seq![n.value] + l + r);
            assert forall|k: i64| s.contains(k) implies bst_keys(t).contains(k) by {
                let i = choose|i: int| 0 <= i < s.len() && s[i] == k;
                if i == 0 {
                    assert(k == n.value);
                } else if i < 1 + l.len() {
                    assert(l[i - 1] == k);
                    assert(l.contains(k));
                } else {
                    assert(r[i - l.len() - 1] == k);
                    assert(r.contains(k));
                }
            };
            assert forall|k: i64| bst_keys(t).contains(k) implies s.contains(k) by {
                if bst_keys(n.left).contains(k) {
                    assert(l.contains(k));
                    let i = choose|i: int| 0 <= i < l.len() && l[i] == k;
                    assert(s[1 + i] == k);
                    assert(s.contains(k));
                } else if k == n.value {
                    assert(s[0] == k);
                    assert(s.contains(k));
                } else {
                    assert(bst_keys(n.right).contains(k));
                    assert(r.contains(k));
                    let i = choose|i: int| 0 <= i < r.len() && r[i] == k;
                    assert(s[l.len() + 1 + i] == k);
                    assert(s.contains(k));
                }
            };
        },
    }
}

/// The ordering law: under the search-order invariant the in-order
/// traversal is strictly ascending, so each key occurs at most once.
pub proof fn lemma_bst_sorted(t: BinaryTree)
    requires
        bst_ordered(t),
    ensures
        strictly_sorted(bst_seq(t)),
    decreases t,
{
    match t {
        None => {},
        Some(n) => {
            lemma_bst_sorted(n.left);
            lemma_bst_sorted(n.right);
            lemma_bst_seq_keys(n.left);
            lemma_bst_seq_keys(n.right);
            let s = bst_seq(t);
            let l = bst_seq(n.left);
            let r = bst_seq(n.right);
            assert(s == l + seq![n.value] + r);
            assert forall|i: int, j: int| 0 <= i < j < s.len() implies s[i] < s[j] by {
                let llen = l.len() as int;
                if i < llen {
                    assert(s[i] == l[i]);
                    assert(l.contains(l[i]));
                    assert(bst_keys(n.left).contains(s[i]));
                    assert(s[i] < n.value);
                } else if i == llen {
                    assert(s[i] == n.value);
                } else {
                    assert(s[i] == r[i - llen - 1]);
                }
                if j < llen {
                    assert(s[j] == l[j]);
                } else if j == llen {
                    assert(s[j] == n.value);
                } else {
                    assert(s[j] == r[j - llen - 1]);
                    assert(r.contains(r[j - llen - 1]));
                    assert(bst_keys(n.right).contains(s[j]));
                    assert(s[j] > n.value);
                }
            };
        },
    }
}

/// The delete law: whatever else a delete did, the key set afterwards,
/// `key_set().remove(k)` by `delete`'s contract, never holds the deleted
/// key, so a `contained(k)` after a `delete(k)` returns false.
pub proof fn lemma_delete_then_absent(s: Set<i64>, k: i64)
    ensures
        !s.remove(k).contains(k),
{
}

/// The ordered-set contract shared by the plain and the balanced containers.
pub trait BinarySearchTree: Sized {
    /// The structural invariant that every operation preserves.
    spec fn wf(&self) -> bool;

    /// The set of keys held by the container.
    spec fn key_set(&self) -> Set<i64>;

    /// The in-order traversal of the container.
    spec fn in_seq(&self) -> Seq<i64>;

    /// The pre-order traversal of the container.
    spec fn pre_seq(&self) -> Seq<i64>;

    /// Whether an insertion is possible; only machine limits ever refuse one.
    spec fn can_insert(&self) -> bool;

    fn new() -> (r: Self)
        ensures
            r.wf(),
            r.key_set() == Set::<i64>::empty(),
            r.in_seq() == Seq::<i64>::empty(),
    ;

    fn new_from_item(item: i64) -> (r: Self)
        ensures
            r.wf(),
            r.key_set() == Set::<i64>::empty().insert(item),
            r.in_seq() == seq![item],
    ;

    fn insert_inner(self, item: i64) -> (r: Self)
        requires
            self.wf(),
            self.can_insert(),
        ensures
            r.wf(),
            r.key_set() == self.key_set().insert(item),
            self.key_set().contains(item) ==> r == self,
    ;

    fn insert_item(&mut self, item: i64)
        requires
            old(self).wf(),
            old(self).can_insert(),
        ensures
            final(self).wf(),
            final(self).key_set() == old(self).key_set().insert(item),
            old(self).key_set().contains(item) ==> *final(self) == *old(self),
    ;

    fn delete_inner(&mut self, item: i64) -> (r: Self)
        requires
            old(self).wf(),
        ensures
            r.wf(),
            r.key_set() == old(self).key_set().remove(item),
            !old(self).key_set().contains(item) ==> r == *old(self),
            final(self).wf(),
            final(self).key_set() == Set::<i64>::empty(),
    ;

    fn delete(&mut self, item: i64)
        requires
            old(self).wf(),
        ensures
            final(self).wf(),
            final(self).key_set() == old(self).key_set().remove(item),
            !old(self).key_set().contains(item) ==> *final(self) == *old(self),
    ;

    fn contained(&self, item: i64) -> (r: bool)
        requires
            self.wf(),
        ensures
            r == self.key_set().contains(item),
    ;

    fn in_order(&self) -> (r: Vec<i64>)
        requires
            self.wf(),
        ensures
            r@ == self.in_seq(),
            strictly_sorted(r@),
            forall|k: i64| r@.contains(k) <==> self.key_set().contains(k),
    ;

    fn pre_order(&self) -> (r: Vec<i64>)
        requires
            self.wf(),
        ensures
            r@ == self.pre_seq(),
            forall|k: i64| r@.contains(k) <==> self.key_set().contains(k),
    ;
}

impl Node {
    fn new(item: i64) -> (r: Self)
        ensures
            r.value == item,
            r.left is None,
            r.right is None,
    {
        Node { value: item, left: None, right: None }
    }

    /// Removes the least key of the subtree rooted at this node and returns
    /// it together with what remains of the subtree.
    pub fn delete_min(self) -> (r: (i64, BinaryTree))
        requires
            bst_node_ordered(self),
        ensures
            bst_node_keys(self).contains(r.0),
            forall|k: i64| bst_node_keys(self).contains(k) ==> r.0 <= k,
            bst_ordered(r.1),
            bst_keys(r.1) == bst_node_keys(self).remove(r.0),
            r == spec_bst_delete_min(self),
        decreases self,
    {
        let mut this = self;
        match this.left.take() {
            None => {
                proof {
                    assert(bst_keys(self.left) == Set::<i64>::empty());
                    assert forall|k: i64| bst_node_keys(self).contains(k) implies self.value
                        <= k by {
                        if bst_keys(self.right).contains(k) {
                            assert(k > self.value);
                        }
                    };
                    assert(!bst_keys(self.right).contains(self.value));
                    assert(bst_keys(this.right) =~= bst_node_keys(self).remove(self.value));
                }
                (this.value, this.right)
            },
            Some(left) => {
                let (item, new_left) = (*left).delete_min();
                this.left = new_left;
                let r = Some(Box::new(this));
                proof {
                    assert(bst_node_keys(*left) == bst_keys(self.left));
                    assert(bst_keys(self.left).contains(item));
                    assert(item < self.value);
                    assert(bst_keys(r) == bst_keys(new_left).insert(this.value).union(
                        bst_keys(this.right),
                    ));
                    assert forall|k: i64| bst_keys(new_left).contains(k) implies k
                        < self.value by {
                        assert(bst_keys(self.left).contains(k));
                    };
                    assert(bst_ordered(r));
                    assert(!bst_keys(self.right).contains(item));
                    assert(bst_keys(r) =~= bst_node_keys(self).remove(item));
                    assert forall|k: i64| bst_node_keys(self).contains(k) implies item <= k by {
                        if bst_keys(self.right).contains(k) {
                            assert(k > self.value);
                        }
                    };
                }
                (item, r)
            },
        }
    }
}

impl BinarySearchTree for BinaryTree {
    open spec fn wf(&self) -> bool {
        bst_ordered(*self)
    }

    open spec fn key_set(&self) -> Set<i64> {
        bst_keys(*self)
    }

    open spec fn in_seq(&self) -> Seq<i64> {
        bst_seq(*self)
    }

    open spec fn pre_seq(&self) -> Seq<i64> {
        bst_pre_seq(*self)
    }

    open spec fn can_insert(&self) -> bool {
        true
    }

    fn new() -> (r: Self) {
        None
    }

    fn new_from_item(item: i64) -> (r: Self)
        ensures
            r == spec_bst_insert(None, item),
    {
        let n = Node::new(item);
        let b = Box::new(n);
        let r = Some(b);
        proof {
            assert(r == spec_bst_insert(None, item));
            assert(b.value == item && b.left is None && b.right is None);
            assert(bst_keys(r) == bst_keys(b.left).insert(b.value).union(bst_keys(b.right)));
            assert(bst_keys(r) =~= Set::<i64>::empty().insert(item));
            assert(bst_seq(r) == bst_seq(b.left) + seq![b.value] + bst_seq(b.right));
            assert(bst_seq(r) =~= seq![item]);
            assert(bst_ordered(b.left) && bst_ordered(b.right));
            assert(bst_keys(b.left) == Set::<i64>::empty());
            assert(bst_keys(b.right) == Set::<i64>::empty());
            assert forall|k: i64| bst_keys(b.left).contains(k) implies k < b.value by {}
            assert forall|k: i64| bst_keys(b.right).contains(k) implies k > b.value by {}
            assert(bst_ordered(r));
        }
        r
    }

    fn insert_inner(self, item: i64) -> (r: Self)
        ensures
            r == spec_bst_insert(self, item),
        decreases self,
    {
        match self {
            None => {
                let r = Self::new_from_item(item);
                proof {
                    assert(bst_keys(self) == Set::<i64>::empty());
                    assert(bst_keys(r) =~= bst_keys(self).insert(item));
                    assert(r == spec_bst_insert(self, item));
                }
                r
            },
            Some(mut node) => {
                proof {
                    assert(bst_keys(self) == bst_keys(node.left).insert(node.value).union(
                        bst_keys(node.right),
                    ));
                }
                if item < node.value {
                    proof {
                        assert(!bst_keys(node.right).contains(item));
                    }
                    let sub = node.left.take();
                    let new_sub = sub.insert_inner(item);
                    node.left = new_sub;
                    let r = Some(node);
                    proof {
                        assert(bst_keys(r) == bst_keys(new_sub).insert(node.value).union(
                            bst_keys(node.right),
                        ));
                        assert(bst_keys(r) =~= bst_keys(self).insert(item));
                        assert forall|k: i64| bst_keys(new_sub).contains(k) implies k
                            < node.value by {
                            if k != item {
                                assert(bst_keys(sub).contains(k));
                            }
                        };
                        assert(bst_ordered(r));
                        assert(r == spec_bst_insert(self, item));
                    }
                    r
                } else if item > node.value {
                    proof {
                        assert(!bst_keys(node.left).contains(item));
                    }
                    let sub = node.right.take();
                    let new_sub = sub.insert_inner(item);
                    node.right = new_sub;
                    let r = Some(node);
                    proof {
                        assert(bst_keys(r) == bst_keys(node.left).insert(node.value).union(
                            bst_keys(new_sub),
                        ));
                        assert(bst_keys(r) =~= bst_keys(self).insert(item));
                        assert forall|k: i64| bst_keys(new_sub).contains(k) implies k
                            > node.value by {
                            if k != item {
                                assert(bst_keys(sub).contains(k));
                            }
                        };
                        assert(bst_ordered(r));
                        assert(r == spec_bst_insert(self, item));
                    }
                    r
                } else {
                    let r = Some(node);
                    proof {
                        assert(bst_keys(self).contains(item));
                        assert(bst_keys(r) =~= bst_keys(self).insert(item));
                        assert(r == spec_bst_insert(self, item));
                    }
                    r
                }
            },
        }
    }

    fn insert_item(&mut self, item: i64)
        ensures
            *final(self) == spec_bst_insert(*old(self), item),
    {
        let t = self.take();
        *self = t.insert_inner(item);
    }

    fn delete_inner(&mut self, item: i64) -> (r: Self)
        ensures
            r == spec_bst_delete(*old(self), item),
        decreases *old(self),
    {
        let t = self.take();
        match t {
            None => None,
            Some(mut node) => {
                proof {
                    assert(bst_keys(t) == bst_keys(node.left).insert(node.value).union(
                        bst_keys(node.right),
                    ));
                }
                if item < node.value {
                    proof {
                        assert(!bst_keys(node.right).contains(item));
                    }
                    let ghost sub0 = node.left;
                    let d = node.left.delete_inner(item);
                    node.left = d;
                    let r = Some(node);
                    proof {
                        assert(bst_keys(r) == bst_keys(d).insert(node.value).union(
                            bst_keys(node.right),
                        ));
                        assert forall|k: i64| bst_keys(d).contains(k) implies k < node.value by {
                            assert(bst_keys(sub0).contains(k));
                        };
                        assert(bst_ordered(r));
                        assert(bst_keys(r) =~= bst_keys(t).remove(item));
                    }
                    r
                } else if item > node.value {
                    proof {
                        assert(!bst_keys(node.left).contains(item));
                    }
                    let ghost sub0 = node.right;
                    let d = node.right.delete_inner(item);
                    node.right = d;
                    let r = Some(node);
                    proof {
                        assert(bst_keys(r) == bst_keys(node.left).insert(node.value).union(
                            bst_keys(d),
                        ));
                        assert forall|k: i64| bst_keys(d).contains(k) implies k > node.value by {
                            assert(bst_keys(sub0).contains(k));
                        };
                        assert(bst_ordered(r));
                        assert(bst_keys(r) =~= bst_keys(t).remove(item));
                    }
                    r
                } else {
                    proof {
                        assert(!bst_keys(node.left).contains(item));
                        assert(!bst_keys(node.right).contains(item));
                    }
                    let l = node.left.take();
                    let rt = node.right.take();
                    match (l, rt) {
                        (None, None) => {
                            proof {
                                assert(bst_keys(None::<Box<Node>>) =~= bst_keys(t).remove(item));
                            }
                            None
                        },
                        (Some(lb), None) => {
                            let r = Some(lb);
                            proof {
                                assert(bst_keys(r) =~= bst_keys(t).remove(item));
                            }
                            r
                        },
                        (None, Some(rb)) => {
                            let r = Some(rb);
                            proof {
                                assert(bst_keys(r) =~= bst_keys(t).remove(item));
                            }
                            r
                        },
                        (Some(lb), Some(rb)) => {
                            proof {
                                assert(bst_ordered(Some(rb)));
                                assert(bst_node_ordered(*rb));
                                assert(bst_keys(Some(rb)) == bst_keys(rb.left).insert(
                                    rb.value,
                                ).union(bst_keys(rb.right)));
                                assert(bst_node_keys(*rb) == bst_keys(Some(rb)));
                            }
                            let (m, rest) = (*rb).delete_min();
                            node.value = m;
                            node.right = rest;
                            node.left = Some(lb);
                            let r = Some(node);
                            proof {
                                assert(bst_keys(Some(lb)).contains(m) == false);
                                assert(m > item);
                                assert(bst_keys(r) == bst_keys(Some(lb)).insert(m).union(
                                    bst_keys(rest),
                                ));
                                assert forall|k: i64| bst_keys(Some(lb)).contains(k) implies k
                                    < m by {
                                    assert(k < item);
                                };
                                assert forall|k: i64| bst_keys(rest).contains(k) implies k > m by {
                                    assert(bst_keys(Some(rb)).contains(k));
                                    assert(k >= m);
                                    assert(k != m);
                                };
                                assert(bst_ordered(r));
                                assert(bst_keys(r) =~= bst_keys(t).remove(item));
                            }
                            r
                        },
                    }
                }
            },
        }
    }

    fn delete(&mut self, item: i64)
        ensures
            *final(self) == spec_bst_delete(*old(self), item),
    {
        let mut t = self.take();
        let r = t.delete_inner(item);
        *self = r;
    }

    fn contained(&self, item: i64) -> (r: bool)
        decreases self,
    {
        match self {
            None => false,
            Some(node) => {
                proof {
                    assert(bst_keys(*self) == bst_keys(node.left).insert(node.value).union(
                        bst_keys(node.right),
                    ));
                }
                if item < node.value {
                    proof {
                        assert(!bst_keys(node.right).contains(item));
                        assert(bst_keys(*self).contains(item) == bst_keys(node.left).contains(
                            item,
                        ));
                    }
                    node.left.contained(item)
                } else if item > node.value {
                    proof {
                        assert(!bst_keys(node.left).contains(item));
                        assert(bst_keys(*self).contains(item) == bst_keys(node.right).contains(
                            item,
                        ));
                    }
                    node.right.contained(item)
                } else {
                    true
                }
            },
        }
    }

    fn in_order(&self) -> (r: Vec<i64>)
        decreases self,
    {
        proof {
            lemma_bst_sorted(*self);
            lemma_bst_seq_keys(*self);
        }
        match self {
            None => Vec::new(),
            Some(node) => {
                let mut acc = node.left.in_order();
                acc.push(node.value);
                let mut tail = node.right.in_order();
                acc.append(&mut tail);
                proof {
                    assert(acc@ =~= bst_seq(*self));
                }
                acc
            },
        }
    }

    fn pre_order(&self) -> (r: Vec<i64>)
        decreases self,
    {
        proof {
            lemma_bst_pre_seq_keys(*self);
        }
        match self {
            None => Vec::new(),
            Some(node) => {
                let mut acc = Vec::new();
                acc.push(node.value);
                let mut mid = node.left.pre_order();
                acc.append(&mut mid);
                let mut tail = node.right.pre_order();
                acc.append(&mut tail);
                proof {
                    assert(acc@ =~= bst_pre_seq(*self));
                }
                acc
            },
        }
    }
}

} // verus!
