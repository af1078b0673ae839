//! A height-balanced (AVL) binary search tree over `i64` keys: rotation
//! primitives, balance-factor evaluation, and the rebalancing algorithm
//! applied bottom-up after every structural mutation, all while preserving
//! the search-order invariant, the height caches and the balance invariant.

use vstd::prelude::*;
use crate::binary_tree::BinarySearchTree;
use crate::binary_tree::strictly_sorted;

verus! {

broadcast use vstd::set::group_set_axioms;

/// One occupied position: a key, two optional owned children, and the
/// cached height of the subtree rooted here.
pub struct AvlNode {
    pub value: i64,
    pub left: AvlTree,
    pub right: AvlTree,
    pub height: usize,
}

/// A balanced tree is either empty or one owned root node.
pub type AvlTree = Option<Box<AvlNode>>;

/// The larger of two heights.
pub open spec fn nat_max(a: nat, b: nat) -> nat {
    if a >= b {
        a
    } else {
        b
    }
}

/// The true (structural) height of a subtree: an absent subtree has
/// height 0, a node 1 + the larger child height.
pub open spec fn avl_height(t: AvlTree) -> nat
    decreases t,
{
    match t {
        None => 0,
        Some(n) => 1 + nat_max(avl_height(n.left), avl_height(n.right)),
    }
}

/// The keys of a subtree, as a mathematical set.
pub open spec fn avl_keys(t: AvlTree) -> Set<i64>
    decreases t,
{
    match t {
        None => Set::empty(),
        Some(n) => avl_keys(n.left).insert(n.value).union(avl_keys(n.right)),
    }
}

/// The in-order (left, self, right) traversal of a subtree.
pub open spec fn avl_seq(t: AvlTree) -> Seq<i64>
    decreases t,
{
    match t {
        None => Seq::empty(),
        Some(n) => avl_seq(n.left) + seq![n.value] + avl_seq(n.right),
    }
}

/// The pre-order (self, left, right) traversal of a subtree.
pub open spec fn avl_pre_seq(t: AvlTree) -> Seq<i64>
    decreases t,
{
    match t {
        None => Seq::empty(),
        Some(n) => seq![n.value] + avl_pre_seq(n.left) + avl_pre_seq(n.right),
    }
}

/// The search-order invariant.
pub open spec fn avl_ordered(t: AvlTree) -> bool
    decreases t,
{
    match t {
        None => true,
        Some(n) => {
            &&& avl_ordered(n.left)
            &&& avl_ordered(n.right)
            &&& (forall|k: i64| avl_keys(n.left).contains(k) ==> k < n.value)
            &&& (forall|k: i64| avl_keys(n.right).contains(k) ==> k > n.value)
        },
    }
}

/// The height-cache invariant: every cached height equals 1 + the larger
/// child height.
pub open spec fn avl_heights_ok(t: AvlTree) -> bool
    decreases t,
{
    match t {
        None => true,
        Some(n) => {
            &&& avl_heights_ok(n.left)
            &&& avl_heights_ok(n.right)
            &&& n.height == 1 + nat_max(avl_height(n.left), avl_height(n.right))
        },
    }
}

/// The balance factor of a subtree: 0 for empty, else left height minus
/// right height.
pub open spec fn avl_bf(t: AvlTree) -> int {
    match t {
        None => 0,
        Some(n) => avl_height(n.left) - avl_height(n.right),
    }
}

/// The balance invariant: at every node the child heights differ by at
/// most one.
pub open spec fn avl_balanced(t: AvlTree) -> bool
    decreases t,
{
    match t {
        None => true,
        Some(n) => {
            &&& avl_balanced(n.left)
            &&& avl_balanced(n.right)
            &&& -1 <= avl_height(n.left) - avl_height(n.right) <= 1
        },
    }
}

/// Full well-formedness of an AVL subtree.
pub open spec fn avl_wf(t: AvlTree) -> bool {
    avl_ordered(t) && avl_heights_ok(t) && avl_balanced(t)
}

/// The keys of a node taken on its own.
pub open spec fn avl_node_keys(n: AvlNode) -> Set<i64> {
    avl_keys(n.left).insert(n.value).union(avl_keys(n.right))
}

/// The height of a node taken on its own.
pub open spec fn avl_node_height(n: AvlNode) -> nat {
    1 + nat_max(avl_height(n.left), avl_height(n.right))
}

/// Full well-formedness of a node taken on its own.
pub open spec fn avl_node_wf(n: AvlNode) -> bool {
    &&& avl_wf(n.left)
    &&& avl_wf(n.right)
    &&& (forall|k: i64| avl_keys(n.left).contains(k) ==> k < n.value)
    &&& (forall|k: i64| avl_keys(n.right).contains(k) ==> k > n.value)
    &&& n.height == avl_node_height(n)
    &&& -1 <= avl_height(n.left) - avl_height(n.right) <= 1
}

/// What the balance evaluator expects: both children already well formed,
/// the node's own cache correct, and a transient imbalance of at most 2.
pub open spec fn avl_pre_balance(t: AvlTree) -> bool {
    match t {
        None => true,
        Some(n) => {
            &&& avl_wf(n.left)
            &&& avl_wf(n.right)
            &&& (forall|k: i64| avl_keys(n.left).contains(k) ==> k < n.value)
            &&& (forall|k: i64| avl_keys(n.right).contains(k) ==> k > n.value)
            &&& n.height == avl_node_height(*n)
            &&& -2 <= avl_height(n.left) - avl_height(n.right) <= 2
        },
    }
}

/// A left rotation needs a root, a right child, correct caches below the
/// root, and room for the rebuilt heights in `usize`.
pub open spec fn avl_can_rotate_left(t: AvlTree) -> bool {
    &&& t is Some
    &&& t.unwrap().right is Some
    &&& avl_heights_ok(t.unwrap().left)
    &&& avl_heights_ok(t.unwrap().right)
    &&& avl_height(t.unwrap().left) < usize::MAX - 1
    &&& avl_height(t.unwrap().right.unwrap().left) < usize::MAX - 1
}

/// Mirror image of `avl_can_rotate_left`.
pub open spec fn avl_can_rotate_right(t: AvlTree) -> bool {
    &&& t is Some
    &&& t.unwrap().left is Some
    &&& avl_heights_ok(t.unwrap().left)
    &&& avl_heights_ok(t.unwrap().right)
    &&& avl_height(t.unwrap().right) < usize::MAX - 1
    &&& avl_height(t.unwrap().left.unwrap().right) < usize::MAX - 1
}

/// What a left rotation builds: the right child is promoted to the root,
/// the old root becomes its left child, and both rebuilt nodes carry
/// freshly computed heights.
pub open spec fn spec_rotate_left(t: AvlTree) -> AvlTree {
    let n = t.unwrap();
    let rn = n.right.unwrap();
    let h_inner = 1 + nat_max(avl_height(n.left), avl_height(rn.left));
    Some(
        Box::new(
            AvlNode {
                value: rn.value,
                left: Some(
                    Box::new(
                        AvlNode {
                            value: n.value,
                            left: n.left,
                            right: rn.left,
                            height: h_inner as usize,
                        },
                    ),
                ),
                right: rn.right,
                height: (1 + nat_max(h_inner, avl_height(rn.right))) as usize,
            },
        ),
    )
}

/// Mirror image of `spec_rotate_left`.
pub open spec fn spec_rotate_right(t: AvlTree) -> AvlTree {
    let n = t.unwrap();
    let ln = n.left.unwrap();
    let h_inner = 1 + nat_max(avl_height(ln.right), avl_height(n.right));
    Some(
        Box::new(
            AvlNode {
                value: ln.value,
                left: ln.left,
                right: Some(
                    Box::new(
                        AvlNode {
                            value: n.value,
                            left: ln.right,
                            right: n.right,
                            height: h_inner as usize,
                        },
                    ),
                ),
                height: (1 + nat_max(avl_height(ln.left), h_inner)) as usize,
            },
        ),
    )
}

/// What the balance evaluator builds: a single rotation against the heavy
/// side when the heavy child leans the same way or not at all, the double
/// rotation (rotate the heavy child away first) when it leans the other
/// way, and the input unchanged when no imbalance is found.
pub open spec fn spec_balance(t: AvlTree) -> AvlTree {
    let bf = avl_bf(t);
    if bf > 1 {
        let n = t.unwrap();
        if avl_bf(n.left) < 0 {
            spec_rotate_right(
                Some(
                    Box::new(
                        AvlNode {
                            value: n.value,
                            left: spec_rotate_left(n.left),
                            right: n.right,
                            height: n.height,
                        },
                    ),
                ),
            )
        } else {
            spec_rotate_right(t)
        }
    } else if bf < -1 {
        let n = t.unwrap();
        if avl_bf(n.right) > 0 {
            spec_rotate_left(
                Some(
                    Box::new(
                        AvlNode {
                            value: n.value,
                            left: n.left,
                            right: spec_rotate_right(n.right),
                            height: n.height,
                        },
                    ),
                ),
            )
        } else {
            spec_rotate_left(t)
        }
    } else {
        t
    }
}

/// What insertion builds, node for node: descend by comparison, place a
/// fresh leaf at the absent position, keep the tree unchanged on an equal
/// key, and on the way back recompute each height and apply the balance
/// evaluator.
pub open spec fn spec_avl_insert(t: AvlTree, item: i64) -> AvlTree
    decreases t,
{
    match t {
        None => Some(Box::new(AvlNode { value: item, left: None, right: None, height: 1 })),
        Some(n) => {
            if item > n.value {
                let ns = spec_avl_insert(n.right, item);
                spec_balance(
                    Some(
                        Box::new(
                            AvlNode {
                                value: n.value,
                                left: n.left,
                                right: ns,
                                height: (1 + nat_max(avl_height(n.left), avl_height(ns))) as usize,
                            },
                        ),
                    ),
                )
            } else if item == n.value {
                t
            } else {
                let ns = spec_avl_insert(n.left, item);
                spec_balance(
                    Some(
                        Box::new(
                            AvlNode {
                                value: n.value,
                                left: ns,
                                right: n.right,
                                height: (1 + nat_max(avl_height(ns), avl_height(n.right))) as usize,
                            },
                        ),
                    ),
                )
            }
        },
    }
}

/// What removing the least key of a node's subtree yields: the key, and
/// the subtree rebuilt and rebalanced along the whole return path.
pub open spec fn spec_avl_delete_min(n: AvlNode) -> (i64, AvlTree)
    decreases n,
{
    match n.left {
        None => (n.value, n.right),
        Some(l) => {
            let p = spec_avl_delete_min(*l);
            (
                p.0,
                spec_balance(
                    Some(
                        Box::new(
                            AvlNode {
                                value: n.value,
                                left: p.1,
                                right: n.right,
                                height: (1 + nat_max(avl_height(p.1), avl_height(n.right))) as usize,
                            },
                        ),
                    ),
                ),
            )
        },
    }
}

/// Mirror image of `spec_avl_delete_min`.
pub open spec fn spec_avl_delete_max(n: AvlNode) -> (i64, AvlTree)
    decreases n,
{
    match n.right {
        None => (n.value, n.left),
        Some(r) => {
            let p = spec_avl_delete_max(*r);
            (
                p.0,
                spec_balance(
                    Some(
                        Box::new(
                            AvlNode {
                                value: n.value,
                                left: n.left,
                                right: p.1,
                                height: (1 + nat_max(avl_height(n.left), avl_height(p.1))) as usize,
                            },
                        ),
                    ),
                ),
            )
        },
    }
}

/// What deletion builds, node for node: descend by comparison; a leaf is
/// dropped, a one-child node is replaced by its child, and a two-child
/// node takes the minimum of its right subtree (the in-order successor)
/// as its key, keeping the left subtree unchanged below it; every rebuilt
/// node gets a fresh height and the balance evaluator.
pub open spec fn spec_avl_delete(t: AvlTree, item: i64) -> AvlTree
    decreases t,
{
    match t {
        None => None,
        Some(n) => {
            if item < n.value {
                let d = spec_avl_delete(n.left, item);
                spec_balance(
                    Some(
                        Box::new(
                            AvlNode {
                                value: n.value,
                                left: d,
                                right: n.right,
                                height: (1 + nat_max(avl_height(d), avl_height(n.right))) as usize,
                            },
                        ),
                    ),
                )
            } else if item > n.value {
                let d = spec_avl_delete(n.right, item);
                spec_balance(
                    Some(
                        Box::new(
                            AvlNode {
                                value: n.value,
                                left: n.left,
                                right: d,
                                height: (1 + nat_max(avl_height(n.left), avl_height(d))) as usize,
                            },
                        ),
                    ),
                )
            } else if n.left is None && n.right is None {
                None
            } else if n.right is None {
                n.left
            } else if n.left is None {
                n.right
            } else {
                let p = spec_avl_delete_min(*n.right.unwrap());
                spec_balance(
                    Some(
                        Box::new(
                            AvlNode {
                                value: p.0,
                                left: n.left,
                                right: p.1,
                                height: (1 + nat_max(avl_height(n.left), avl_height(p.1))) as usize,
                            },
                        ),
                    ),
                )
            }
        },
    }
}

/// Membership law: the in-order traversal holds exactly the keys.
pub proof fn lemma_avl_seq_keys(t: AvlTree)
    ensures
        forall|k: i64| avl_seq(t).contains(k) <==> avl_keys(t).contains(k),
    decreases t,
{
    match t {
        None => {},
        Some(n) => {
            lemma_avl_seq_keys(n.left);
            lemma_avl_seq_keys(n.right);
            let s = avl_seq(t);
            let l = avl_seq(n.left);
            let r = avl_seq(n.right);
            assert(s == l + seq![n.value] + r);
            assert forall|k: i64| s.contains(k) implies avl_keys(t).contains(k) by {
                let i = choose|i: int| 0 <= i < s.len() && s[i] == k;
                if i < l.len() {
                    assert(l[i] == k);
                    assert(l.contains(k));
                } else if i == l.len() {
                    assert(k == n.value);
                } else {
                    assert(r[i - l.len() - 1] == k);
                    assert(r.contains(k));
                }
            };
            assert forall|k: i64| avl_keys(t).contains(k) implies s.contains(k) by {
                if avl_keys(n.left).contains(k) {
                    assert(l.contains(k));
                    let i = choose|i: int| 0 <= i < l.len() && l[i] == k;
                    assert(s[i] == k);
                    assert(s.contains(k));
                } else if k == n.value {
                    assert(s[l.len() as int] == k);
                    assert(s.contains(k));
                } else {
                    assert(avl_keys(n.right).contains(k));
                    assert(r.contains(k));
                    let i = choose|i: int| 0 <= i < r.len() && r[i] == k;
                    assert(s[l.len() + 1 + i] == k);
                    assert(s.contains(k));
                }
            };
        },
    }
}

/// Membership law for the pre-order traversal.
pub proof fn lemma_avl_pre_seq_keys(t: AvlTree)
    ensures
        forall|k: i64| avl_pre_seq(t).contains(k) <==> avl_keys(t).contains(k),
    decreases t,
{
    match t {
        None => {},
        Some(n) => {
            lemma_avl_pre_seq_keys(n.left);
            lemma_avl_pre_seq_keys(n.right);
            let s = avl_pre_seq(t);
            let l = avl_pre_seq(n.left);
            let r = avl_pre_seq(n.right);
            assert(s == seq![n.value] + l + r);
            assert forall|k: i64| s.contains(k) implies avl_keys(t).contains(k) by {
                let i = choose|i: int| 0 <= i < s.len() && s[i] == k;
                if i == 0 {
                    assert(k == n.value);
                } else if i < 1 + l.len() {
                    assert(l[i - 1] == k);
                    assert(l.contains(k));
                } else {
                    assert(r[i - l.len() - 1] == k);
                    assert(r.contains(k));
                }
            };
            assert forall|k: i64| avl_keys(t).contains(k) implies s.contains(k) by {
                if avl_keys(n.left).contains(k) {
                    assert(l.contains(k));
                    let i = choose|i: int| 0 <= i < l.len() && l[i] == k;
                    assert(s[1 + i] == k);
                    assert(s.contains(k));
                } else if k == n.value {
                    assert(s[0] == k);
                    assert(s.contains(k));
                } else {
                    assert(avl_keys(n.right).contains(k));
                    assert(r.contains(k));
                    let i = choose|i: int| 0 <= i < r.len() && r[i] == k;
                    assert(s[l.len() + 1 + i] == k);
                    assert(s.contains(k));
                }
            };
        },
    }
}

/// The ordering law: under the search-order invariant the in-order
/// traversal is strictly ascending, so each key occurs at most once.
pub proof fn lemma_avl_sorted(t: AvlTree)
    requires
        avl_ordered(t),
    ensures
        strictly_sorted(avl_seq(t)),
    decreases t,
{
    match t {
        None => {},
        Some(n) => {
            lemma_avl_sorted(n.left);
            lemma_avl_sorted(n.right);
            lemma_avl_seq_keys(n.left);
            lemma_avl_seq_keys(n.right);
            let s = avl_seq(t);
            let l = avl_seq(n.left);
            let r = avl_seq(n.right);
            assert(s == l + seq![n.value] + r);
            assert forall|i: int, j: int| 0 <= i < j < s.len() implies s[i] < s[j] by {
                let llen = l.len() as int;
                if i < llen {
                    assert(s[i] == l[i]);
                    assert(l.contains(l[i]));
                    assert(avl_keys(n.left).contains(s[i]));
                    assert(s[i] < n.value);
                } else if i == llen {
                    assert(s[i] == n.value);
                } else {
                    assert(s[i] == r[i - llen - 1]);
                }
                if j < llen {
                    assert(s[j] == l[j]);
                } else if j == llen {
                    assert(s[j] == n.value);
                } else {
                    assert(s[j] == r[j - llen - 1]);
                    assert(r.contains(r[j - llen - 1]));
                    assert(avl_keys(n.right).contains(s[j]));
                    assert(s[j] > n.value);
                }
            };
        },
    }
}

/// The part of the ordered-set contract that only the balanced container
/// offers: height lookup, balance-factor evaluation, the rotation
/// primitives, and the balance evaluator itself.
pub trait AvlSearchTree: BinarySearchTree {
    /// The true height of the container.
    spec fn height_model(&self) -> nat;

    /// Whether every cached height is correct.
    spec fn caches_ok(&self) -> bool;

    /// The search-order invariant taken on its own.
    spec fn search_ordered(&self) -> bool;

    /// The balance factor of the root.
    spec fn bf_model(&self) -> int;

    /// What the balance evaluator expects of its input.
    spec fn pre_balance(&self) -> bool;

    /// When a left rotation is defined.
    spec fn can_rotate_left(&self) -> bool;

    /// When a right rotation is defined.
    spec fn can_rotate_right(&self) -> bool;

    fn height(&self) -> (r: usize)
        requires
            self.caches_ok(),
        ensures
            r == self.height_model(),
    ;

    fn balance_factor(&self) -> (r: isize)
        requires
            self.caches_ok(),
            -(isize::MAX as int) <= self.bf_model() <= isize::MAX as int,
        ensures
            r as int == self.bf_model(),
    ;

    fn balance(self) -> (r: Self)
        requires
            self.pre_balance(),
        ensures
            r.wf(),
            r.key_set() == self.key_set(),
            r.in_seq() == self.in_seq(),
            self.height_model() - 1 <= r.height_model() <= self.height_model(),
            -1 <= self.bf_model() <= 1 ==> r == self,
    ;

    fn rotate_left(self) -> (r: Self)
        requires
            self.can_rotate_left(),
        ensures
            r.key_set() == self.key_set(),
            r.in_seq() == self.in_seq(),
            r.caches_ok(),
            self.search_ordered() ==> r.search_ordered(),
    ;

    fn rotate_right(self) -> (r: Self)
        requires
            self.can_rotate_right(),
        ensures
            r.key_set() == self.key_set(),
            r.in_seq() == self.in_seq(),
            r.caches_ok(),
            self.search_ordered() ==> r.search_ordered(),
    ;
}

impl AvlNode {
    fn new(item: i64) -> (r: Self)
        ensures
            r.value == item,
            r.left is None,
            r.right is None,
            r.height == 1,
    {
        AvlNode { value: item, left: None, right: None, height: 1 }
    }

    /// Removes the least key of the subtree rooted at this node, rebuilding
    /// and rebalancing the return path, exactly as deletion does.
    pub fn delete_min(self) -> (r: (i64, AvlTree))
        requires
            avl_node_wf(self),
        ensures
            avl_node_keys(self).contains(r.0),
            forall|k: i64| avl_node_keys(self).contains(k) ==> r.0 <= k,
            avl_wf(r.1),
            avl_keys(r.1) == avl_node_keys(self).remove(r.0),
            avl_node_height(self) - 1 <= avl_height(r.1) <= avl_node_height(self),
            r == spec_avl_delete_min(self),
        decreases self,
    {
        let mut this = self;
        match this.left.take() {
            None => {
                proof {
                    assert(avl_keys(self.left) == Set::<i64>::empty());
                    assert forall|k: i64| avl_node_keys(self).contains(k) implies self.value
                        <= k by {
                        if avl_keys(self.right).contains(k) {
                            assert(k > self.value);
                        }
                    };
                    assert(!avl_keys(self.right).contains(self.value));
                    assert(avl_keys(this.right) =~= avl_node_keys(self).remove(self.value));
                    assert(avl_height(self.left) == 0);
                    assert(avl_node_height(self) == 1 + avl_height(self.right));
                }
                (this.value, this.right)
            },
            Some(left) => {
                proof {
                    assert(avl_wf(Some(left)));
                    assert(avl_node_wf(*left));
                    assert(avl_height(self.left) == avl_node_height(*left));
                }
                let (m, nl) = (*left).delete_min();
                this.left = nl;
                let ghost hl0 = avl_height(self.left);
                let ghost hr0 = avl_height(self.right);
                proof {
                    assert(self.height == avl_node_height(self));
                    assert(avl_node_height(self) == 1 + nat_max(hl0, hr0));
                    assert(avl_height(nl) <= hl0);
                    assert(hl0 <= self.height - 1 && hr0 <= self.height - 1);
                }
                let hl = this.left.height();
                let hr = this.right.height();
                this.height = 1 + if hl >= hr {
                    hl
                } else {
                    hr
                };
                let mid = Some(Box::new(this));
                proof {
                    assert(avl_node_keys(*left) == avl_keys(self.left));
                    assert(avl_keys(self.left).contains(m));
                    assert(m < self.value);
                    assert forall|k: i64| avl_keys(nl).contains(k) implies k < this.value by {
                        assert(avl_keys(self.left).contains(k));
                    };
                    assert(mid.unwrap().left == nl && mid.unwrap().right == self.right
                        && mid.unwrap().value == self.value);
                    assert(mid.unwrap().height == 1 + nat_max(avl_height(nl), hr0));
                    assert(avl_heights_ok(mid));
                    assert(avl_pre_balance(mid));
                    assert(avl_keys(mid) == avl_keys(nl).insert(this.value).union(
                        avl_keys(this.right),
                    ));
                    assert(!avl_keys(self.right).contains(m));
                    assert(avl_keys(mid) =~= avl_node_keys(self).remove(m));
                    assert forall|k: i64| avl_node_keys(self).contains(k) implies m <= k by {
                        if avl_keys(self.right).contains(k) {
                            assert(k > self.value);
                        }
                    };
                    assert(avl_node_height(self) - 1 <= avl_height(mid) <= avl_node_height(self));
                    if avl_bf(mid) < -1 {
                        assert(avl_height(nl) == hr0 - 2);
                        assert(hl0 == hr0 - 1);
                        assert(avl_height(mid) == avl_node_height(self));
                    }
                }
                let out = mid.balance();
                proof {
                    assert(avl_keys(out) == avl_keys(mid));
                    if -1 <= avl_bf(mid) <= 1 {
                        assert(out == mid);
                    }
                    assert(avl_node_height(self) - 1 <= avl_height(out) <= avl_node_height(self));
                    assert((m, nl) == spec_avl_delete_min(*left));
                    assert(mid.unwrap().height as int == 1 + nat_max(avl_height(nl), hr0));
                    assert((m, out) == spec_avl_delete_min(self));
                }
                (m, out)
            },
        }
    }

    /// Removes the greatest key of the subtree rooted at this node, the
    /// mirror image of `delete_min`.
    pub fn delete_max(self) -> (r: (i64, AvlTree))
        requires
            avl_node_wf(self),
        ensures
            avl_node_keys(self).contains(r.0),
            forall|k: i64| avl_node_keys(self).contains(k) ==> r.0 >= k,
            avl_wf(r.1),
            avl_keys(r.1) == avl_node_keys(self).remove(r.0),
            avl_node_height(self) - 1 <= avl_height(r.1) <= avl_node_height(self),
            r == spec_avl_delete_max(self),
        decreases self,
    {
        let mut this = self;
        match this.right.take() {
            None => {
                proof {
                    assert(avl_keys(self.right) == Set::<i64>::empty());
                    assert forall|k: i64| avl_node_keys(self).contains(k) implies self.value
                        >= k by {
                        if avl_keys(self.left).contains(k) {
                            assert(k < self.value);
                        }
                    };
                    assert(!avl_keys(self.left).contains(self.value));
                    assert(avl_keys(this.left) =~= avl_node_keys(self).remove(self.value));
                    assert(avl_height(self.right) == 0);
                    assert(avl_node_height(self) == 1 + avl_height(self.left));
                }
                (this.value, this.left)
            },
            Some(right) => {
                proof {
                    assert(avl_wf(Some(right)));
                    assert(avl_node_wf(*right));
                    assert(avl_height(self.right) == avl_node_height(*right));
                }
                let (m, nr) = (*right).delete_max();
                this.right = nr;
                let ghost hl0 = avl_height(self.left);
                let ghost hr0 = avl_height(self.right);
                proof {
                    assert(self.height == avl_node_height(self));
                    assert(avl_node_height(self) == 1 + nat_max(hl0, hr0));
                    assert(avl_height(nr) <= hr0);
                    assert(hl0 <= self.height - 1 && hr0 <= self.height - 1);
                }
                let hl = this.left.height();
                let hr = this.right.height();
                this.height = 1 + if hl >= hr {
                    hl
                } else {
                    hr
                };
                let mid = Some(Box::new(this));
                proof {
                    assert(avl_node_keys(*right) == avl_keys(self.right));
                    assert(avl_keys(self.right).contains(m));
                    assert(m > self.value);
                    assert forall|k: i64| avl_keys(nr).contains(k) implies k > this.value by {
                        assert(avl_keys(self.right).contains(k));
                    };
                    assert(mid.unwrap().left == self.left && mid.unwrap().right == nr
                        && mid.unwrap().value == self.value);
                    assert(mid.unwrap().height == 1 + nat_max(hl0, avl_height(nr)));
                    assert(avl_heights_ok(mid));
                    assert(avl_pre_balance(mid));
                    assert(avl_keys(mid) == avl_keys(this.left).insert(this.value).union(
                        avl_keys(nr),
                    ));
                    assert(!avl_keys(self.left).contains(m));
                    assert(avl_keys(mid) =~= avl_node_keys(self).remove(m));
                    assert forall|k: i64| avl_node_keys(self).contains(k) implies m >= k by {
                        if avl_keys(self.left).contains(k) {
                            assert(k < self.value);
                        }
                    };
                    assert(avl_node_height(self) - 1 <= avl_height(mid) <= avl_node_height(self));
                    if avl_bf(mid) > 1 {
                        assert(avl_height(nr) == hl0 - 2);
                        assert(hr0 == hl0 - 1);
                        assert(avl_height(mid) == avl_node_height(self));
                    }
                }
                let out = mid.balance();
                proof {
                    assert(avl_keys(out) == avl_keys(mid));
                    if -1 <= avl_bf(mid) <= 1 {
                        assert(out == mid);
                    }
                    assert(avl_node_height(self) - 1 <= avl_height(out) <= avl_node_height(self));
                    assert((m, nr) == spec_avl_delete_max(*right));
                    assert(mid.unwrap().height as int == 1 + nat_max(hl0, avl_height(nr)));
                    assert((m, out) == spec_avl_delete_max(self));
                }
                (m, out)
            },
        }
    }
}

/// Reassembles a node from a key and two rebuilt subtrees, recomputes
/// its height, and applies the balance evaluator, as every return path
/// of insertion and deletion does.
fn rebuild_balanced(value: i64, left: AvlTree, right: AvlTree) -> (r: AvlTree)
    requires
        avl_wf(left),
        avl_wf(right),
        forall|k: i64| avl_keys(left).contains(k) ==> k < value,
        forall|k: i64| avl_keys(right).contains(k) ==> k > value,
        -2 <= avl_height(left) - avl_height(right) <= 2,
        avl_height(left) < usize::MAX,
        avl_height(right) < usize::MAX,
    ensures
        avl_wf(r),
        avl_keys(r) == avl_keys(left).insert(value).union(avl_keys(right)),
        r == spec_balance(
            Some(
                Box::new(
                    AvlNode {
                        value: value,
                        left: left,
                        right: right,
                        height: (1 + nat_max(avl_height(left), avl_height(right))) as usize,
                    },
                ),
            ),
        ),
        nat_max(avl_height(left), avl_height(right)) <= avl_height(r) <= 1 + nat_max(
            avl_height(left),
            avl_height(right),
        ),
        -1 <= avl_height(left) - avl_height(right) <= 1 ==> (r == Some(
            Box::new(
                AvlNode {
                    value: value,
                    left: left,
                    right: right,
                    height: (1 + nat_max(avl_height(left), avl_height(right))) as usize,
                },
            ),
        ) && avl_height(r) == 1 + nat_max(avl_height(left), avl_height(right))),
{
    let hl = left.height();
    let hr = right.height();
    let h = 1 + if hl >= hr {
        hl
    } else {
        hr
    };
    let mid = Some(Box::new(AvlNode { value, left, right, height: h }));
    proof {
        assert(mid.unwrap().height == 1 + nat_max(avl_height(mid.unwrap().left), avl_height(
            mid.unwrap().right,
        )));
        assert(avl_heights_ok(mid));
        assert(avl_pre_balance(mid));
    }
    let r = mid.balance();
    proof {
        assert(avl_keys(mid) == avl_keys(mid.unwrap().left).insert(value).union(avl_keys(
            mid.unwrap().right,
        )));
        if -1 <= avl_bf(mid) <= 1 {
            assert(r == mid);
        }
    }
    r
}

impl BinarySearchTree for AvlTree {
    open spec fn wf(&self) -> bool {
        avl_wf(*self)
    }

    open spec fn key_set(&self) -> Set<i64> {
        avl_keys(*self)
    }

    open spec fn in_seq(&self) -> Seq<i64> {
        avl_seq(*self)
    }

    open spec fn pre_seq(&self) -> Seq<i64> {
        avl_pre_seq(*self)
    }

    open spec fn can_insert(&self) -> bool {
        avl_height(*self) + 1 < usize::MAX
    }

    fn new() -> (r: Self) {
        None
    }

    fn new_from_item(item: i64) -> (r: Self)
        ensures
            avl_height(r) == 1,
            r == spec_avl_insert(None, item),
    {
        let n = AvlNode::new(item);
        let b = Box::new(n);
        let r = Some(b);
        proof {
            assert(r == spec_avl_insert(None, item));
            assert(b.value == item && b.left is None && b.right is None && b.height == 1);
            assert(avl_keys(r) == avl_keys(b.left).insert(b.value).union(avl_keys(b.right)));
            assert(avl_keys(r) =~= Set::<i64>::empty().insert(item));
            assert(avl_seq(r) == avl_seq(b.left) + seq![b.value] + avl_seq(b.right));
            assert(avl_seq(r) =~= seq![item]);
            assert(avl_keys(b.left) == Set::<i64>::empty());
            assert(avl_keys(b.right) == Set::<i64>::empty());
            assert forall|k: i64| avl_keys(b.left).contains(k) implies k < b.value by {}
            assert forall|k: i64| avl_keys(b.right).contains(k) implies k > b.value by {}
            assert(avl_ordered(b.left) && avl_ordered(b.right));
            assert(avl_ordered(r));
            assert(avl_height(b.left) == 0 && avl_height(b.right) == 0);
            assert(avl_heights_ok(b.left) && avl_heights_ok(b.right));
            assert(b.height == 1 + nat_max(avl_height(b.left), avl_height(b.right)));
            assert(avl_heights_ok(r));
            assert(avl_balanced(b.left) && avl_balanced(b.right));
            assert(avl_balanced(r));
            assert(avl_height(r) == 1);
        }
        r
    }

    #[verifier::rlimit(100)]
    fn insert_inner(self, item: i64) -> (r: Self)
        ensures
            avl_height(self) <= avl_height(r) <= avl_height(self) + 1,
            r == spec_avl_insert(self, item),
        decreases self,
    {
        match self {
            None => {
                let r = Self::new_from_item(item);
                proof {
                    assert(avl_keys(self) == Set::<i64>::empty());
                    assert(avl_keys(r) =~= avl_keys(self).insert(item));
                    assert(avl_height(self) == 0);
                    assert(r == spec_avl_insert(self, item));
                }
                r
            },
            Some(mut t) => {
                let ghost t0 = t;
                let ghost h0 = avl_height(self);
                proof {
                    assert(avl_ordered(self) && avl_heights_ok(self) && avl_balanced(self));
                    assert(avl_keys(self) == avl_keys(t.left).insert(t.value).union(
                        avl_keys(t.right),
                    ));
                    assert(h0 == 1 + nat_max(avl_height(t.left), avl_height(t.right)));
                    assert(t.height == h0);
                    assert(avl_height(t.left) <= h0 - 1 && avl_height(t.right) <= h0 - 1);
                    assert(h0 + 1 < usize::MAX);
                }
                if item > t.value {
                    proof {
                        assert(!avl_keys(t.left).contains(item));
                    }
                    let sub = t.right.take();
                    proof {
                        assert(avl_height(sub) + 1 < usize::MAX);
                    }
                    let ns = sub.insert_inner(item);
                    t.right = ns;
                    let hl = t.left.height();
                    let hr = t.right.height();
                    t.height = 1 + if hl >= hr {
                        hl
                    } else {
                        hr
                    };
                    let mid = Some(t);
                    proof {
                        assert forall|k: i64| avl_keys(ns).contains(k) implies k > t0.value by {
                            if k != item {
                                assert(avl_keys(sub).contains(k));
                            }
                        };
                        assert(mid.unwrap().left == t0.left && mid.unwrap().right == ns
                            && mid.unwrap().value == t0.value);
                        assert(mid.unwrap().height == 1 + nat_max(
                            avl_height(t0.left),
                            avl_height(ns),
                        ));
                        assert(avl_heights_ok(mid));
                        assert(avl_pre_balance(mid));
                        assert(avl_keys(mid) == avl_keys(t0.left).insert(t0.value).union(
                            avl_keys(ns),
                        ));
                        assert(avl_keys(mid) =~= avl_keys(self).insert(item));
                        assert(h0 <= avl_height(mid) <= h0 + 1);
                        if avl_bf(mid) < -1 {
                            assert(avl_height(ns) == avl_height(t0.left) + 2);
                            assert(avl_height(ns) == avl_height(sub) + 1);
                            assert(avl_height(mid) == h0 + 1);
                        }
                    }
                    let r = mid.balance();
                    proof {
                        assert(avl_keys(r) == avl_keys(mid));
                        if -1 <= avl_bf(mid) <= 1 {
                            assert(r == mid);
                        }
                        assert(h0 <= avl_height(r) <= h0 + 1);
                        if avl_keys(self).contains(item) {
                            assert(avl_keys(sub).contains(item));
                            assert(ns == sub);
                            assert(mid == self);
                            assert(r == self);
                        }
                        assert(mid.unwrap().height as int == 1 + nat_max(
                            avl_height(t0.left),
                            avl_height(ns),
                        ));
                        assert(r == spec_avl_insert(self, item));
                    }
                    r
                } else if item == t.value {
                    let r = Some(t);
                    proof {
                        assert(avl_keys(self).contains(item));
                        assert(avl_keys(r) =~= avl_keys(self).insert(item));
                        assert(r == spec_avl_insert(self, item));
                    }
                    r
                } else {
                    proof {
                        assert(!avl_keys(t.right).contains(item));
                    }
                    let sub = t.left.take();
                    proof {
                        assert(avl_height(sub) + 1 < usize::MAX);
                    }
                    let ns = sub.insert_inner(item);
                    t.left = ns;
                    let hl = t.left.height();
                    let hr = t.right.height();
                    t.height = 1 + if hl >= hr {
                        hl
                    } else {
                        hr
                    };
                    let mid = Some(t);
                    proof {
                        assert forall|k: i64| avl_keys(ns).contains(k) implies k < t0.value by {
                            if k != item {
                                assert(avl_keys(sub).contains(k));
                            }
                        };
                        assert(mid.unwrap().left == ns && mid.unwrap().right == t0.right
                            && mid.unwrap().value == t0.value);
                        assert(mid.unwrap().height == 1 + nat_max(
                            avl_height(ns),
                            avl_height(t0.right),
                        ));
                        assert(avl_heights_ok(mid));
                        assert(avl_pre_balance(mid));
                        assert(avl_keys(mid) == avl_keys(ns).insert(t0.value).union(
                            avl_keys(t0.right),
                        ));
                        assert(avl_keys(mid) =~= avl_keys(self).insert(item));
                        assert(h0 <= avl_height(mid) <= h0 + 1);
                        if avl_bf(mid) > 1 {
                            assert(avl_height(ns) == avl_height(t0.right) + 2);
                            assert(avl_height(ns) == avl_height(sub) + 1);
                            assert(avl_height(mid) == h0 + 1);
                        }
                    }
                    let r = mid.balance();
                    proof {
                        assert(avl_keys(r) == avl_keys(mid));
                        if -1 <= avl_bf(mid) <= 1 {
                            assert(r == mid);
                        }
                        assert(h0 <= avl_height(r) <= h0 + 1);
                        if avl_keys(self).contains(item) {
                            assert(avl_keys(sub).contains(item));
                            assert(ns == sub);
                            assert(mid == self);
                            assert(r == self);
                        }
                        assert(mid.unwrap().height as int == 1 + nat_max(
                            avl_height(ns),
                            avl_height(t0.right),
                        ));
                        assert(r == spec_avl_insert(self, item));
                    }
                    r
                }
            },
        }
    }

    fn insert_item(&mut self, item: i64)
        ensures
            *final(self) == spec_avl_insert(*old(self), item),
            avl_height(*old(self)) <= avl_height(*final(self)) <= avl_height(*old(self)) + 1,
    {
        let t = self.take();
        *self = t.insert_inner(item);
    }

    #[verifier::rlimit(60)]
    fn delete_inner(&mut self, item: i64) -> (r: Self)
        ensures
            avl_height(*old(self)) - 1 <= avl_height(r) <= avl_height(*old(self)),
            r == spec_avl_delete(*old(self), item),
        decreases *old(self),
    {
        let t = self.take();
        match t {
            None => None,
            Some(mut node) => {
                let ghost n0 = node;
                let ghost h0 = avl_height(t);
                proof {
                    assert(avl_ordered(t) && avl_heights_ok(t) && avl_balanced(t));
                    assert(avl_keys(t) == avl_keys(node.left).insert(node.value).union(
                        avl_keys(node.right),
                    ));
                    assert(h0 == 1 + nat_max(avl_height(node.left), avl_height(node.right)));
                    assert(node.height == h0);
                    assert(avl_height(node.left) <= h0 - 1 && avl_height(node.right) <= h0 - 1);
                }
                if item < node.value {
                    proof {
                        assert(!avl_keys(node.right).contains(item));
                    }
                    let d = node.left.delete_inner(item);
                    let nr = node.right.take();
                    proof {
                        assert forall|k: i64| avl_keys(d).contains(k) implies k < n0.value by {
                            assert(avl_keys(n0.left).contains(k));
                        };
                    }
                    let r = rebuild_balanced(node.value, d, nr);
                    proof {
                        assert(avl_keys(r) =~= avl_keys(t).remove(item));
                        let hd = avl_height(d);
                        let hr0 = avl_height(n0.right);
                        let hl0 = avl_height(n0.left);
                        let hm = 1 + nat_max(hd, hr0);
                        assert(hm <= h0);
                        if hd - hr0 < -1 {
                            assert(hd == hr0 - 2);
                            assert(hm == h0);
                        } else if hd - hr0 > 1 {
                            assert(false);
                        } else {
                            assert(avl_height(r) == hm);
                            assert(hm >= h0 - 1);
                        }
                        assert(h0 - 1 <= avl_height(r) <= h0);
                        if !avl_keys(t).contains(item) {
                            assert(avl_keys(n0.left).contains(item) == false);
                            assert(d == n0.left);
                            assert(-1 <= hd - hr0 <= 1);
                            assert(r == t);
                        }
                        assert(r == spec_avl_delete(t, item));
                    }
                    r
                } else if item > node.value {
                    proof {
                        assert(!avl_keys(node.left).contains(item));
                    }
                    let d = node.right.delete_inner(item);
                    let nl = node.left.take();
                    proof {
                        assert forall|k: i64| avl_keys(d).contains(k) implies k > n0.value by {
                            assert(avl_keys(n0.right).contains(k));
                        };
                    }
                    let r = rebuild_balanced(node.value, nl, d);
                    proof {
                        assert(avl_keys(r) =~= avl_keys(t).remove(item));
                        let hd = avl_height(d);
                        let hr0 = avl_height(n0.right);
                        let hl0 = avl_height(n0.left);
                        let hm = 1 + nat_max(hl0, hd);
                        assert(hm <= h0);
                        if hl0 - hd > 1 {
                            assert(hd == hl0 - 2);
                            assert(hm == h0);
                        } else if hl0 - hd < -1 {
                            assert(false);
                        } else {
                            assert(avl_height(r) == hm);
                            assert(hm >= h0 - 1);
                        }
                        assert(h0 - 1 <= avl_height(r) <= h0);
                        if !avl_keys(t).contains(item) {
                            assert(avl_keys(n0.right).contains(item) == false);
                            assert(d == n0.right);
                            assert(-1 <= hl0 - hd <= 1);
                            assert(r == t);
                        }
                        assert(r == spec_avl_delete(t, item));
                    }
                    r
                } else {
                    proof {
                        assert(!avl_keys(node.left).contains(item));
                        assert(!avl_keys(node.right).contains(item));
                    }
                    let l = node.left.take();
                    let rt = node.right.take();
                    match (l, rt) {
                        (None, None) => {
                            proof {
                                assert(avl_keys(None::<Box<AvlNode>>) =~= avl_keys(t).remove(
                                    item,
                                ));
                                assert(h0 == 1);
                                assert(None::<Box<AvlNode>> == spec_avl_delete(t, item));
                            }
                            None
                        },
                        (Some(lb), None) => {
                            let r = Some(lb);
                            proof {
                                assert(avl_keys(r) =~= avl_keys(t).remove(item));
                                assert(avl_height(n0.right) == 0);
                                assert(avl_height(r) == h0 - 1);
                                assert(r == spec_avl_delete(t, item));
                            }
                            r
                        },
                        (None, Some(rb)) => {
                            let r = Some(rb);
                            proof {
                                assert(avl_keys(r) =~= avl_keys(t).remove(item));
                                assert(avl_height(n0.left) == 0);
                                assert(avl_height(r) == h0 - 1);
                                assert(r == spec_avl_delete(t, item));
                            }
                            r
                        },
                        (Some(lb), Some(rb)) => {
                            proof {
                                assert(avl_wf(Some(rb)));
                                assert(avl_node_wf(*rb));
                                assert(avl_node_keys(*rb) == avl_keys(Some(rb)));
                                assert(avl_node_height(*rb) == avl_height(n0.right));
                            }
                            let (m, rest) = (*rb).delete_min();
                            proof {
                                assert(avl_keys(Some(lb)).contains(m) == false);
                                assert(m > item);
                                assert forall|k: i64| avl_keys(Some(lb)).contains(k) implies k
                                    < m by {
                                    assert(k < item);
                                };
                                assert forall|k: i64| avl_keys(rest).contains(k) implies k > m by {
                                    assert(avl_keys(Some(rb)).contains(k));
                                    assert(k >= m);
                                    assert(k != m);
                                };
                            }
                            let r = rebuild_balanced(m, Some(lb), rest);
                            proof {
                                assert(avl_keys(r) =~= avl_keys(t).remove(item));
                                let hrest = avl_height(rest);
                                let hr0 = avl_height(n0.right);
                                let hl0 = avl_height(n0.left);
                                let hm = 1 + nat_max(hl0, hrest);
                                assert(hm <= h0);
                                if hl0 - hrest > 1 {
                                    assert(hrest == hl0 - 2);
                                    assert(hrest == hr0 - 1);
                                    assert(hm == h0);
                                } else if hl0 - hrest < -1 {
                                    assert(false);
                                } else {
                                    assert(avl_height(r) == hm);
                                    assert(hm >= h0 - 1);
                                }
                                assert(h0 - 1 <= avl_height(r) <= h0);
                                assert((m, rest) == spec_avl_delete_min(*rb));
                                assert(r == spec_avl_delete(t, item));
                            }
                            r
                        },
                    }
                }
            },
        }
    }

    fn delete(&mut self, item: i64)
        ensures
            *final(self) == spec_avl_delete(*old(self), item),
            avl_height(*old(self)) - 1 <= avl_height(*final(self)) <= avl_height(*old(self)),
    {
        let mut t = self.take();
        let r = t.delete_inner(item);
        *self = r;
    }

    fn contained(&self, item: i64) -> (r: bool)
        decreases self,
    {
        match self {
            None => false,
            Some(node) => {
                proof {
                    assert(avl_keys(*self) == avl_keys(node.left).insert(node.value).union(
                        avl_keys(node.right),
                    ));
                }
                if item < node.value {
                    proof {
                        assert(!avl_keys(node.right).contains(item));
                        assert(avl_keys(*self).contains(item) == avl_keys(node.left).contains(
                            item,
                        ));
                    }
                    node.left.contained(item)
                } else if item > node.value {
                    proof {
                        assert(!avl_keys(node.left).contains(item));
                        assert(avl_keys(*self).contains(item) == avl_keys(node.right).contains(
                            item,
                        ));
                    }
                    node.right.contained(item)
                } else {
                    true
                }
            },
        }
    }

    fn in_order(&self) -> (r: Vec<i64>)
        decreases self,
    {
        proof {
            lemma_avl_sorted(*self);
            lemma_avl_seq_keys(*self);
        }
        match self {
            None => Vec::new(),
            Some(node) => {
                let mut acc = node.left.in_order();
                acc.push(node.value);
                let mut tail = node.right.in_order();
                acc.append(&mut tail);
                proof {
                    assert(acc@ =~= avl_seq(*self));
                }
                acc
            },
        }
    }

    fn pre_order(&self) -> (r: Vec<i64>)
        decreases self,
    {
        proof {
            lemma_avl_pre_seq_keys(*self);
        }
        match self {
            None => Vec::new(),
            Some(node) => {
                let mut acc = Vec::new();
                acc.push(node.value);
                let mut mid = node.left.pre_order();
                acc.append(&mut mid);
                let mut tail = node.right.pre_order();
                acc.append(&mut tail);
                proof {
                    assert(acc@ =~= avl_pre_seq(*self));
                }
                acc
            },
        }
    }
}

impl AvlSearchTree for AvlTree {
    open spec fn height_model(&self) -> nat {
        avl_height(*self)
    }

    open spec fn caches_ok(&self) -> bool {
        avl_heights_ok(*self)
    }

    open spec fn search_ordered(&self) -> bool {
        avl_ordered(*self)
    }

    open spec fn bf_model(&self) -> int {
        avl_bf(*self)
    }

    open spec fn pre_balance(&self) -> bool {
        avl_pre_balance(*self)
    }

    open spec fn can_rotate_left(&self) -> bool {
        avl_can_rotate_left(*self)
    }

    open spec fn can_rotate_right(&self) -> bool {
        avl_can_rotate_right(*self)
    }

    fn height(&self) -> (r: usize) {
        match self {
            None => 0,
            Some(n) => n.height,
        }
    }

    fn balance_factor(&self) -> (r: isize) {
        match self {
            None => 0,
            Some(n) => {
                let hl = n.left.height();
                let hr = n.right.height();
                if hl >= hr {
                    (hl - hr) as isize
                } else {
                    let d = hr - hl;
                    -(d as isize)
                }
            },
        }
    }

    fn balance(self) -> (r: Self)
        ensures
            avl_heights_ok(r),
            r == spec_balance(self),
    {
        proof {
            if self is Some {
                assert(avl_height(self) == 1 + nat_max(
                    avl_height(self.unwrap().left),
                    avl_height(self.unwrap().right),
                ));
                assert(self.unwrap().height == avl_height(self));
            }
        }
        let bf = self.balance_factor();
        if bf > 1 {
            let go_double = match &self {
                Some(root) => root.left.balance_factor() < 0,
                None => false,
            };
            proof {
                assert(self is Some);
                let l = self.unwrap().left;
                let rr = self.unwrap().right;
                assert(avl_height(l) - avl_height(rr) == 2);
                assert(avl_height(l) >= 2);
                assert(l is Some);
                assert(avl_height(l) == 1 + nat_max(
                    avl_height(l.unwrap().left),
                    avl_height(l.unwrap().right),
                ));
                assert(avl_height(l) <= usize::MAX - 1);
            }
            if go_double {
                match self {
                    Some(mut root) => {
                        proof {
                            let l = self.unwrap().left;
                            assert(avl_bf(l) == -1);
                            assert(avl_height(l.unwrap().right) >= 1);
                            assert(l.unwrap().right is Some);
                            assert(avl_heights_ok(l.unwrap().left) && avl_heights_ok(
                                l.unwrap().right,
                            ));
                            assert(avl_height(l.unwrap().left) < usize::MAX - 1);
                            assert(avl_height(l.unwrap().right) == 1 + nat_max(
                                avl_height(l.unwrap().right.unwrap().left),
                                avl_height(l.unwrap().right.unwrap().right),
                            ));
                            assert(avl_height(l.unwrap().right.unwrap().left) < usize::MAX - 1);
                            assert(avl_can_rotate_left(l));
                        }
                        let lsub = root.left.take();
                        let rl = lsub.rotate_left();
                        root.left = rl;
                        let mid = Some(root);
                        proof {
                            let l = self.unwrap().left;
                            let rt = self.unwrap().right;
                            let x = self.unwrap().value;
                            let p = l.unwrap().left;
                            let y = l.unwrap().value;
                            let q = l.unwrap().right;
                            let qa = q.unwrap().left;
                            let qb = q.unwrap().right;
                            let hp = avl_height(p);
                            // heights of the pieces
                            assert(avl_height(q) == hp + 1);
                            assert(avl_height(q) == 1 + nat_max(avl_height(qa), avl_height(qb)));
                            assert(nat_max(avl_height(qa), avl_height(qb)) == hp);
                            assert(avl_balanced(l) && avl_balanced(q));
                            assert(-1 <= avl_height(qa) - avl_height(qb) <= 1);
                            assert(avl_height(rt) == hp);
                            // the inner rotation's shape
                            assert(rl is Some);
                            assert(rl.unwrap().value == q.unwrap().value);
                            assert(rl.unwrap().right == qb);
                            assert(rl.unwrap().left is Some);
                            assert(rl.unwrap().left.unwrap().value == y);
                            assert(rl.unwrap().left.unwrap().left == p);
                            assert(rl.unwrap().left.unwrap().right == qa);
                            assert(mid.unwrap().left == rl && mid.unwrap().right == rt
                                && mid.unwrap().value == x);
                            assert(avl_heights_ok(rl));
                            assert(avl_height(rt) < usize::MAX - 1);
                            assert(avl_height(rl.unwrap().right) < usize::MAX - 1);
                            assert(avl_can_rotate_right(mid));
                        }
                        let r = mid.rotate_right();
                        proof {
                            let l = self.unwrap().left;
                            let rt = self.unwrap().right;
                            let x = self.unwrap().value;
                            let p = l.unwrap().left;
                            let y = l.unwrap().value;
                            let q = l.unwrap().right;
                            let qa = q.unwrap().left;
                            let qb = q.unwrap().right;
                            let hp = avl_height(p);
                            // shape of the final tree
                            assert(r is Some);
                            assert(r.unwrap().value == q.unwrap().value);
                            assert(r.unwrap().left == rl.unwrap().left);
                            assert(r.unwrap().right is Some);
                            assert(r.unwrap().right.unwrap().value == x);
                            assert(r.unwrap().right.unwrap().left == qb);
                            assert(r.unwrap().right.unwrap().right == rt);
                            assert(avl_heights_ok(r));
                            // keys and sequences are preserved
                            assert(avl_keys(mid) == avl_keys(rl).insert(x).union(avl_keys(rt)));
                            assert(avl_keys(self) == avl_keys(l).insert(x).union(avl_keys(rt)));
                            assert(avl_keys(mid) =~= avl_keys(self));
                            assert(avl_seq(mid) == avl_seq(rl) + seq![x] + avl_seq(rt));
                            assert(avl_seq(self) == avl_seq(l) + seq![x] + avl_seq(rt));
                            assert(avl_seq(mid) =~= avl_seq(self));
                            assert(avl_keys(r) == avl_keys(mid));
                            assert(avl_seq(r) == avl_seq(mid));
                            // the search order carries over
                            assert(avl_ordered(self));
                            assert forall|k: i64| avl_keys(rl).contains(k) implies k < x by {
                                assert(avl_keys(l).contains(k));
                            };
                            assert(avl_ordered(mid));
                            assert(avl_ordered(r));
                            // heights of the two new children
                            assert(avl_height(r.unwrap().left) == 1 + nat_max(
                                hp,
                                avl_height(qa),
                            ));
                            assert(avl_height(r.unwrap().left) == hp + 1);
                            assert(avl_height(r.unwrap().right) == 1 + nat_max(
                                avl_height(qb),
                                hp,
                            ));
                            assert(avl_height(r.unwrap().right) == hp + 1);
                            // balance of every node of the result
                            assert(avl_balanced(p) && avl_balanced(qa) && avl_balanced(qb)
                                && avl_balanced(rt));
                            assert(avl_balanced(r.unwrap().left));
                            assert(avl_balanced(r.unwrap().right));
                            assert(avl_balanced(r));
                            assert(avl_wf(r));
                            // the height shrinks by exactly one here
                            assert(avl_height(r) == hp + 2);
                            assert(avl_height(self) == hp + 3);
                            assert(mid.unwrap().height == self.unwrap().height);
                            assert(rl == spec_rotate_left(l));
                            reveal(spec_balance);
                            assert(r == spec_balance(self));
                        }
                        r
                    },
                    None => {
                        proof {
                            assert(false);
                        }
                        None
                    },
                }
            } else {
                proof {
                    let l = self.unwrap().left;
                    let rt = self.unwrap().right;
                    assert(0 <= avl_bf(l) <= 1);
                    assert(avl_heights_ok(l) && avl_heights_ok(rt));
                    assert(avl_height(rt) < usize::MAX - 1);
                    assert(avl_height(l.unwrap().right) <= avl_height(l) - 1);
                    assert(avl_height(l.unwrap().right) < usize::MAX - 1);
                    assert(avl_can_rotate_right(self));
                }
                let r = self.rotate_right();
                proof {
                    let l = self.unwrap().left;
                    let rt = self.unwrap().right;
                    let x = self.unwrap().value;
                    let p = l.unwrap().left;
                    let q = l.unwrap().right;
                    let hp = avl_height(p);
                    let hq = avl_height(q);
                    assert(avl_height(l) == 1 + nat_max(hp, hq));
                    assert(hp - hq == avl_bf(l));
                    assert(avl_height(l) == hp + 1);
                    assert(avl_height(rt) == hp - 1);
                    assert(r is Some);
                    assert(r.unwrap().left == p);
                    assert(r.unwrap().right is Some);
                    assert(r.unwrap().right.unwrap().value == x);
                    assert(r.unwrap().right.unwrap().left == q);
                    assert(r.unwrap().right.unwrap().right == rt);
                    assert(avl_heights_ok(r));
                    assert(avl_ordered(self));
                    assert(avl_ordered(r));
                    assert(avl_height(r.unwrap().right) == 1 + nat_max(hq, (hp - 1) as nat));
                    assert(avl_balanced(p) && avl_balanced(q) && avl_balanced(rt));
                    assert(avl_balanced(r.unwrap().right));
                    assert(avl_balanced(r));
                    assert(avl_wf(r));
                    assert(avl_height(self) == hp + 2);
                    assert(hq == hp ==> avl_height(r) == hp + 2);
                    assert(hq == hp - 1 ==> avl_height(r) == hp + 1);
                    assert(avl_height(self) - 1 <= avl_height(r) <= avl_height(self));
                    reveal(spec_balance);
                    assert(r == spec_balance(self));
                }
                r
            }
        } else if bf < -1 {
            let go_double = match &self {
                Some(root) => root.right.balance_factor() > 0,
                None => false,
            };
            proof {
                assert(self is Some);
                let l = self.unwrap().left;
                let rr = self.unwrap().right;
                assert(avl_height(l) - avl_height(rr) == -2);
                assert(avl_height(rr) >= 2);
                assert(rr is Some);
                assert(avl_height(rr) == 1 + nat_max(
                    avl_height(rr.unwrap().left),
                    avl_height(rr.unwrap().right),
                ));
                assert(avl_height(rr) <= usize::MAX - 1);
            }
            if go_double {
                match self {
                    Some(mut root) => {
                        proof {
                            let rr = self.unwrap().right;
                            assert(avl_bf(rr) == 1);
                            assert(avl_height(rr.unwrap().left) >= 1);
                            assert(rr.unwrap().left is Some);
                            assert(avl_heights_ok(rr.unwrap().left) && avl_heights_ok(
                                rr.unwrap().right,
                            ));
                            assert(avl_height(rr.unwrap().right) < usize::MAX - 1);
                            assert(avl_height(rr.unwrap().left) == 1 + nat_max(
                                avl_height(rr.unwrap().left.unwrap().left),
                                avl_height(rr.unwrap().left.unwrap().right),
                            ));
                            assert(avl_height(rr.unwrap().left.unwrap().right) < usize::MAX - 1);
                            assert(avl_can_rotate_right(rr));
                        }
                        let rsub = root.right.take();
                        let rrot = rsub.rotate_right();
                        root.right = rrot;
                        let mid = Some(root);
                        proof {
                            let lt = self.unwrap().left;
                            let rr = self.unwrap().right;
                            let x = self.unwrap().value;
                            let q = rr.unwrap().left;
                            let y = rr.unwrap().value;
                            let c = rr.unwrap().right;
                            let qa = q.unwrap().left;
                            let qb = q.unwrap().right;
                            let hc = avl_height(c);
                            assert(avl_height(q) == hc + 1);
                            assert(avl_height(q) == 1 + nat_max(avl_height(qa), avl_height(qb)));
                            assert(nat_max(avl_height(qa), avl_height(qb)) == hc);
                            assert(avl_balanced(rr) && avl_balanced(q));
                            assert(-1 <= avl_height(qa) - avl_height(qb) <= 1);
                            assert(avl_height(lt) == hc);
                            assert(rrot is Some);
                            assert(rrot.unwrap().value == q.unwrap().value);
                            assert(rrot.unwrap().left == qa);
                            assert(rrot.unwrap().right is Some);
                            assert(rrot.unwrap().right.unwrap().value == y);
                            assert(rrot.unwrap().right.unwrap().left == qb);
                            assert(rrot.unwrap().right.unwrap().right == c);
                            assert(mid.unwrap().right == rrot && mid.unwrap().left == lt
                                && mid.unwrap().value == x);
                            assert(avl_heights_ok(rrot));
                            assert(avl_height(lt) < usize::MAX - 1);
                            assert(avl_height(rrot.unwrap().left) < usize::MAX - 1);
                            assert(avl_can_rotate_left(mid));
                        }
                        let r = mid.rotate_left();
                        proof {
                            let lt = self.unwrap().left;
                            let rr = self.unwrap().right;
                            let x = self.unwrap().value;
                            let q = rr.unwrap().left;
                            let y = rr.unwrap().value;
                            let c = rr.unwrap().right;
                            let qa = q.unwrap().left;
                            let qb = q.unwrap().right;
                            let hc = avl_height(c);
                            assert(r is Some);
                            assert(r.unwrap().value == q.unwrap().value);
                            assert(r.unwrap().right == rrot.unwrap().right);
                            assert(r.unwrap().left is Some);
                            assert(r.unwrap().left.unwrap().value == x);
                            assert(r.unwrap().left.unwrap().left == lt);
                            assert(r.unwrap().left.unwrap().right == qa);
                            assert(avl_heights_ok(r));
                            assert(avl_keys(mid) == avl_keys(lt).insert(x).union(avl_keys(rrot)));
                            assert(avl_keys(self) == avl_keys(lt).insert(x).union(avl_keys(rr)));
                            assert(avl_keys(mid) =~= avl_keys(self));
                            assert(avl_seq(mid) == avl_seq(lt) + seq![x] + avl_seq(rrot));
                            assert(avl_seq(self) == avl_seq(lt) + seq![x] + avl_seq(rr));
                            assert(avl_seq(mid) =~= avl_seq(self));
                            assert(avl_keys(r) == avl_keys(mid));
                            assert(avl_seq(r) == avl_seq(mid));
                            assert(avl_ordered(self));
                            assert forall|k: i64| avl_keys(rrot).contains(k) implies k > x by {
                                assert(avl_keys(rr).contains(k));
                            };
                            assert(avl_ordered(mid));
                            assert(avl_ordered(r));
                            assert(avl_height(r.unwrap().left) == 1 + nat_max(
                                hc,
                                avl_height(qa),
                            ));
                            assert(avl_height(r.unwrap().left) == hc + 1);
                            assert(avl_height(r.unwrap().right) == 1 + nat_max(
                                avl_height(qb),
                                hc,
                            ));
                            assert(avl_height(r.unwrap().right) == hc + 1);
                            assert(avl_balanced(lt) && avl_balanced(qa) && avl_balanced(qb)
                                && avl_balanced(c));
                            assert(avl_balanced(r.unwrap().left));
                            assert(avl_balanced(r.unwrap().right));
                            assert(avl_balanced(r));
                            assert(avl_wf(r));
                            assert(avl_height(r) == hc + 2);
                            assert(avl_height(self) == hc + 3);
                            assert(mid.unwrap().height == self.unwrap().height);
                            assert(rrot == spec_rotate_right(rr));
                            reveal(spec_balance);
                            assert(r == spec_balance(self));
                        }
                        r
                    },
                    None => {
                        proof {
                            assert(false);
                        }
                        None
                    },
                }
            } else {
                proof {
                    let lt = self.unwrap().left;
                    let rr = self.unwrap().right;
                    assert(-1 <= avl_bf(rr) <= 0);
                    assert(avl_heights_ok(lt) && avl_heights_ok(rr));
                    assert(avl_height(lt) < usize::MAX - 1);
                    assert(avl_height(rr.unwrap().left) <= avl_height(rr) - 1);
                    assert(avl_height(rr.unwrap().left) < usize::MAX - 1);
                    assert(avl_can_rotate_left(self));
                }
                let r = self.rotate_left();
                proof {
                    let lt = self.unwrap().left;
                    let rr = self.unwrap().right;
                    let x = self.unwrap().value;
                    let q = rr.unwrap().left;
                    let c = rr.unwrap().right;
                    let hq = avl_height(q);
                    let hc = avl_height(c);
                    assert(avl_height(rr) == 1 + nat_max(hq, hc));
                    assert(hq - hc == avl_bf(rr));
                    assert(avl_height(rr) == hc + 1);
                    assert(avl_height(lt) == hc - 1);
                    assert(r is Some);
                    assert(r.unwrap().right == c);
                    assert(r.unwrap().left is Some);
                    assert(r.unwrap().left.unwrap().value == x);
                    assert(r.unwrap().left.unwrap().left == lt);
                    assert(r.unwrap().left.unwrap().right == q);
                    assert(avl_heights_ok(r));
                    assert(avl_ordered(self));
                    assert(avl_ordered(r));
                    assert(avl_height(r.unwrap().left) == 1 + nat_max((hc - 1) as nat, hq));
                    assert(avl_balanced(lt) && avl_balanced(q) && avl_balanced(c));
                    assert(avl_balanced(r.unwrap().left));
                    assert(avl_balanced(r));
                    assert(avl_wf(r));
                    assert(avl_height(self) == hc + 2);
                    assert(hq == hc ==> avl_height(r) == hc + 2);
                    assert(hq == hc - 1 ==> avl_height(r) == hc + 1);
                    assert(avl_height(self) - 1 <= avl_height(r) <= avl_height(self));
                    reveal(spec_balance);
                    assert(r == spec_balance(self));
                }
                r
            }
        } else {
            proof {
                if self is Some {
                    assert(avl_balanced(self.unwrap().left) && avl_balanced(self.unwrap().right));
                    assert(avl_balanced(self));
                    assert(avl_ordered(self));
                    assert(avl_heights_ok(self));
                }
                reveal(spec_balance);
                assert(spec_balance(self) == self);
            }
            self
        }
    }

    fn rotate_left(self) -> (r: Self)
        ensures
            r is Some,
            (r.unwrap().value == self.unwrap().right.unwrap().value),
            r.unwrap().right == self.unwrap().right.unwrap().right,
            r.unwrap().left is Some,
            (r.unwrap().left.unwrap().value == self.unwrap().value),
            r.unwrap().left.unwrap().left == self.unwrap().left,
            r.unwrap().left.unwrap().right == self.unwrap().right.unwrap().left,
            avl_heights_ok(r),
            r == spec_rotate_left(self),
    {
        let mut root = self.unwrap();
        let mut new_root = root.right.take().unwrap();
        root.right = new_root.left.take();
        proof {
            let a = self.unwrap().left;
            let bb = self.unwrap().right.unwrap().left;
            let c = self.unwrap().right.unwrap().right;
            assert(avl_heights_ok(self.unwrap().right));
            assert(self.unwrap().right.unwrap().height == 1 + nat_max(
                avl_height(bb),
                avl_height(c),
            ));
            assert(avl_height(c) <= usize::MAX - 1);
            assert(avl_heights_ok(a) && avl_heights_ok(bb) && avl_heights_ok(c));
            assert(root.left == a && root.right == bb);
            assert(new_root.right == c);
        }
        let hl = root.left.height();
        let hr = root.right.height();
        root.height = 1 + if hl >= hr {
            hl
        } else {
            hr
        };
        let inner = Some(root);
        proof {
            assert(inner.unwrap().height == 1 + nat_max(
                avl_height(inner.unwrap().left),
                avl_height(inner.unwrap().right),
            ));
            assert(avl_heights_ok(inner));
        }
        let hl2 = inner.height();
        let hr2 = new_root.right.height();
        new_root.height = 1 + if hl2 >= hr2 {
            hl2
        } else {
            hr2
        };
        new_root.left = inner;
        let r = Some(new_root);
        proof {
            let a = self.unwrap().left;
            let bb = self.unwrap().right.unwrap().left;
            let c = self.unwrap().right.unwrap().right;
            let x = self.unwrap().value;
            let y = self.unwrap().right.unwrap().value;
            assert(r.unwrap().left == inner && r.unwrap().right == c && r.unwrap().value == y);
            assert(inner.unwrap().left == a && inner.unwrap().right == bb
                && inner.unwrap().value == x);
            assert(r.unwrap().height == 1 + nat_max(avl_height(inner), avl_height(c)));
            assert(avl_heights_ok(r));
            assert(avl_height(inner) == 1 + nat_max(avl_height(a), avl_height(bb)));
            assert(r == spec_rotate_left(self));
            assert(avl_keys(inner) == avl_keys(a).insert(x).union(avl_keys(bb)));
            assert(avl_keys(r) == avl_keys(inner).insert(y).union(avl_keys(c)));
            assert(avl_keys(self.unwrap().right) == avl_keys(bb).insert(y).union(avl_keys(c)));
            assert(avl_keys(self) == avl_keys(a).insert(x).union(
                avl_keys(self.unwrap().right),
            ));
            assert(avl_keys(r) =~= avl_keys(self));
            assert(avl_seq(inner) == avl_seq(a) + seq![x] + avl_seq(bb));
            assert(avl_seq(r) == avl_seq(inner) + seq![y] + avl_seq(c));
            assert(avl_seq(self.unwrap().right) == avl_seq(bb) + seq![y] + avl_seq(c));
            assert(avl_seq(self) == avl_seq(a) + seq![x] + avl_seq(self.unwrap().right));
            assert(avl_seq(r) =~= avl_seq(self));
            if avl_ordered(self) {
                assert(avl_ordered(self.unwrap().right));
                assert(avl_keys(self.unwrap().right).contains(y));
                assert(x < y);
                assert forall|k: i64| avl_keys(bb).contains(k) implies k > x by {
                    assert(avl_keys(self.unwrap().right).contains(k));
                };
                assert forall|k: i64| avl_keys(inner).contains(k) implies k < y by {
                    if avl_keys(a).contains(k) {
                        assert(k < x);
                    } else if k != x {
                        assert(avl_keys(bb).contains(k));
                        assert(avl_keys(self.unwrap().right).contains(k));
                    }
                };
                assert(avl_ordered(inner));
                assert forall|k: i64| avl_keys(c).contains(k) implies k > y by {
                    assert(avl_keys(self.unwrap().right).contains(k));
                };
                assert(avl_ordered(r));
            }
        }
        r
    }

    fn rotate_right(self) -> (r: Self)
        ensures
            r is Some,
            (r.unwrap().value == self.unwrap().left.unwrap().value),
            r.unwrap().left == self.unwrap().left.unwrap().left,
            r.unwrap().right is Some,
            (r.unwrap().right.unwrap().value == self.unwrap().value),
            r.unwrap().right.unwrap().right == self.unwrap().right,
            r.unwrap().right.unwrap().left == self.unwrap().left.unwrap().right,
            avl_heights_ok(r),
            r == spec_rotate_right(self),
    {
        let mut root = self.unwrap();
        let mut new_root = root.left.take().unwrap();
        root.left = new_root.right.take();
        proof {
            let a = self.unwrap().left.unwrap().left;
            let bb = self.unwrap().left.unwrap().right;
            let c = self.unwrap().right;
            assert(avl_heights_ok(self.unwrap().left));
            assert(self.unwrap().left.unwrap().height == 1 + nat_max(
                avl_height(a),
                avl_height(bb),
            ));
            assert(avl_height(a) <= usize::MAX - 1);
            assert(avl_heights_ok(a) && avl_heights_ok(bb) && avl_heights_ok(c));
            assert(root.left == bb && root.right == c);
            assert(new_root.left == a);
        }
        let hl = root.left.height();
        let hr = root.right.height();
        root.height = 1 + if hl >= hr {
            hl
        } else {
            hr
        };
        let inner = Some(root);
        proof {
            assert(inner.unwrap().height == 1 + nat_max(
                avl_height(inner.unwrap().left),
                avl_height(inner.unwrap().right),
            ));
            assert(avl_heights_ok(inner));
        }
        let hl2 = new_root.left.height();
        let hr2 = inner.height();
        new_root.height = 1 + if hl2 >= hr2 {
            hl2
        } else {
            hr2
        };
        new_root.right = inner;
        let r = Some(new_root);
        proof {
            let a = self.unwrap().left.unwrap().left;
            let bb = self.unwrap().left.unwrap().right;
            let c = self.unwrap().right;
            let x = self.unwrap().value;
            let y = self.unwrap().left.unwrap().value;
            assert(r.unwrap().right == inner && r.unwrap().left == a && r.unwrap().value == y);
            assert(inner.unwrap().left == bb && inner.unwrap().right == c
                && inner.unwrap().value == x);
            assert(r.unwrap().height == 1 + nat_max(avl_height(a), avl_height(inner)));
            assert(avl_heights_ok(r));
            assert(avl_height(inner) == 1 + nat_max(avl_height(bb), avl_height(c)));
            assert(r == spec_rotate_right(self));
            assert(avl_keys(inner) == avl_keys(bb).insert(x).union(avl_keys(c)));
            assert(avl_keys(r) == avl_keys(a).insert(y).union(avl_keys(inner)));
            assert(avl_keys(self.unwrap().left) == avl_keys(a).insert(y).union(avl_keys(bb)));
            assert(avl_keys(self) == avl_keys(self.unwrap().left).insert(x).union(avl_keys(c)));
            assert(avl_keys(r) =~= avl_keys(self));
            assert(avl_seq(inner) == avl_seq(bb) + seq![x] + avl_seq(c));
            assert(avl_seq(r) == avl_seq(a) + seq![y] + avl_seq(inner));
            assert(avl_seq(self.unwrap().left) == avl_seq(a) + seq![y] + avl_seq(bb));
            assert(avl_seq(self) == avl_seq(self.unwrap().left) + seq![x] + avl_seq(c));
            assert(avl_seq(r) =~= avl_seq(self));
            if avl_ordered(self) {
                assert(avl_ordered(self.unwrap().left));
                assert(avl_keys(self.unwrap().left).contains(y));
                assert(y < x);
                assert forall|k: i64| avl_keys(bb).contains(k) implies k < x by {
                    assert(avl_keys(self.unwrap().left).contains(k));
                };
                assert forall|k: i64| avl_keys(inner).contains(k) implies k > y by {
                    if avl_keys(c).contains(k) {
                        assert(k > x);
                    } else if k != x {
                        assert(avl_keys(bb).contains(k));
                        assert(avl_keys(self.unwrap().left).contains(k));
                    }
                };
                assert(avl_ordered(inner));
                assert forall|k: i64| avl_keys(a).contains(k) implies k < y by {
                    assert(avl_keys(self.unwrap().left).contains(k));
                };
                assert(avl_ordered(r));
            }
        }
        r
    }
}

} // verus!
