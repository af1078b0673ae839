//! An array-backed binary max-heap priority queue over `i64` items.

use vstd::prelude::*;
use vstd::multiset::Multiset;

verus! {

broadcast use vstd::seq_lib::group_to_multiset_ensures;

/// The heap shape on a sequence: every element is at most its parent.
pub open spec fn heap_from(s: Seq<i64>, b: int) -> bool {
    forall|i: int| 1 <= i < s.len() && (i - 1) / 2 >= b ==> s[(i - 1) / 2] >= #[trigger] s[i]
}

/// The full heap invariant.
pub open spec fn is_heap(s: Seq<i64>) -> bool {
    heap_from(s, 0)
}

/// A sequence sorted in descending order.
pub open spec fn sorted_desc(s: Seq<i64>) -> bool {
    forall|i: int, j: int| 0 <= i < j < s.len() ==> s[i] >= s[j]
}

/// The largest among a position's value and its (up to two) child values.
pub open spec fn top_of(s: Seq<i64>, i: int) -> i64 {
    let l = 2 * i + 1;
    let r = 2 * i + 2;
    let m = if l < s.len() && s[l] > s[i] {
        s[l]
    } else {
        s[i]
    };
    if r < s.len() && s[r] > m {
        s[r]
    } else {
        m
    }
}

/// In a heap the root bounds every element.
pub proof fn lemma_heap_root_max(s: Seq<i64>, i: int)
    requires
        is_heap(s),
        0 <= i < s.len(),
    ensures
        s[0] >= s[i],
    decreases i,
{
    if i >= 1 {
        assert(s[(i - 1) / 2] >= s[i]);
        lemma_heap_root_max(s, (i - 1) / 2);
    }
}

/// Swapping a node with one of its children keeps every pair below the
/// child intact.
proof fn lemma_swap_keeps_below(s0: Seq<i64>, s1: Seq<i64>, p: int, c: int)
    requires
        s0.len() == s1.len(),
        0 <= p < c < s0.len(),
        c == 2 * p + 1 || c == 2 * p + 2,
        heap_from(s0, p + 1),
        s1 == s0.update(p, s0[c]).update(c, s0[p]),
    ensures
        heap_from(s1, c + 1),
{
    assert forall|i: int|
        1 <= i < s1.len() && (i - 1) / 2 >= c + 1 implies s1[(i - 1) / 2] >= #[trigger] s1[i] by {
        let q = (i - 1) / 2;
        assert(q < i);
        assert(q != p && i != p && i != c);
        assert(s1[i] == s0[i] && s1[q] == s0[q]);
        assert(s0[q] >= s0[i]);
    };
}

/// One sift step: after swapping the node with its larger child and fixing
/// the child's subtree, the whole region from the node down is a heap.
proof fn lemma_sift_step(s0: Seq<i64>, s1: Seq<i64>, s2: Seq<i64>, p: int, c: int)
    requires
        s0.len() == s1.len(),
        s1.len() == s2.len(),
        0 <= p < c < s0.len(),
        c == 2 * p + 1 || c == 2 * p + 2,
        heap_from(s0, p + 1),
        s0[c] >= s0[p],
        2 * p + 1 < s0.len() ==> s0[c] >= s0[2 * p + 1],
        2 * p + 2 < s0.len() ==> s0[c] >= s0[2 * p + 2],
        s1 == s0.update(p, s0[c]).update(c, s0[p]),
        heap_from(s2, c),
        forall|k: int| 0 <= k < s2.len() && k < 2 * c + 1 && k != c ==> s2[k] == s1[k],
        s2[c] == top_of(s1, c),
    ensures
        heap_from(s2, p),
        s2[p] == top_of(s0, p),
{
    assert(s2[p] == s1[p]);
    assert(s1[p] == s0[c]);
    assert(s2[p] == top_of(s0, p));
    assert(2 * c + 1 < s1.len() ==> s1[2 * c + 1] == s0[2 * c + 1]);
    assert(2 * c + 2 < s1.len() ==> s1[2 * c + 2] == s0[2 * c + 2]);
    assert(2 * c + 1 < s1.len() ==> s0[2 * c + 1] <= s0[c]);
    assert(2 * c + 2 < s1.len() ==> s0[2 * c + 2] <= s0[c]);
    assert(s1[c] == s0[p] <= s0[c]);
    assert(s2[c] <= s0[c]);
    assert forall|i: int|
        1 <= i < s2.len() && (i - 1) / 2 >= p implies s2[(i - 1) / 2] >= #[trigger] s2[i] by {
        let q = (i - 1) / 2;
        assert(q < i);
        if q >= c {
            assert(s2[q] >= s2[i]);
        } else if q == p {
            assert(i == 2 * p + 1 || i == 2 * p + 2) by (nonlinear_arith)
                requires
                    (i - 1) / 2 == p && i >= 1,
            ;
            if i == c {
                assert(s2[q] >= s2[i]);
            } else {
                assert(i < 2 * c + 1);
                assert(i != c && i != p);
                assert(s2[i] == s1[i]);
                assert(s1[i] == s0[i]);
                assert(s0[c] >= s0[i]);
            }
        } else {
            assert(p < q < c);
            assert(i <= 2 * q + 2) by (nonlinear_arith)
                requires
                    (i - 1) / 2 == q && i >= 1,
            ;
            assert(i < 2 * c + 1);
            assert(q != p && q != c && i != p && i != c);
            assert(s2[i] == s1[i] && s1[i] == s0[i]);
            assert(s2[q] == s1[q] && s1[q] == s0[q]);
            assert(s0[q] >= s0[i]);
        }
    };
}

/// Swapping two positions leaves the multiset of items unchanged.
proof fn lemma_swap_multiset(s0: Seq<i64>, p: int, c: int)
    requires
        0 <= p < s0.len(),
        0 <= c < s0.len(),
    ensures
        s0.update(p, s0[c]).update(c, s0[p]).to_multiset() == s0.to_multiset(),
{
    let s1 = s0.update(p, s0[c]);
    let s2 = s1.update(c, s0[p]);
    assert(s1.to_multiset() == s0.to_multiset().insert(s0[c]).remove(s0[p]));
    if p == c {
        assert(s2 =~= s0);
    } else {
        assert(s1[c] == s0[c]);
        assert(s2.to_multiset() == s1.to_multiset().insert(s0[p]).remove(s1[c]));
        assert(s2.to_multiset() =~= s0.to_multiset());
    }
}

/// A node at least as large as its children closes the heap region below it.
proof fn lemma_no_swap(s0: Seq<i64>, p: int)
    requires
        0 <= p < s0.len(),
        heap_from(s0, p + 1),
        2 * p + 1 < s0.len() ==> s0[p] >= s0[2 * p + 1],
        2 * p + 2 < s0.len() ==> s0[p] >= s0[2 * p + 2],
    ensures
        heap_from(s0, p),
{
    assert forall|i: int|
        1 <= i < s0.len() && (i - 1) / 2 >= p implies s0[(i - 1) / 2] >= #[trigger] s0[i] by {
        let q = (i - 1) / 2;
        if q == p {
            assert(i == 2 * p + 1 || i == 2 * p + 2) by (nonlinear_arith)
                requires
                    (i - 1) / 2 == p && i >= 1,
            ;
        }
    };
}

/// The array-backed max-heap. Larger items have higher priority.
pub struct PriorityQueue {
    pub items: Vec<i64>,
}

impl View for PriorityQueue {
    type V = Seq<i64>;

    open spec fn view(&self) -> Seq<i64> {
        self.items@
    }
}

impl PriorityQueue {
    /// The heap invariant that every operation preserves.
    pub open spec fn wf(&self) -> bool {
        is_heap(self.items@)
    }

    pub fn len(&self) -> (r: usize)
        ensures
            r == self@.len(),
    {
        self.items.len()
    }

    pub fn new_empty() -> (r: Self)
        ensures
            r.wf(),
            r@ == Seq::<i64>::empty(),
    {
        let r = PriorityQueue { items: Vec::new() };
        proof {
            assert(r@ =~= Seq::<i64>::empty());
        }
        r
    }

    /// Builds a heap out of an arbitrary vector, keeping exactly its items.
    pub fn new_from_vec(items: Vec<i64>) -> (r: Self)
        ensures
            r.wf(),
            r@.to_multiset() == items@.to_multiset(),
    {
        let mut q = PriorityQueue { items };
        let mut i = q.items.len();
        proof {
            assert(heap_from(q.items@, i as int));
        }
        while i > 0
            invariant
                i <= q.items@.len(),
                heap_from(q.items@, i as int),
                q.items@.to_multiset() == items@.to_multiset(),
                q.items@.len() == items@.len(),
            decreases i,
        {
            i = i - 1;
            q.bubble_down(i);
        }
        q
    }

    fn parent(&self, index: usize) -> (r: Option<usize>)
        requires
            index < self@.len(),
        ensures
            r == (if index == 0 {
                None::<usize>
            } else {
                Some((((index - 1) as usize) / 2) as usize)
            }),
    {
        if index == 0 {
            None
        } else {
            Some((index - 1) / 2)
        }
    }

    fn left_child(&self, index: usize) -> (r: Option<usize>)
        requires
            index < self@.len(),
        ensures
            r == (if 2 * index + 1 < self@.len() {
                Some((2 * index + 1) as usize)
            } else {
                None::<usize>
            }),
    {
        let wide: u128 = (index as u128 + 1) * 2 - 1;
        if wide >= self.items.len() as u128 {
            None
        } else {
            Some(wide as usize)
        }
    }

    fn right_child(&self, index: usize) -> (r: Option<usize>)
        requires
            index < self@.len(),
        ensures
            r == (if 2 * index + 2 < self@.len() {
                Some((2 * index + 2) as usize)
            } else {
                None::<usize>
            }),
    {
        let wide: u128 = (index as u128 + 1) * 2;
        if wide >= self.items.len() as u128 {
            None
        } else {
            Some(wide as usize)
        }
    }

    fn bubble_up(&mut self, index: usize)
        requires
            index < old(self)@.len(),
            forall|i: int|
                1 <= i < old(self)@.len() && i != index ==> old(self)@[(i - 1) / 2]
                    >= #[trigger] old(self)@[i],
            forall|i: int|
                1 <= i < old(self)@.len() && (i - 1) / 2 == index && index >= 1 ==> old(self)@[(
                index - 1) as int / 2] >= #[trigger] old(self)@[i],
        ensures
            final(self).wf(),
            final(self)@.to_multiset() == old(self)@.to_multiset(),
            final(self)@.len() == old(self)@.len(),
        decreases index,
    {
        let ghost s0 = self@;
        match self.parent(index) {
            None => {
                proof {
                    assert(is_heap(self@));
                }
            },
            Some(parent_index) => {
                let a = self.items[index];
                let b = self.items[parent_index];
                if a > b {
                    self.items[index] = b;
                    self.items[parent_index] = a;
                    proof {
                        let s = self@;
                        let p = parent_index as int;
                        let c = index as int;
                        assert(s == s0.update(c, s0[p]).update(p, s0[c]));
                        assert(s.to_multiset() == s0.to_multiset());
                        assert forall|i: int|
                            1 <= i < s.len() && i != p implies s[(i - 1) / 2] >= #[trigger] s[i] by {
                            assert((c - 1) / 2 == p);
                            if i == c {
                                assert(s[c] == s0[p]);
                            } else if (i - 1) / 2 == c {
                                assert(index >= 1);
                                assert(s0[(index - 1) as int / 2] >= s0[i]);
                                assert((c - 1) / 2 == p);
                                assert(s[(i - 1) / 2] == s0[p]);
                                assert(s0[p] >= s0[i]);
                            } else if (i - 1) / 2 == p {
                                assert(s[(i - 1) / 2] == s0[c]);
                                assert(s0[(i - 1) / 2] >= s0[i]);
                                assert(s0[c] > s0[p]);
                            } else {
                                assert(s[i] == s0[i] && s[(i - 1) / 2] == s0[(i - 1) / 2]);
                                assert(s0[(i - 1) / 2] >= s0[i]);
                            }
                        };
                        if p >= 1 {
                            assert forall|i: int|
                                1 <= i < s.len() && (i - 1) / 2 == p && p >= 1 implies s[(p - 1) as int
                                / 2] >= #[trigger] s[i] by {
                                assert((p - 1) / 2 < p) by (nonlinear_arith)
                                    requires
                                        p >= 1,
                                ;
                                assert(s[(p - 1) as int / 2] == s0[(p - 1) as int / 2]);
                                if i == c {
                                    assert(s[i] == s0[p]);
                                    assert(s0[(p - 1) as int / 2] >= s0[p]);
                                } else {
                                    assert(s[i] == s0[i]);
                                    assert(s0[(i - 1) / 2] >= s0[i]);
                                    assert(s0[p] >= s0[i]);
                                    assert(s0[(p - 1) as int / 2] >= s0[p]);
                                }
                            };
                        }
                    }
                    self.bubble_up(parent_index);
                } else {
                    proof {
                        let s = self@;
                        let p = parent_index as int;
                        let c = index as int;
                        assert((c - 1) / 2 == p);
                        assert(s[(c - 1) / 2] >= s[c]);
                        assert(is_heap(s));
                    }
                }
            },
        }
    }

    fn bigger_value(&self, index1: usize, index2: usize) -> (r: usize)
        requires
            index1 < self@.len(),
            index2 < self@.len(),
        ensures
            r == index1 || r == index2,
            self@[r as int] >= self@[index1 as int],
            self@[r as int] >= self@[index2 as int],
    {
        if self.items[index1] >= self.items[index2] {
            index1
        } else {
            index2
        }
    }

    #[verifier::rlimit(100)]
    fn bubble_down(&mut self, index: usize)
        requires
            index < old(self)@.len(),
            heap_from(old(self)@, index as int + 1),
        ensures
            final(self)@.to_multiset() == old(self)@.to_multiset(),
            final(self)@.len() == old(self)@.len(),
            heap_from(final(self)@, index as int),
            forall|k: int|
                0 <= k < final(self)@.len() && k < 2 * index + 1 && k != index
                    ==> final(self)@[k] == old(self)@[k],
            final(self)@[index as int] == top_of(old(self)@, index as int),
        decreases old(self)@.len() - index,
    {
        let ghost s0 = self@;
        let len = self.items.len();
        let mut new_index = index;
        if let Some(left) = self.left_child(index) {
            new_index = self.bigger_value(left, new_index);
        }
        if let Some(right) = self.right_child(index) {
            new_index = self.bigger_value(right, new_index);
        }
        if new_index == index {
            proof {
                lemma_no_swap(s0, index as int);
                assert(self@[index as int] == top_of(s0, index as int));
            }
        } else {
            let a = self.items[index];
            let b = self.items[new_index];
            self.items[index] = b;
            self.items[new_index] = a;
            proof {
                let s = self@;
                let p = index as int;
                let c = new_index as int;
                assert(c == 2 * p + 1 || c == 2 * p + 2);
                assert(s == s0.update(p, s0[c]).update(c, s0[p]));
                lemma_swap_multiset(s0, p, c);
                lemma_swap_keeps_below(s0, s, p, c);
            }
            let ghost s1 = self@;
            self.bubble_down(new_index);
            proof {
                let s = self@;
                let p = index as int;
                let c = new_index as int;
                lemma_sift_step(s0, s1, s, p, c);
            }
        }
    }

    pub fn add_item(&mut self, item: i64)
        requires
            old(self).wf(),
        ensures
            final(self).wf(),
            final(self)@.to_multiset() == old(self)@.to_multiset().insert(item),
    {
        self.items.push(item);
        let idx = self.items.len() - 1;
        proof {
            let s = self@;
            let j = idx as int;
            assert(s == old(self)@.push(item));
            assert forall|i: int|
                1 <= i < s.len() && i != j implies s[(i - 1) / 2] >= #[trigger] s[i] by {
                assert((i - 1) / 2 < i);
                assert(s[i] == old(self)@[i] && s[(i - 1) / 2] == old(self)@[(i - 1) / 2]);
                assert(old(self)@[(i - 1) / 2] >= old(self)@[i]);
            };
            assert forall|i: int|
                1 <= i < s.len() && (i - 1) / 2 == j && j >= 1 implies s[(j - 1) as int / 2]
                >= #[trigger] s[i] by {
                assert(i >= 2 * j + 1) by (nonlinear_arith)
                    requires
                        (i - 1) / 2 == j,
                        i >= 1,
                ;
                assert(i >= s.len());
                assert(false);
            };
        }
        self.bubble_up(idx);
    }

    pub fn find_max(&self) -> (r: Option<i64>)
        requires
            self.wf(),
        ensures
            r == (if self@.len() == 0 {
                None::<i64>
            } else {
                Some(self@[0])
            }),
            r is Some ==> forall|i: int| 0 <= i < self@.len() ==> r.unwrap() >= self@[i],
    {
        if self.items.len() == 0 {
            None
        } else {
            proof {
                assert forall|i: int| 0 <= i < self@.len() implies self@[0] >= #[trigger] self@[i] by {
                    lemma_heap_root_max(self@, i);
                };
            }
            Some(self.items[0])
        }
    }

    /// Removes and returns the greatest item; `None` on an empty queue.
    pub fn extract_max(&mut self) -> (r: Option<i64>)
        requires
            old(self).wf(),
        ensures
            final(self).wf(),
            r == (if old(self)@.len() == 0 {
                None::<i64>
            } else {
                Some(old(self)@[0])
            }),
            old(self)@.len() == 0 ==> *final(self) == *old(self),
            old(self)@.len() > 0 ==> final(self)@.to_multiset() == old(self)@.to_multiset().remove(
                old(self)@[0],
            ),
            old(self)@.len() > 0 ==> final(self)@.len() == old(self)@.len() - 1,
            r is Some ==> forall|i: int| 0 <= i < old(self)@.len() ==> r.unwrap() >= old(self)@[i],
    {
        proof {
            assert forall|i: int| 0 <= i < old(self)@.len() implies old(self)@[0]
                >= #[trigger] old(self)@[i] by {
                lemma_heap_root_max(old(self)@, i);
            };
        }
        let len = self.items.len();
        if len == 0 {
            None
        } else if len == 1 {
            let r = self.items.pop();
            proof {
                assert(self@ =~= old(self)@.remove(0));
                assert(old(self)@.remove(0).to_multiset() == old(self)@.to_multiset().remove(
                    old(self)@[0],
                ));
                assert(is_heap(self@));
            }
            r
        } else {
            let ghost s0 = self@;
            let a = self.items[0];
            let b = self.items[len - 1];
            self.items[0] = b;
            self.items[len - 1] = a;
            let result = self.items.pop();
            proof {
                let s = self@;
                let sw = s0.update(0, s0[len - 1]).update(len - 1, s0[0int]);
                assert(sw.to_multiset() == s0.to_multiset());
                assert(s == sw.drop_last());
                assert(sw == s.push(s0[0int]));
                assert(sw.to_multiset() == s.to_multiset().insert(s0[0int]));
                assert(s.to_multiset() =~= s0.to_multiset().remove(s0[0int]));
                assert forall|i: int|
                    1 <= i < s.len() && (i - 1) / 2 >= 1 implies s[(i - 1) / 2]
                    >= #[trigger] s[i] by {
                    assert((i - 1) / 2 < i);
                    assert(s[i] == s0[i] && s[(i - 1) / 2] == s0[(i - 1) / 2]);
                    assert(s0[(i - 1) / 2] >= s0[i]);
                };
                assert(heap_from(s, 1));
            }
            self.bubble_down(0);
            result
        }
    }

    /// Drains the queue in priority order: the result is descending and
    /// holds exactly the items the queue held.
    pub fn sorted(self) -> (r: Vec<i64>)
        requires
            self.wf(),
        ensures
            sorted_desc(r@),
            r@.to_multiset() == self@.to_multiset(),
    {
        let mut q = self;
        let mut result: Vec<i64> = Vec::new();
        proof {
            assert(result@.to_multiset() =~= Multiset::<i64>::empty());
            assert(result@.to_multiset().add(q@.to_multiset()) =~= self@.to_multiset());
        }
        while q.items.len() > 0
            invariant
                q.wf(),
                sorted_desc(result@),
                result@.to_multiset().add(q@.to_multiset()) == self@.to_multiset(),
                forall|i: int, j: int|
                    0 <= i < result@.len() && 0 <= j < q@.len() ==> result@[i] >= q@[j],
            decreases q@.len(),
        {
            let ghost r0 = result@;
            let ghost q0 = q@;
            let m = q.extract_max().unwrap();
            result.push(m);
            proof {
                assert(result@ == r0.push(m));
                assert(result@.to_multiset() == r0.to_multiset().insert(m));
                assert(q@.to_multiset() == q0.to_multiset().remove(q0[0]));
                assert(q0.to_multiset().contains(q0[0]));
                assert(result@.to_multiset().add(q@.to_multiset()) =~= self@.to_multiset());
                assert forall|i: int, j: int|
                    0 <= i < j < result@.len() implies result@[i] >= result@[j] by {
                    if j < r0.len() {
                        assert(r0[i] >= r0[j]);
                    } else {
                        assert(result@[j] == m);
                        assert(q0.to_multiset().contains(q0[0]));
                    }
                };
                assert forall|i: int, j: int|
                    0 <= i < result@.len() && 0 <= j < q@.len() implies result@[i] >= q@[j] by {
                    assert(q@.to_multiset().contains(q@[j]));
                    assert(q0.to_multiset().contains(q@[j]));
                    let w = choose|w: int| 0 <= w < q0.len() && q0[w] == q@[j];
                    assert(m >= q0[w]);
                    if i < r0.len() {
                        assert(r0[i] >= q0[w]);
                    }
                };
            }
        }
        proof {
            assert(q@.to_multiset() =~= Multiset::<i64>::empty());
            assert(result@.to_multiset() =~= self@.to_multiset());
        }
        result
    }
}

} // verus!
