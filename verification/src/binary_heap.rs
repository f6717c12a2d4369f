use crate::min_heap::MinHeap;
use vstd::multiset::Multiset;
use vstd::pervasive::VecAdditionalExecFns;
use vstd::prelude::*;

verus! {

/// Index of the left child of the node at index `i` in the implicit tree.
pub open spec fn left_child_index(i: int) -> int {
    2 * i + 1
}

/// Index of the right child of the node at index `i` in the implicit tree.
pub open spec fn right_child_index(i: int) -> int {
    2 * i + 2
}

/// Index of the parent of the node at index `i` in the implicit tree
/// (meaningful only for `i >= 1`; the root has no parent).
pub open spec fn parent_index(i: int) -> int {
    (i + 1) / 2 - 1
}

/// The heap-order invariant: every node with a parent is at least as large
/// as its parent, so the smallest value sits at the root.
pub open spec fn is_min_heap(s: Seq<i64>) -> bool {
    forall|i: int| 1 <= i < s.len() ==> s[parent_index(i)] <= #[trigger] s[i]
}

/// The sequence with the values at `i` and `j` exchanged.
spec fn swapped(s: Seq<i64>, i: int, j: int) -> Seq<i64> {
    s.update(i, s[j]).update(j, s[i])
}

/// Heap-order on every edge except possibly the one ending at `c`.
spec fn heap_except_up(s: Seq<i64>, c: int) -> bool {
    forall|i: int| 1 <= i < s.len() && i != c ==> s[parent_index(i)] <= #[trigger] s[i]
}

/// Heap-order on every edge except possibly the ones leaving `c`.
spec fn heap_except_down(s: Seq<i64>, c: int) -> bool {
    forall|i: int|
        1 <= i < s.len() && parent_index(i) != c ==> s[parent_index(i)] <= #[trigger] s[i]
}

/// If `c` has a parent, the parent's value already covers `c`'s children.
spec fn parent_covers_children_of(s: Seq<i64>, c: int) -> bool {
    c >= 1 ==> forall|i: int|
        1 <= i < s.len() && parent_index(i) == c ==> s[parent_index(c)] <= #[trigger] s[i]
}

/// Every node's parent lies strictly below it, at a valid index, and the node
/// is one of its parent's two children.
pub broadcast proof fn lemma_parent_child_relation(i: int)
    requires
        i >= 1,
    ensures
        0 <= #[trigger] parent_index(i) < i,
        i == left_child_index(parent_index(i)) || i == right_child_index(parent_index(i)),
{
}

/// In a well-ordered heap the root holds a value no larger than the value at
/// any valid index.
pub proof fn lemma_root_is_min(s: Seq<i64>, i: int)
    requires
        is_min_heap(s),
        0 <= i < s.len(),
    ensures
        s[0] <= s[i],
    decreases i,
{
    if i >= 1 {
        lemma_parent_child_relation(i);
        lemma_root_is_min(s, parent_index(i));
    }
}

/// In a well-ordered heap the root holds a smallest element of the stored
/// multiset.
pub proof fn lemma_root_min_of_multiset(s: Seq<i64>)
    requires
        is_min_heap(s),
        s.len() > 0,
    ensures
        s.to_multiset().contains(s[0]),
        forall|x: i64| s.to_multiset().contains(x) ==> s[0] <= x,
{
    vstd::seq_lib::to_multiset_contains(s, s[0]);
    assert(s.contains(s[0]));
    assert forall|x: i64| s.to_multiset().contains(x) implies s[0] <= x by {
        vstd::seq_lib::to_multiset_contains(s, x);
        assert(s.contains(x));
        let j = choose|j: int| 0 <= j < s.len() && s[j] == x;
        lemma_root_is_min(s, j);
    }
}

/// Exchanging two values leaves the stored multiset and the length unchanged.
proof fn lemma_swap_multiset(s: Seq<i64>, i: int, j: int)
    requires
        0 <= i < s.len(),
        0 <= j < s.len(),
        i != j,
    ensures
        swapped(s, i, j).len() == s.len(),
        swapped(s, i, j).to_multiset() == s.to_multiset(),
{
    let s1 = s.update(i, s[j]);
    vstd::seq_lib::to_multiset_update(s, i, s[j]);
    vstd::seq_lib::to_multiset_update(s1, j, s[i]);
    vstd::seq_lib::to_multiset_contains(s, s[i]);
    vstd::seq_lib::to_multiset_contains(s, s[j]);
    assert(s.contains(s[i]));
    assert(s.contains(s[j]));
    assert(s1[j] == s[j]);
    assert(swapped(s, i, j).to_multiset() =~= s.to_multiset());
}

/// One sift-up step: exchanging a node that is smaller than its parent with
/// that parent moves the single possible heap-order violation one level up.
proof fn lemma_sift_up_step(s: Seq<i64>, c: int)
    requires
        1 <= c < s.len(),
        heap_except_up(s, c),
        parent_covers_children_of(s, c),
        s[c] < s[parent_index(c)],
    ensures
        heap_except_up(swapped(s, c, parent_index(c)), parent_index(c)),
        parent_covers_children_of(swapped(s, c, parent_index(c)), parent_index(c)),
{
    let p = parent_index(c);
    let t = swapped(s, c, p);
    lemma_parent_child_relation(c);
    assert forall|i: int| 1 <= i < t.len() && i != p implies t[parent_index(i)] <= t[i] by {
        lemma_parent_child_relation(i);
        if i == c {
            assert(t[p] == s[c] && t[c] == s[p]);
        } else if parent_index(i) == c {
            assert(s[p] <= s[i]);
        } else if parent_index(i) == p {
            assert(s[p] <= s[i]);
        }
    }
    if p >= 1 {
        assert forall|i: int| 1 <= i < t.len() && parent_index(i) == p implies t[parent_index(
            p,
        )] <= t[i] by {
            lemma_parent_child_relation(i);
            lemma_parent_child_relation(p);
            if i == c {
                assert(s[parent_index(p)] <= s[p]);
            } else {
                assert(s[parent_index(p)] <= s[p]);
                assert(s[p] <= s[i]);
            }
        }
    }
}

/// One sift-down step: exchanging a node that is larger than its smallest
/// in-range child `m` with that child moves the single possible heap-order
/// violation one level down.
proof fn lemma_sift_down_step(s: Seq<i64>, c: int, m: int)
    requires
        0 <= c < s.len(),
        1 <= m < s.len(),
        parent_index(m) == c,
        heap_except_down(s, c),
        parent_covers_children_of(s, c),
        s[m] < s[c],
        forall|j: int| 1 <= j < s.len() && parent_index(j) == c ==> s[m] <= #[trigger] s[j],
    ensures
        heap_except_down(swapped(s, c, m), m),
        parent_covers_children_of(swapped(s, c, m), m),
{
    let t = swapped(s, c, m);
    lemma_parent_child_relation(m);
    assert forall|i: int| 1 <= i < t.len() && parent_index(i) != m implies t[parent_index(i)]
        <= t[i] by {
        lemma_parent_child_relation(i);
        if i == c {
            assert(s[parent_index(c)] <= s[m]);
        } else if i == m {
            assert(t[c] == s[m] && t[m] == s[c]);
        } else if parent_index(i) == c {
            assert(s[m] <= s[i]);
        }
    }
    assert forall|i: int| 1 <= i < t.len() && parent_index(i) == m implies t[parent_index(m)]
        <= t[i] by {
        lemma_parent_child_relation(i);
        assert(s[m] <= s[i]);
    }
}

/// A binary heap is an implementation of a min-heap using a binary tree.
pub struct BinaryHeap {
    values: Vec<i64>,
}

impl View for BinaryHeap {
    type V = Seq<i64>;

    closed spec fn view(&self) -> Seq<i64> {
        self.values@
    }
}

pub fn left_son(index: usize) -> (r: usize)
    requires
        left_child_index(index as int) <= usize::MAX,
    ensures
        r as int == left_child_index(index as int),
{
    2 * index + 1
}

pub fn right_son(index: usize) -> (r: usize)
    requires
        right_child_index(index as int) <= usize::MAX,
    ensures
        r as int == right_child_index(index as int),
{
    2 * index + 2
}

pub fn father(index: usize) -> (r: Option<usize>)
    ensures
        match r {
            Some(p) => index >= 1 && p as int == parent_index(index as int),
            None => index == 0,
        },
{
    if index == 0 {
        None
    } else {
        Some((index - 1) / 2)
    }
}

impl BinaryHeap {
    /// Returns an empty binary heap.
    pub fn new() -> (h: Self)
        ensures
            h.wf(),
            h@ == Seq::<i64>::empty(),
            h.models() == Multiset::<i64>::empty(),
    {
        let h = BinaryHeap { values: Vec::new() };
        proof {
            vstd::seq_lib::to_multiset_len(h.values@);
            vstd::multiset::lemma_multiset_empty_len(h.values@.to_multiset());
            assert(h.values@.to_multiset() =~= Multiset::<i64>::empty());
        }
        h
    }
}

impl MinHeap for BinaryHeap {
    /// The stored multiset is the multiset of the backing sequence.
    open spec fn models(&self) -> Multiset<i64> {
        self@.to_multiset()
    }

    /// A binary heap is well formed when its backing sequence is heap-ordered.
    open spec fn wf(&self) -> bool {
        is_min_heap(self@)
    }

    fn push(&mut self, value: i64) {
        self.values.push(value);
        let mut current: usize = self.values.len() - 1;
        proof {
            vstd::seq_lib::to_multiset_build(old(self)@, value);
            assert forall|i: int|
                1 <= i < self.values@.len() && i != current as int implies self.values@[parent_index(
                i,
            )] <= self.values@[i] by {
                lemma_parent_child_relation(i);
                assert(self.values@[i] == old(self)@[i]);
            }
            assert forall|i: int|
                1 <= i < self.values@.len() && parent_index(i) == current as int implies self.values@[parent_index(
                current as int,
            )] <= self.values@[i] by {
                lemma_parent_child_relation(i);
            }
        }
        loop
            invariant
                self.values@.len() == old(self)@.len() + 1,
                (current as int) < self.values@.len(),
                heap_except_up(self.values@, current as int),
                parent_covers_children_of(self.values@, current as int),
                self.values@.to_multiset() == old(self)@.to_multiset().insert(value),
            ensures
                is_min_heap(self.values@),
                self.values@.len() == old(self)@.len() + 1,
                self.values@.to_multiset() == old(self)@.to_multiset().insert(value),
            decreases current,
        {
            let f = match father(current) {
                Some(node) => node,
                None => break ,
            };
            proof {
                lemma_parent_child_relation(current as int);
            }
            if self.values[current] >= self.values[f] {
                break ;
            }
            let ghost s_before = self.values@;
            proof {
                lemma_sift_up_step(s_before, current as int);
                lemma_swap_multiset(s_before, current as int, f as int);
            }
            let a = self.values[current];
            let b = self.values[f];
            self.values.set(current, b);
            self.values.set(f, a);
            proof {
                assert(self.values@ == swapped(s_before, current as int, f as int));
            }
            current = f;
        }
    }

    fn top(&self) -> (r: Option<i64>) {
        if self.values.len() == 0 {
            proof {
                vstd::seq_lib::to_multiset_len(self.values@);
            }
            None
        } else {
            proof {
                lemma_root_min_of_multiset(self.values@);
                vstd::seq_lib::to_multiset_len(self.values@);
            }
            Some(self.values[0])
        }
    }

    fn pop(&mut self) -> (r: Option<i64>) {
        if self.values.len() == 0 {
            proof {
                vstd::seq_lib::to_multiset_len(self.values@);
            }
            return None;
        }
        proof {
            lemma_root_min_of_multiset(old(self)@);
            vstd::seq_lib::to_multiset_len(old(self)@);
        }
        if self.values.len() == 1 {
            let r = self.values.pop();
            proof {
                vstd::seq_lib::to_multiset_remove(old(self)@, 0);
                assert(old(self)@.remove(0) =~= self.values@);
                vstd::seq_lib::to_multiset_len(self.values@);
            }
            return r;
        }

        let mut last: usize = self.values.len() - 1;
        let ghost s_start = self.values@;
        let a = self.values[0];
        let b = self.values[last];
        proof {
            lemma_swap_multiset(s_start, 0, last as int);
        }
        self.values.set(0, b);
        self.values.set(last, a);
        let top = self.values.pop();
        last = last - 1;
        proof {
            let sw = swapped(s_start, 0, s_start.len() - 1);
            vstd::seq_lib::to_multiset_remove(sw, sw.len() - 1);
            assert(self.values@ =~= sw.remove(sw.len() - 1));
            assert(self.values@.to_multiset() == old(self)@.to_multiset().remove(old(self)@[0]));
            assert forall|i: int|
                1 <= i < self.values@.len() && parent_index(i) != 0 implies self.values@[parent_index(
                i,
            )] <= self.values@[i] by {
                lemma_parent_child_relation(i);
                assert(self.values@[i] == s_start[i]);
                assert(self.values@[parent_index(i)] == s_start[parent_index(i)]);
            }
        }

        let mut current_node: usize = 0;
        loop
            invariant
                self.values@.len() == old(self)@.len() - 1,
                last as int == self.values@.len() - 1,
                last < usize::MAX,
                (current_node as int) <= last as int,
                heap_except_down(self.values@, current_node as int),
                parent_covers_children_of(self.values@, current_node as int),
                self.values@.to_multiset() == old(self)@.to_multiset().remove(old(self)@[0]),
            ensures
                is_min_heap(self.values@),
                self.values@.len() == old(self)@.len() - 1,
                self.values@.to_multiset() == old(self)@.to_multiset().remove(old(self)@[0]),
            decreases last - current_node,
        {
            // The node has a child inside the heap iff 2 * current_node + 1 <= last.
            if current_node >= (last + 1) / 2 {
                proof {
                    assert forall|i: int|
                        1 <= i < self.values@.len() && parent_index(i) == current_node as int
                        implies false by {
                        lemma_parent_child_relation(i);
                    }
                }
                break ;
            }
            let ls = left_son(current_node);
            let rs = right_son(current_node);

            // Find the smallest child.
            let mut smallest: usize = ls;
            if rs <= last && self.values[rs] < self.values[ls] {
                smallest = rs;
            }

            // Stop if the current node is where it's supposed to be.
            if self.values[current_node] <= self.values[smallest] {
                proof {
                    assert forall|i: int|
                        1 <= i < self.values@.len() && parent_index(i) == current_node as int
                        implies self.values@[current_node as int] <= self.values@[i] by {
                        lemma_parent_child_relation(i);
                    }
                }
                break ;
            }

            let ghost s_before = self.values@;
            proof {
                assert forall|j: int|
                    1 <= j < s_before.len() && parent_index(j) == current_node as int
                    implies s_before[smallest as int] <= s_before[j] by {
                    lemma_parent_child_relation(j);
                }
                lemma_sift_down_step(s_before, current_node as int, smallest as int);
                lemma_swap_multiset(s_before, current_node as int, smallest as int);
            }
            let c_val = self.values[current_node];
            let s_val = self.values[smallest];
            self.values.set(current_node, s_val);
            self.values.set(smallest, c_val);
            proof {
                assert(self.values@ == swapped(s_before, current_node as int, smallest as int));
            }
            current_node = smallest;
        }

        proof {
            vstd::seq_lib::to_multiset_len(self.values@);
        }
        top
    }

    fn len(&self) -> (n: usize) {
        proof {
            vstd::seq_lib::to_multiset_len(self.values@);
        }
        self.values.len()
    }

    fn is_empty(&self) -> (e: bool) {
        proof {
            vstd::seq_lib::to_multiset_len(self.values@);
        }
        self.values.is_empty()
    }
}

} // verus!
