use vstd::multiset::Multiset;
use vstd::prelude::*;

verus! {

/// The heap abstract data structure.
///
/// A conforming realization stores a multiset of values, keeps an internal
/// well-formedness condition across every operation, and always hands the
/// smallest stored value out first.
pub trait MinHeap {
    /// The multiset of values currently stored in the heap.
    spec fn models(&self) -> Multiset<i64>;

    /// The realization's internal well-formedness condition.
    spec fn wf(&self) -> bool;

    /// Insert a new value in the heap.
    fn push(&mut self, value: i64)
        requires
            old(self).wf(),
        ensures
            final(self).wf(),
            final(self).models() == old(self).models().insert(value),
            final(self).models().len() == old(self).models().len() + 1,
    ;

    /// Returns the smallest element in the heap without removing it.
    /// Returns None if the heap is empty.
    fn top(&self) -> (r: Option<i64>)
        requires
            self.wf(),
        ensures
            match r {
                Some(v) => self.models().contains(v) && forall|x: i64|
                    self.models().contains(x) ==> v <= x,
                None => self.models().len() == 0,
            },
            self.models().len() > 0 ==> r is Some,
    ;

    /// Returns ownership of the smallest element in the heap and deletes it
    /// from the heap. Returns None if the heap is empty.
    fn pop(&mut self) -> (r: Option<i64>)
        requires
            old(self).wf(),
        ensures
            final(self).wf(),
            match r {
                Some(v) => old(self).models().contains(v) && (forall|x: i64|
                    old(self).models().contains(x) ==> v <= x)
                    && final(self).models() == old(self).models().remove(v)
                    && final(self).models().len() == old(self).models().len() - 1,
                None => old(self).models().len() == 0 && final(self).models()
                    == old(self).models(),
            },
            old(self).models().len() > 0 ==> r is Some,
    ;

    /// Returns the number of elements in the heap.
    fn len(&self) -> (n: usize)
        requires
            self.wf(),
        ensures
            n == self.models().len(),
    ;

    /// Returns true if the heap is empty.
    fn is_empty(&self) -> (e: bool)
        requires
            self.wf(),
        ensures
            e <==> self.models().len() == 0,
    ;
}

/// Extraction yields a sorted sequence: when `a` is a smallest element of the
/// stored multiset `m` and `b` is a smallest element of `m` with one
/// occurrence of `a` taken out — the values two successive `pop` calls
/// return — then `a <= b`. Together with `pop`'s guarantee that exactly one
/// occurrence of the returned minimum is removed, popping a heap dry yields a
/// non-decreasing permutation of everything that was pushed.
pub proof fn lemma_successive_minima_sorted(m: Multiset<i64>, a: i64, b: i64)
    requires
        m.contains(a),
        forall|x: i64| m.contains(x) ==> a <= x,
        m.remove(a).contains(b),
        forall|x: i64| m.remove(a).contains(x) ==> b <= x,
    ensures
        a <= b,
{
    assert(m.count(b) >= m.remove(a).count(b));
    assert(m.contains(b));
}

} // verus!
