//! A map from the offsets of an allocation to data, where neighbouring offsets with the same data
//! can share an entry.
use vstd::prelude::*;

use crate::memory::Size;

verus! {

/// Data that can be had twice.
pub trait Replicate: View + Sized {
    fn replicate(&self) -> (copy: Self)
        ensures
            copy@ == self@,
    ;
}

/// The data of the offsets from `start` up to `end`; never empty.
#[derive(Debug)]
pub struct Elem<T> {
    pub start: Size,
    pub end: Size,
    pub data: T,
}

/// Data for each offset below some size.
#[derive(Debug)]
pub struct RangeMap<T> {
    /// The entries, in the order of the offsets.
    pub elems: Vec<Elem<T>>,
    pub size: Size,
}

/// Whether the entry at `k` starts where the one before it ends.
pub open spec fn chained<T>(elems: Seq<Elem<T>>, k: int) -> bool {
    elems[k].start == if k == 0 {
        0
    } else {
        elems[k - 1].end
    }
}

/// Whether the entry at `k` is for offset `i`.
pub open spec fn holds<T>(elems: Seq<Elem<T>>, k: int, i: int) -> bool {
    0 <= k < elems.len() && elems[k].start <= i < elems[k].end
}

/// The entry for offset `i`.
pub open spec fn locate<T>(elems: Seq<Elem<T>>, i: int) -> int {
    choose|k: int| holds(elems, k, i)
}

impl<T: View> View for RangeMap<T> {
    type V = Seq<T::V>;

    open spec fn view(&self) -> Seq<T::V> {
        Seq::new(self.size as nat, |i: int| self.elems@[locate(self.elems@, i)].data@)
    }
}

impl<T: View> RangeMap<T> {
    /// The entries are not empty, and cover the offsets below `size` without gap or overlap.
    pub open spec fn wf(self) -> bool {
        &&& forall|k: int|
            0 <= k < self.elems@.len() ==> (#[trigger] self.elems@[k]).start < self.elems@[k].end
        &&& forall|j: int, k: int|
            #![trigger self.elems@[j], self.elems@[k]]
            0 <= j < k < self.elems@.len() ==> self.elems@[j].end <= self.elems@[k].start
        &&& forall|k: int| 0 <= k < self.elems@.len() ==> #[trigger] chained(self.elems@, k)
        &&& self.size == if self.elems@.len() == 0 {
            0
        } else {
            self.elems@.last().end
        }
    }

    /// The entry that covers an offset holds its data.
    pub proof fn lemma_view(self, k: int, i: int)
        requires
            self.wf(),
            holds(self.elems@, k, i),
        ensures
            0 <= i < self@.len(),
            self@[i] == self.elems@[k].data@,
    {
        let found = locate(self.elems@, i);
        assert(holds(self.elems@, found, i));
        let a = self.elems@[found];
        let b = self.elems@[k];
        let last = self.elems@[self.elems@.len() - 1];
        assert(found == k);
    }

    /// Every offset is covered by an entry.
    pub proof fn lemma_covered(self, i: int)
        requires
            self.wf(),
            0 <= i < self.size,
        ensures
            holds(self.elems@, locate(self.elems@, i), i),
    {
        self.lemma_covered_below(self.elems@.len() as int, i);
    }

    proof fn lemma_covered_below(self, n: int, i: int)
        requires
            self.wf(),
            0 <= i,
            1 <= n <= self.elems@.len(),
            i < self.elems@[n - 1].end,
        ensures
            holds(self.elems@, locate(self.elems@, i), i),
        decreases n,
    {
        if self.elems@[n - 1].start <= i {
            assert(holds(self.elems@, n - 1, i));
        } else {
            assert(chained(self.elems@, n - 1));
            self.lemma_covered_below(n - 1, i);
        }
    }

    /// Changing data, but not which offsets the entries cover, leaves the map well-formed.
    pub proof fn lemma_same_bounds(self, before: Self)
        requires
            before.wf(),
            self.size == before.size,
            self.elems@.len() == before.elems@.len(),
            forall|j: int|
                0 <= j < self.elems@.len() ==> (#[trigger] self.elems@[j]).start
                    == before.elems@[j].start && self.elems@[j].end == before.elems@[j].end,
        ensures
            self.wf(),
    {
        assert forall|j: int| 0 <= j < self.elems@.len() implies #[trigger] chained(
            self.elems@,
            j,
        ) by {
            assert(chained(before.elems@, j));
            if j > 0 {
                let prev = self.elems@[j - 1];
            }
        }
        assert forall|i: int, j: int|
            #![trigger self.elems@[i], self.elems@[j]]
            0 <= i < j < self.elems@.len() implies self.elems@[i].end <= self.elems@[j].start by {
            let a = before.elems@[i];
            let b = before.elems@[j];
        }
    }
}

impl<T: Replicate> RangeMap<T> {
    /// A map in which every offset below `size` has the same data.
    pub fn new(size: Size, init: T) -> (map: Self)
        ensures
            map.wf(),
            map@.len() == size,
            forall|i: int| 0 <= i < size ==> #[trigger] map@[i] == init@,
    {
        let mut elems: Vec<Elem<T>> = Vec::new();
        let ghost data = init@;
        if size > 0 {
            elems.push(Elem { start: 0, end: size, data: init });
        }
        let map = RangeMap { elems, size };
        proof {
            assert forall|i: int| 0 <= i < size implies #[trigger] map@[i] == data by {
                assert(holds(map.elems@, 0, i));
                map.lemma_view(0, i);
            }
        }
        map
    }

    /// The data of the offset.
    pub fn get(&self, offset: Size) -> (data: &T)
        requires
            self.wf(),
            offset < self@.len(),
        ensures
            data@ == self@[offset as int],
    {
        let found = self.find_offset(offset);
        proof {
            self.lemma_covered(offset as int);
            let k = locate(self.elems@, offset as int);
            assert(holds(self.elems@, k, offset as int));
            assert(found < self.elems@.len());
            self.lemma_view(found as int, offset as int);
        }
        &self.elems[found].data
    }

    /// Finds the first entry that ends behind the given offset.
    fn find_offset(&self, offset: Size) -> (found: usize)
        requires
            self.wf(),
        ensures
            found <= self.elems@.len(),
            forall|k: int| 0 <= k < found ==> (#[trigger] self.elems@[k]).end <= offset,
            found < self.elems@.len() ==> holds(self.elems@, found as int, offset as int),
    {
        // We do a binary search.
        let mut left: usize = 0;
        let mut right: usize = self.elems.len();
        while left < right
            invariant
                self.wf(),
                left <= right <= self.elems@.len(),
                forall|k: int| 0 <= k < left ==> (#[trigger] self.elems@[k]).end <= offset,
                forall|k: int|
                    right <= k < self.elems@.len() ==> offset < (#[trigger] self.elems@[k]).end,
            decreases right - left,
        {
            let candidate = left + (right - left) / 2;
            if self.elems[candidate].end <= offset {
                proof {
                    assert forall|k: int| 0 <= k <= candidate implies (
                    #[trigger] self.elems@[k]).end <= offset by {
                        let at = self.elems@[candidate as int];
                    }
                }
                left = candidate + 1;
            } else {
                proof {
                    assert forall|k: int| candidate <= k < self.elems@.len() implies offset < (
                    #[trigger] self.elems@[k]).end by {
                        let at = self.elems@[candidate as int];
                    }
                }
                right = candidate;
            }
        }
        proof {
            if left < self.elems@.len() {
                assert(chained(self.elems@, left as int));
                if left > 0 {
                    let prev = self.elems@[left - 1];
                }
            }
        }
        left
    }

    /// Splits the entry that covers the given offset, unless one starts or ends there. Returns
    /// the index of the first entry that does not lie before the offset. The data stay the same.
    pub fn split_at(&mut self, offset: Size) -> (index: usize)
        requires
            old(self).wf(),
            offset <= old(self).size,
        ensures
            final(self).wf(),
            final(self).size == old(self).size,
            final(self)@ == old(self)@,
            index <= final(self).elems@.len(),
            index < final(self).elems@.len() ==> final(self).elems@[index as int].start == offset,
            index == final(self).elems@.len() ==> offset == final(self).size,
            forall|k: int|
                0 <= k < index ==> k < old(self).elems@.len() && (
                #[trigger] final(self).elems@[k]).start == old(self).elems@[k].start,
            forall|k: int| 0 <= k < index ==> (#[trigger] final(self).elems@[k]).end <= offset,
            forall|k: int|
                0 <= k < old(self).elems@.len() && (#[trigger] old(self).elems@[k]).start < offset
                    ==> k < index,
    {
        let index = self.find_offset(offset);
        if index == self.elems.len() {
            proof {
                if index > 0 {
                    let last = self.elems@[index - 1];
                }
            }
            return index;
        }
        let ghost at = self.elems@[index as int];
        if self.elems[index].start == offset {
            return index;
        }
        // Now we really have to split.

        let ghost before = *self;
        let end = self.elems[index].end;
        let data = self.elems[index].data.replicate();
        self.elems[index].end = offset;
        // Insert second element.
        self.elems.insert(index + 1, Elem { start: offset, end, data });
        proof {
            self.lemma_split(before, index as int, offset);
        }
        index + 1
    }

    /// Splitting an entry changes nothing about the data.
    proof fn lemma_split(self, before: Self, k: int, offset: Size)
        requires
            before.wf(),
            0 <= k < before.elems@.len(),
            before.elems@[k].start < offset < before.elems@[k].end,
            self.size == before.size,
            self.elems@.len() == before.elems@.len() + 1,
            forall|j: int| 0 <= j < k ==> #[trigger] self.elems@[j] == before.elems@[j],
            forall|j: int|
                k + 1 < j < self.elems@.len() ==> #[trigger] self.elems@[j] == before.elems@[j - 1],
            self.elems@[k].start == before.elems@[k].start,
            self.elems@[k].end == offset,
            self.elems@[k].data@ == before.elems@[k].data@,
            self.elems@[k + 1].start == offset,
            self.elems@[k + 1].end == before.elems@[k].end,
            self.elems@[k + 1].data@ == before.elems@[k].data@,
        ensures
            self.wf(),
            self@ == before@,
    {
        assert forall|j: int| 0 <= j < self.elems@.len() implies (#[trigger] self.elems@[j]).start
            < self.elems@[j].end by {
            let a = if j <= k {
                before.elems@[j]
            } else {
                before.elems@[j - 1]
            };
        }
        assert forall|i: int, j: int|
            #![trigger self.elems@[i], self.elems@[j]]
            0 <= i < j < self.elems@.len() implies self.elems@[i].end <= self.elems@[j].start by {
            let a = if i <= k {
                before.elems@[i]
            } else {
                before.elems@[i - 1]
            };
            let b = if j <= k {
                before.elems@[j]
            } else {
                before.elems@[j - 1]
            };
            let c = before.elems@[k];
        }
        assert forall|j: int| 0 <= j < self.elems@.len() implies #[trigger] chained(
            self.elems@,
            j,
        ) by {
            let prev = self.elems@[j - 1];
            if j <= k {
                assert(chained(before.elems@, j));
            } else if j > k + 1 {
                assert(chained(before.elems@, j - 1));
            }
        }
        assert forall|i: int| 0 <= i < before.size implies self@[i] == before@[i] by {
            before.lemma_covered(i);
            let j = locate(before.elems@, i);
            before.lemma_view(j, i);
            let m = if j < k || (j == k && i < offset) {
                j
            } else {
                j + 1
            };
            let a = self.elems@[m];
            assert(holds(self.elems@, m, i));
            self.lemma_view(m, i);
        }
        assert(self@ =~= before@);
    }
}

} // verus!
