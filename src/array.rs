//! A borrowed, read-only view of segment data and the values it indexes.
use core::cmp::Ordering;
use vstd::prelude::*;
use vstd::std_specs::cmp::OrdSpec;
use vstd::std_specs::iter::IteratorSpec;

use crate::index::{index_laws, key_le, key_lt, order_laws, NciIndex};
use crate::builder::strictly_increasing;
use crate::invariants::check_segment_data_invariants;
use crate::iter::{NciArrayEntryIter, NciArrayIndexIter};
use crate::segments::{
    keys_of, lemma_below_first, lemma_index_of, lemma_keys_increasing, lemma_lookup, segment_len,
    segments_valid,
};

verus! {

/// A read-only array whose values are indexed by a sparse, ordered key domain.
///
/// Values are stored densely; runs of consecutive keys (segments) are described by
/// the key and the storage index at which each run begins.
#[derive(Debug, Clone, Copy)]
pub struct NciArray<'a, I, V> {
    /// The key of the first element of each segment.
    pub segments_idx_begin: &'a [I],
    /// The storage index of the first element of each segment.
    pub segments_mem_idx_begin: &'a [usize],
    /// All values, in key order.
    pub values: &'a [V],
}

impl<'a, I, V> NciArray<'a, I, V> {
    /// An array over the given segment data and values.
    pub fn new(
        segments_idx_begin: &'a [I],
        segments_mem_idx_begin: &'a [usize],
        values: &'a [V],
    ) -> (r: Self)
        ensures
            r.segments_idx_begin@ == segments_idx_begin@,
            r.segments_mem_idx_begin@ == segments_mem_idx_begin@,
            r.values@ == values@,
    {
        NciArray { segments_idx_begin, segments_mem_idx_begin, values }
    }
}

impl<'a, I, V> Default for NciArray<'a, I, V> {
    /// The empty array.
    fn default() -> (r: Self)
        ensures
            r.segments_idx_begin@.len() == 0,
            r.segments_mem_idx_begin@.len() == 0,
            r.values@.len() == 0,
    {
        NciArray { segments_idx_begin: &[], segments_mem_idx_begin: &[], values: &[] }
    }
}

impl<'a, I: NciIndex, V> NciArray<'a, I, V> {
    /// The key type obeys its contract, and the segment data satisfies every invariant
    /// that lookups and iteration rely on.
    pub open spec fn wf(&self) -> bool {
        index_laws::<I>() && segments_valid(self.segments_idx_begin@, self.segments_mem_idx_begin@, self.values@.len())
    }

    /// The key of every stored value, in storage order.
    pub open spec fn keys(&self) -> Seq<I> {
        keys_of(self.segments_idx_begin@, self.segments_mem_idx_begin@, self.values@.len())
    }

    /// Every key that iteration yields is found by lookup, at the position of the value
    /// that iteration pairs it with.
    pub proof fn lemma_lookup_agrees_with_iteration(&self)
        requires
            self.wf(),
        ensures
            forall|j: int|
                0 <= j < self.values@.len() ==> self.keys().contains(#[trigger] self.keys()[j])
                    && self.keys().index_of(self.keys()[j]) == j,
    {
        assert forall|j: int| 0 <= j < self.values@.len() implies self.keys().contains(
            #[trigger] self.keys()[j],
        ) && self.keys().index_of(self.keys()[j]) == j by {
            lemma_index_of(
                self.segments_idx_begin@,
                self.segments_mem_idx_begin@,
                self.values@.len(),
                j,
            );
        }
    }

    /// There is one key for each stored value.
    pub proof fn lemma_exact_count(&self)
        ensures
            self.keys().len() == self.values@.len(),
    {
    }

    /// The keys increase strictly in storage order.
    pub proof fn lemma_keys_strictly_increasing(&self)
        requires
            self.wf(),
        ensures
            forall|i: int, j: int|
                0 <= i < j < self.values@.len() ==> key_lt(
                    #[trigger] self.keys()[i],
                    #[trigger] self.keys()[j],
                ),
    {
        assert forall|i: int, j: int| 0 <= i < j < self.values@.len() implies key_lt(
            #[trigger] self.keys()[i],
            #[trigger] self.keys()[j],
        ) by {
            lemma_keys_increasing(
                self.segments_idx_begin@,
                self.segments_mem_idx_begin@,
                self.values@.len(),
                i,
                j,
            );
        }
    }

    /// An iterator over the stored values, in storage order.
    pub fn values(&self) -> (r: core::slice::Iter<'a, V>)
        ensures
            r.remaining() == self.values@.as_ref(),
    {
        self.values.iter()
    }

    /// An iterator over the keys of the stored values, in storage order.
    pub fn indices(&self) -> (r: NciArrayIndexIter<'a, I>)
        ensures
            r.inv(),
            r.remaining_len() <= self.values@.len(),
            self.segments_idx_begin@.len() > 0 && self.segments_mem_idx_begin@.len() > 0
                ==> r.remaining_len() == self.values@.len(),
            self.segments_idx_begin@.len() == 0 || self.segments_mem_idx_begin@.len() == 0
                ==> r.remaining_len() == 0,
            r.remaining_len() > 0 ==> {
                &&& r.pending() == Some(self.segments_idx_begin@[0])
                &&& r.position() == 0
                &&& r.next_segment() == 1
                &&& r.segment_starts() == self.segments_idx_begin@
                &&& r.storage_starts() == self.segments_mem_idx_begin@
            },
            self.wf() ==> r.valid() && r@ == self.keys() && r.remaining_len() == self.values@.len(),
    {
        NciArrayIndexIter::new(self)
    }

    /// An iterator over the stored keys paired with their values, in storage order.
    pub fn entries(&self) -> (r: NciArrayEntryIter<'a, I, V>)
        ensures
            r.inv(),
            r.remaining_len() <= self.values@.len(),
            self.segments_idx_begin@.len() > 0 && self.segments_mem_idx_begin@.len() > 0
                ==> r.remaining_len() == self.values@.len(),
            self.segments_idx_begin@.len() == 0 || self.segments_mem_idx_begin@.len() == 0
                ==> r.remaining_len() == 0,
            r.values_left() == self.values@,
            r.remaining_len() > 0 ==> {
                &&& r.key_iter().pending() == Some(self.segments_idx_begin@[0])
                &&& r.key_iter().position() == 0
                &&& r.key_iter().next_segment() == 1
                &&& r.key_iter().segment_starts() == self.segments_idx_begin@
                &&& r.key_iter().storage_starts() == self.segments_mem_idx_begin@
            },
            self.wf() ==> r.valid() && r@ == self.keys().zip_with(self.values@) && r.remaining_len()
                == self.values@.len(),
    {
        NciArrayEntryIter::new(self)
    }

    /// Whether the segment data satisfies every invariant, as the validator finds; for a
    /// key type that obeys its contract, whether the array is well formed.
    pub fn fulfills_invariants(&self) -> (r: bool)
        ensures
            order_laws::<I>() ==> (r <==> segments_valid(
                self.segments_idx_begin@,
                self.segments_mem_idx_begin@,
                self.values@.len(),
            )),
            index_laws::<I>() ==> r == self.wf(),
    {
        check_segment_data_invariants(
            self.segments_idx_begin,
            self.segments_mem_idx_begin,
            self.values.len(),
        ).is_ok()
    }

    /// Whether a value is stored under `index`.
    pub fn has_entry(&self, index: I) -> (r: bool)
        ensures
            order_laws::<I>() && strictly_increasing(self.segments_idx_begin@) && (
                self.segments_idx_begin@.len() == 0 || key_lt(index, self.segments_idx_begin@[0])) ==> !r,
            self.wf() ==> r == self.keys().contains(index),
    {
        self.storage_index(index).is_some()
    }

    /// The value stored under `index`, if any.
    pub fn get(&self, index: I) -> (r: Option<&'a V>)
        ensures
            order_laws::<I>() && strictly_increasing(self.segments_idx_begin@) && (
                self.segments_idx_begin@.len() == 0 || key_lt(index, self.segments_idx_begin@[0])) ==> r is None,
            self.wf() ==> match r {
                Some(v) => self.keys().contains(index) && *v == self.values@[self.keys().index_of(
                    index,
                )],
                None => !self.keys().contains(index),
            },
    {
        match self.storage_index(index) {
            Some(j) => Some(&self.values[j]),
            None => None,
        }
    }

    /// The storage index of the value stored under `index`, if any.
    fn storage_index(&self, index: I) -> (r: Option<usize>)
        ensures
            order_laws::<I>() && strictly_increasing(self.segments_idx_begin@) && (
                self.segments_idx_begin@.len() == 0 || key_lt(index, self.segments_idx_begin@[0])) ==> r is None,
            r matches Some(j) ==> j < self.values@.len(),
            self.wf() ==> r == if self.keys().contains(index) {
                Some(self.keys().index_of(index) as usize)
            } else {
                None::<usize>
            },
    {
        let ghost starts = self.segments_idx_begin@;
        let ghost mem = self.segments_mem_idx_begin@;
        let ghost n = self.values@.len();
        let segment = match self.find_candidate_segment(index) {
            Some(segment) => segment,
            None => {
                proof {
                    if self.wf() {
                        lemma_below_first(starts, mem, n, index);
                    }
                }
                return None;
            },
        };
        if segment >= self.segments_mem_idx_begin.len() {
            return None;
        }
        let len = match self.segment_len(segment) {
            Some(len) => len,
            None => return None,
        };
        proof {
            if self.wf() {
                lemma_lookup(starts, mem, n, segment as int, index);
            }
        }
        match self.segments_idx_begin[segment].distance(index) {
            Some(distance) => {
                if distance >= len {
                    return None;
                }
                let j = self.segments_mem_idx_begin[segment] + distance;
                if j >= self.values.len() {
                    return None;
                }
                Some(j)
            },
            None => None,
        }
    }

    /// The segment that could hold `index`: the last one whose start key is not above
    /// it, found by binary search over the start keys.
    fn find_candidate_segment(&self, index: I) -> (r: Option<usize>)
        ensures
            r matches Some(s) ==> s < self.segments_idx_begin@.len(),
            order_laws::<I>() && strictly_increasing(self.segments_idx_begin@) && (
                self.segments_idx_begin@.len() == 0 || key_lt(index, self.segments_idx_begin@[0])) ==> r is None,
            order_laws::<I>() ==> match r {
                Some(s) => {
                    &&& s < self.segments_idx_begin@.len()
                    &&& key_le(self.segments_idx_begin@[s as int], index)
                    &&& s + 1 < self.segments_idx_begin@.len() ==> key_lt(
                        index,
                        self.segments_idx_begin@[s + 1],
                    )
                },
                None => self.segments_idx_begin@.len() > 0 ==> key_lt(
                    index,
                    self.segments_idx_begin@[0],
                ),
            },
    {
        let starts = self.segments_idx_begin;
        let mut lo: usize = 0;
        let mut hi: usize = starts.len();
        while lo < hi
            invariant
                lo <= hi <= starts@.len(),
                order_laws::<I>() ==> (lo > 0 ==> key_le(starts@[lo - 1], index)),
                order_laws::<I>() ==> (hi < starts@.len() ==> key_lt(index, starts@[hi as int])),
            decreases hi - lo,
        {
            let mid = lo + (hi - lo) / 2;
            match index.cmp(&starts[mid]) {
                Ordering::Less => {
                    hi = mid;
                },
                _ => {
                    lo = mid + 1;
                },
            }
        }
        if lo == 0 {
            None
        } else {
            proof {
                if order_laws::<I>() && strictly_increasing(starts@) && lo > 1 {
                    assert(key_lt(starts@[0], starts@[lo - 1]));
                }
            }
            Some(lo - 1)
        }
    }

    /// The number of values in segment `segment`, or `None` where its storage
    /// start lies beyond its end.
    fn segment_len(&self, segment: usize) -> (r: Option<usize>)
        requires
            segment < self.segments_mem_idx_begin@.len(),
        ensures
            segment_len(self.segments_mem_idx_begin@, self.values@.len(), segment as int) >= 0
                ==> r == Some(
                segment_len(
                    self.segments_mem_idx_begin@,
                    self.values@.len(),
                    segment as int,
                ) as usize,
            ),
            r matches Some(len) ==> len == segment_len(
                self.segments_mem_idx_begin@,
                self.values@.len(),
                segment as int,
            ),
            r matches Some(len) ==> self.segments_mem_idx_begin@[segment as int] + len
                <= usize::MAX,
    {
        let mem_idx_begin = self.segments_mem_idx_begin[segment];
        let mem_idx_end = if segment + 1 < self.segments_mem_idx_begin.len() {
            self.segments_mem_idx_begin[segment + 1]
        } else {
            self.values.len()
        };
        mem_idx_end.checked_sub(mem_idx_begin)
    }
}

} // verus!
