//! Iteration over the keys and entries of an array, in storage order.
use vstd::prelude::*;

use crate::array::NciArray;
use crate::index::{index_laws, NciIndex};
use crate::segments::{in_segment, keys_of, lemma_key_at, lemma_next_key, segments_valid};

verus! {

/// The state of a key iterator that has keys left.
#[derive(Clone, Copy)]
pub struct NciArrayIndexIterData<'a, I> {
    current_idx: I,
    current_mem_idx: usize,
    segments_idx_begin: &'a [I],
    segments_mem_idx_begin: &'a [usize],
    next_segment: usize,
    mem_idx_end: usize,
}

/// An iterator over the keys of an array, in storage order.
pub enum NciArrayIndexIter<'a, I> {
    NonEmpty(NciArrayIndexIterData<'a, I>),
    Empty,
}

impl<'a, I: NciIndex> NciArrayIndexIter<'a, I> {
    /// The iterator's state is consistent: a pending key has a storage index in range.
    pub closed spec fn inv(&self) -> bool {
        match self {
            NciArrayIndexIter::NonEmpty(d) => d.current_mem_idx < d.mem_idx_end,
            NciArrayIndexIter::Empty => true,
        }
    }

    /// How many keys are left.
    pub closed spec fn remaining_len(&self) -> nat {
        match self {
            NciArrayIndexIter::NonEmpty(d) => (d.mem_idx_end - d.current_mem_idx) as nat,
            NciArrayIndexIter::Empty => 0,
        }
    }

    /// The key type obeys its contract, the iterator walks valid segment data, and its
    /// pending key is the model's key
    /// at its storage index.
    pub closed spec fn valid(&self) -> bool {
        match self {
            NciArrayIndexIter::NonEmpty(d) => {
                let starts = d.segments_idx_begin@;
                let mem = d.segments_mem_idx_begin@;
                &&& index_laws::<I>()
                &&& segments_valid(starts, mem, d.mem_idx_end as nat)
                &&& 1 <= d.next_segment <= starts.len()
                &&& in_segment(
                    mem,
                    d.mem_idx_end as nat,
                    d.next_segment - 1,
                    d.current_mem_idx as int,
                )
                &&& d.current_idx == keys_of(starts, mem, d.mem_idx_end as nat)[d.current_mem_idx as int]
            },
            NciArrayIndexIter::Empty => true,
        }
    }

    /// The key that `next` returns, if any.
    pub closed spec fn pending(&self) -> Option<I> {
        match self {
            NciArrayIndexIter::NonEmpty(d) => Some(d.current_idx),
            NciArrayIndexIter::Empty => None,
        }
    }

    /// The storage index of the pending key.
    pub closed spec fn position(&self) -> nat {
        match self {
            NciArrayIndexIter::NonEmpty(d) => d.current_mem_idx as nat,
            NciArrayIndexIter::Empty => 0,
        }
    }

    /// The segment whose start the iteration jumps to next.
    pub closed spec fn next_segment(&self) -> nat {
        match self {
            NciArrayIndexIter::NonEmpty(d) => d.next_segment as nat,
            NciArrayIndexIter::Empty => 0,
        }
    }

    /// The start keys of the segments walked.
    pub closed spec fn segment_starts(&self) -> Seq<I> {
        match self {
            NciArrayIndexIter::NonEmpty(d) => d.segments_idx_begin@,
            NciArrayIndexIter::Empty => Seq::empty(),
        }
    }

    /// The storage starts of the segments walked.
    pub closed spec fn storage_starts(&self) -> Seq<usize> {
        match self {
            NciArrayIndexIter::NonEmpty(d) => d.segments_mem_idx_begin@,
            NciArrayIndexIter::Empty => Seq::empty(),
        }
    }

    /// After the pending key, iteration jumps to the next segment's start key.
    pub open spec fn jumps(&self) -> bool {
        &&& self.next_segment() < self.segment_starts().len()
        &&& self.next_segment() < self.storage_starts().len()
        &&& self.position() + 1 == self.storage_starts()[self.next_segment() as int]
    }

    /// One step of iteration from `self` returns `r` and leaves `after`: `r` is the
    /// pending key, and where a key is left, the next pending key is the next segment's
    /// start where iteration jumps, and otherwise the successor (or the same key where
    /// there is none).
    pub open spec fn advances_to(&self, after: Self, r: Option<I>) -> bool {
        &&& r == self.pending()
        &&& self.remaining_len() > 0 <==> self.pending() is Some
        &&& self.remaining_len() > 1 ==> {
            &&& after.segment_starts() == self.segment_starts()
            &&& after.storage_starts() == self.storage_starts()
            &&& after.position() == self.position() + 1
            &&& if self.jumps() {
                &&& after.pending() == Some(self.segment_starts()[self.next_segment() as int])
                &&& after.next_segment() == self.next_segment() + 1
            } else {
                &&& after.pending() == Some(
                    match self.pending().unwrap().spec_next() {
                        Some(k) => k,
                        None => self.pending().unwrap(),
                    },
                )
                &&& after.next_segment() == self.next_segment()
            }
        }
    }

    /// The keys still to come.
    pub closed spec fn view(&self) -> Seq<I> {
        match self {
            NciArrayIndexIter::NonEmpty(d) => keys_of(
                d.segments_idx_begin@,
                d.segments_mem_idx_begin@,
                d.mem_idx_end as nat,
            ).subrange(d.current_mem_idx as int, d.mem_idx_end as int),
            NciArrayIndexIter::Empty => Seq::empty(),
        }
    }

    /// An iterator over all keys of `arr`.
    pub fn new<V>(arr: &NciArray<'a, I, V>) -> (r: Self)
        ensures
            r.inv(),
            r.remaining_len() <= arr.values@.len(),
            arr.segments_idx_begin@.len() > 0 && arr.segments_mem_idx_begin@.len() > 0
                ==> r.remaining_len() == arr.values@.len(),
            arr.segments_idx_begin@.len() == 0 || arr.segments_mem_idx_begin@.len() == 0
                ==> r.remaining_len() == 0,
            r.remaining_len() > 0 ==> {
                &&& r.pending() == Some(arr.segments_idx_begin@[0])
                &&& r.position() == 0
                &&& r.next_segment() == 1
                &&& r.segment_starts() == arr.segments_idx_begin@
                &&& r.storage_starts() == arr.segments_mem_idx_begin@
            },
            arr.wf() ==> r.valid() && r@ == arr.keys(),
    {
        let mem_idx_end = arr.values.len();
        if mem_idx_end == 0 || arr.segments_idx_begin.len() == 0
            || arr.segments_mem_idx_begin.len() == 0 {
            proof {
                if arr.wf() {
                    assert(arr.keys() =~= Seq::empty());
                }
            }
            return NciArrayIndexIter::Empty;
        }
        let r = NciArrayIndexIter::NonEmpty(
            NciArrayIndexIterData {
                current_idx: arr.segments_idx_begin[0],
                current_mem_idx: 0,
                segments_idx_begin: arr.segments_idx_begin,
                segments_mem_idx_begin: arr.segments_mem_idx_begin,
                next_segment: 1,
                mem_idx_end,
            },
        );
        proof {
            if arr.wf() {
                lemma_key_at(
                    arr.segments_idx_begin@,
                    arr.segments_mem_idx_begin@,
                    arr.values@.len(),
                    0,
                    0,
                );
                assert(r@ =~= arr.keys());
            }
        }
        r
    }

    /// The view holds exactly the keys that are left.
    pub proof fn lemma_view_len(&self)
        requires
            self.inv(),
        ensures
            self@.len() == self.remaining_len(),
    {
    }

    /// The number of keys left.
    pub fn len(&self) -> (r: usize)
        requires
            self.inv(),
        ensures
            r == self.remaining_len(),
    {
        match self {
            NciArrayIndexIter::NonEmpty(d) => d.mem_idx_end - d.current_mem_idx,
            NciArrayIndexIter::Empty => 0,
        }
    }

    /// The next key, or `None` once all keys have been returned.
    pub fn next(&mut self) -> (r: Option<I>)
        requires
            old(self).inv(),
        ensures
            final(self).inv(),
            old(self).remaining_len() == 0 ==> r is None && final(self).remaining_len() == 0,
            old(self).remaining_len() > 0 ==> r is Some && final(self).remaining_len() == old(
                self,
            ).remaining_len() - 1,
            old(self).advances_to(*final(self), r),
            old(self).valid() ==> {
                &&& final(self).valid()
                &&& old(self)@.len() == old(self).remaining_len()
                &&& old(self)@.len() > 0 ==> r == Some(old(self)@[0]) && final(self)@ == old(
                    self,
                )@.drop_first()
            },
    {
        let mut d = match *self {
            NciArrayIndexIter::NonEmpty(d) => d,
            NciArrayIndexIter::Empty => return None,
        };
        let ghost starts = d.segments_idx_begin@;
        let ghost mem = d.segments_mem_idx_begin@;
        let ghost n = d.mem_idx_end as nat;
        let result = d.current_idx;
        let next_mem_idx = d.current_mem_idx + 1;
        if next_mem_idx == d.mem_idx_end {
            *self = NciArrayIndexIter::Empty;
            return Some(result);
        }
        proof {
            if old(self).valid() {
                lemma_next_key(
                    starts,
                    mem,
                    n,
                    d.next_segment - 1,
                    d.current_mem_idx as int,
                );
            }
        }
        d.current_mem_idx = next_mem_idx;
        if d.next_segment < d.segments_idx_begin.len() && d.next_segment
            < d.segments_mem_idx_begin.len() && next_mem_idx
            == d.segments_mem_idx_begin[d.next_segment] {
            // Crossing a gap: the next key is the next segment's start.
            d.current_idx = d.segments_idx_begin[d.next_segment];
            d.next_segment = d.next_segment + 1;
        } else {
            // Within a segment: the next key is the successor.
            d.current_idx = match result.next() {
                Some(k) => k,
                None => result,
            };
        }
        *self = NciArrayIndexIter::NonEmpty(d);
        proof {
            if old(self).valid() {
                assert(self@ =~= old(self)@.drop_first());
            }
        }
        Some(result)
    }
}


/// An iterator over the entries of an array: each key with its value, in storage order.
pub struct NciArrayEntryIter<'a, I, V> {
    indices: NciArrayIndexIter<'a, I>,
    values: &'a [V],
    position: usize,
}

impl<'a, I: NciIndex, V> NciArrayEntryIter<'a, I, V> {
    /// The key iterator is consistent and the value position keeps pace with it.
    pub closed spec fn inv(&self) -> bool {
        &&& self.indices.inv()
        &&& self.position + self.indices.remaining_len() <= self.values@.len()
    }

    /// How many entries are left.
    pub closed spec fn remaining_len(&self) -> nat {
        self.indices.remaining_len()
    }

    /// The iterator over the keys still to come.
    pub closed spec fn key_iter(&self) -> NciArrayIndexIter<'a, I> {
        self.indices
    }

    /// The values still to come.
    pub closed spec fn values_left(&self) -> Seq<V> {
        self.values@.skip(self.position as int)
    }

    /// The iterator walks valid segment data.
    pub closed spec fn valid(&self) -> bool {
        self.indices.valid()
    }

    /// The entries still to come.
    pub closed spec fn view(&self) -> Seq<(I, V)> {
        Seq::new(
            self.indices@.len(),
            |i: int| (self.indices@[i], self.values@[self.position + i]),
        )
    }

    /// An iterator over all entries of `arr`.
    pub fn new<'b>(arr: &'b NciArray<'a, I, V>) -> (r: Self)
        ensures
            r.inv(),
            r.remaining_len() <= arr.values@.len(),
            arr.segments_idx_begin@.len() > 0 && arr.segments_mem_idx_begin@.len() > 0
                ==> r.remaining_len() == arr.values@.len(),
            arr.segments_idx_begin@.len() == 0 || arr.segments_mem_idx_begin@.len() == 0
                ==> r.remaining_len() == 0,
            r.values_left() == arr.values@,
            r.remaining_len() > 0 ==> {
                &&& r.key_iter().pending() == Some(arr.segments_idx_begin@[0])
                &&& r.key_iter().position() == 0
                &&& r.key_iter().next_segment() == 1
                &&& r.key_iter().segment_starts() == arr.segments_idx_begin@
                &&& r.key_iter().storage_starts() == arr.segments_mem_idx_begin@
            },
            arr.wf() ==> r.valid() && r@ == arr.keys().zip_with(arr.values@),
    {
        let r = NciArrayEntryIter { indices: NciArrayIndexIter::new(arr), values: arr.values, position: 0 };
        proof {
            if arr.wf() {
                assert(r@ =~= arr.keys().zip_with(arr.values@));
            }
        }
        r
    }

    /// The number of entries left.
    pub fn len(&self) -> (r: usize)
        requires
            self.inv(),
        ensures
            r == self.remaining_len(),
    {
        self.indices.len()
    }

    /// The next key and its value, or `None` once all entries have been returned.
    pub fn next(&mut self) -> (r: Option<(I, &'a V)>)
        requires
            old(self).inv(),
        ensures
            final(self).inv(),
            old(self).remaining_len() == 0 ==> r is None && final(self).remaining_len() == 0,
            old(self).remaining_len() > 0 ==> r is Some && final(self).remaining_len() == old(
                self,
            ).remaining_len() - 1,
            old(self).key_iter().advances_to(final(self).key_iter(), match r {
                Some(e) => Some(e.0),
                None => None,
            }),
            r matches Some((k, v)) ==> *v == old(self).values_left()[0] && final(self).values_left()
                == old(self).values_left().drop_first(),
            old(self).valid() ==> {
                &&& final(self).valid()
                &&& old(self)@.len() == old(self).remaining_len()
                &&& old(self)@.len() > 0 ==> (r matches Some((k, v)) && (k, *v) == old(self)@[0]
                    && final(self)@ == old(self)@.drop_first())
            },
    {
        proof {
            self.indices.lemma_view_len();
        }
        match self.indices.next() {
            Some(k) => {
                let v = &self.values[self.position];
                self.position = self.position + 1;
                proof {
                    assert(self.values_left() =~= old(self).values_left().drop_first());
                    if old(self).valid() {
                        assert(self@ =~= old(self)@.drop_first());
                    }
                }
                Some((k, v))
            },
            None => None,
        }
    }
}

} // verus!
