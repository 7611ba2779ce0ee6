//! Building segment data from unordered entries.
use core::cmp::Ordering;
use core::fmt::Write;
use vstd::prelude::*;
use vstd::std_specs::cmp::OrdSpec;

use crate::index::{distance_laws, index_laws, key_le, key_lt, order_laws, NciIndex};
use crate::render::{
    decimal_text, decimals, render_segment_data, segment_data_text, texts_view,
    BuildConfiguration, ValueFormatting,
};
use crate::segments::{
    emptiness_consistent, keys_of, lemma_covered, offset_distance_correct, offset_in_range,
    offset_separated, offsets_generable,
    offsets_separated, segment_end, segment_len, segment_of, segments_minimal, segments_valid, steps,
    storage_in_bounds, strictly_monotonic,
};

verus! {

/// The keys of a sequence of entries.
pub open spec fn entry_keys<I, V>(entries: Seq<(I, V)>) -> Seq<I> {
    entries.map_values(|e: (I, V)| e.0)
}

/// The keys increase strictly.
pub open spec fn strictly_increasing<I: NciIndex>(keys: Seq<I>) -> bool {
    forall|i: int, j: int| 0 <= i < j < keys.len() ==> key_lt(#[trigger] keys[i], #[trigger] keys[j])
}

/// The key at position `p` begins a segment: it is the first key, or its predecessor
/// is not one successor step below it.
pub open spec fn starts_segment<I: NciIndex>(keys: Seq<I>, p: int) -> bool {
    p == 0 || keys[p - 1].spec_distance(keys[p]) != Some(1usize)
}

/// `starts` and `mem` list, in increasing order, every position of `keys` that
/// begins a segment, and the key at it.
pub open spec fn segmentation_of<I: NciIndex>(
    keys: Seq<I>,
    starts: Seq<I>,
    mem: Seq<usize>,
) -> bool {
    &&& starts.len() == mem.len()
    &&& forall|s: int| 0 <= s < mem.len() ==> #[trigger] mem[s] < keys.len()
    &&& forall|s: int| 0 <= s < mem.len() ==> #[trigger] starts[s] == keys[mem[s] as int]
    &&& forall|a: int, b: int| 0 <= a < b < mem.len() ==> #[trigger] mem[a] < #[trigger] mem[b]
    &&& forall|p: int| 0 <= p < keys.len() ==> (starts_segment(keys, p) <==> mem.contains(p as usize))
}

/// Within a segment, every position after the first continues the segment.
proof fn lemma_within_segment<I: NciIndex>(keys: Seq<I>, starts: Seq<I>, mem: Seq<usize>, s: int, p: int)
    requires
        segmentation_of(keys, starts, mem),
        keys.len() <= usize::MAX,
        0 <= s < mem.len(),
        mem[s] < p < segment_end(mem, keys.len(), s),
        p < keys.len(),
    ensures
        keys[p - 1].spec_distance(keys[p]) == Some(1usize),
{
    if starts_segment(keys, p) {
        let t = choose|t: int| 0 <= t < mem.len() && mem[t] == p as usize;
        if t < s {
            assert(mem[t] < mem[s]);
        } else if t > s + 1 {
            assert(mem[s + 1] < mem[t]);
        }
    }
}

/// What a segmentation says of segment `s`: it starts at its start key, lies within
/// the keys, and each of its later keys is one step after the one before.
proof fn lemma_segment_facts<I: NciIndex>(keys: Seq<I>, starts: Seq<I>, mem: Seq<usize>, s: int)
    requires
        segmentation_of(keys, starts, mem),
        keys.len() <= usize::MAX,
        0 <= s < mem.len(),
    ensures
        starts[s] == keys[mem[s] as int],
        mem[s] < segment_end(mem, keys.len(), s) <= keys.len(),
        forall|p: int|
            mem[s] < p < segment_end(mem, keys.len(), s) ==> keys[p - 1].spec_distance(
                #[trigger] keys[p],
            ) == Some(1usize),
{
    assert(mem[s] < keys.len());
    if s + 1 < mem.len() {
        assert(mem[s + 1] < keys.len());
        assert(mem[s] < mem[s + 1]);
    }
    assert forall|p: int| mem[s] < p < segment_end(mem, keys.len(), s) implies keys[p
        - 1].spec_distance(#[trigger] keys[p]) == Some(1usize) by {
        lemma_within_segment(keys, starts, mem, s, p);
    }
}

/// The keys of segment `s` are its start's successors, at the distances of their
/// storage offsets.
proof fn lemma_run<I: NciIndex>(keys: Seq<I>, starts: Seq<I>, mem: Seq<usize>, s: int, o: int)
    requires
        distance_laws::<I>(),
        0 <= s < mem.len(),
        starts[s] == keys[mem[s] as int],
        segment_end(mem, keys.len(), s) <= keys.len(),
        keys.len() <= usize::MAX,
        forall|p: int|
            mem[s] < p < segment_end(mem, keys.len(), s) ==> keys[p - 1].spec_distance(
                #[trigger] keys[p],
            ) == Some(1usize),
        0 <= o < segment_len(mem, keys.len(), s),
    ensures
        mem[s] + o < keys.len(),
        steps(starts[s], o as nat) == Some(keys[mem[s] + o]),
        starts[s].spec_distance(keys[mem[s] + o]) == Some(o as usize),
    decreases o,
{
    let start = starts[s];
    if o == 0 {
        assert(start.spec_distance(start) == Some(0usize));
    } else {
        lemma_run(keys, starts, mem, s, o - 1);
        let q = mem[s] + o - 1;
        let a = keys[q];
        let b = keys[q + 1];
        assert(a.spec_distance(b) == Some(1usize));
        let m = a.spec_next().unwrap();
        assert(m.spec_distance(b) == Some(0usize));
        assert(steps(start, o as nat) == match steps(start, (o - 1) as nat) {
            Some(j) => j.spec_next(),
            None => None,
        });
        assert(start.spec_distance(a) == Some((o - 1) as usize));
    }
}

/// Segment data built from strictly increasing keys satisfies every invariant, and
/// the array over it holds exactly those keys, in order.
pub proof fn lemma_segmentation_valid<I: NciIndex>(keys: Seq<I>, starts: Seq<I>, mem: Seq<usize>)
    requires
        index_laws::<I>(),
        strictly_increasing(keys),
        keys.len() <= usize::MAX,
        segmentation_of(keys, starts, mem),
    ensures
        segments_valid(starts, mem, keys.len()),
        keys_of(starts, mem, keys.len()) == keys,
{
    let n = keys.len();
    if mem.len() > 0 {
        assert(mem[0] < n);
    }
    if n > 0 {
        assert(starts_segment(keys, 0));
        assert(mem.contains(0usize));
        let t = choose|t: int| 0 <= t < mem.len() && mem[t] == 0usize;
        if t > 0 {
            assert(mem[0] < mem[t]);
        }
    }
    assert forall|i: int| 0 <= i && i + 1 < starts.len() implies key_lt(
        #[trigger] starts[i],
        starts[i + 1],
    ) && mem[i] < mem[i + 1] by {
        assert(mem[i] < mem[i + 1]);
        assert(key_lt(keys[mem[i] as int], keys[mem[i + 1] as int]));
    }
    assert forall|s: int, o: int|
        0 <= s < starts.len() && 1 <= o < segment_len(mem, n, s) implies #[trigger] offset_separated(
        starts,
        mem,
        n,
        s,
        o,
    ) && steps(starts[s], o as nat) is Some by {
        lemma_segment_facts(keys, starts, mem, s);
        lemma_run(keys, starts, mem, s, o);
        assert(key_lt(keys[mem[s] as int], keys[mem[s] + o]));
        if s + 1 < starts.len() {
            assert(key_lt(keys[mem[s] + o], keys[mem[s + 1] as int]));
        }
    }
    assert forall|s: int, o: int|
        0 <= s < starts.len() && 1 <= o < segment_len(mem, n, s) implies #[trigger] steps(
        starts[s],
        o as nat,
    ) is Some by {
        assert(offset_separated(starts, mem, n, s, o));
    }
    assert forall|s: int| 0 <= s && s + 1 < starts.len() implies steps(
        #[trigger] starts[s],
        segment_len(mem, n, s) as nat,
    ) != Some(starts[s + 1]) by {
        let len = segment_len(mem, n, s);
        assert(mem[s] < mem[s + 1]);
        lemma_segment_facts(keys, starts, mem, s);
        lemma_run(keys, starts, mem, s, len - 1);
        let q = mem[s + 1] - 1;
        let a = keys[q];
        assert(steps(starts[s], len as nat) == match steps(starts[s], (len - 1) as nat) {
            Some(j) => j.spec_next(),
            None => None,
        });
        if steps(starts[s], len as nat) == Some(starts[s + 1]) {
            assert(a.spec_distance(a) == Some(0usize));
            assert(a.spec_distance(keys[q + 1]) == Some(1usize));
            assert(mem.contains(mem[s + 1]));
            assert(starts_segment(keys, q + 1));
        }
    }
    assert(emptiness_consistent(starts.len(), mem.len(), n));
    assert(mem.len() > 0 ==> mem[0] == 0);
    assert(storage_in_bounds(mem, n));
    assert(strictly_monotonic(starts, mem));
    assert forall|s: int, o: int|
        0 <= s < starts.len() && 1 <= o < segment_len(mem, n, s) implies #[trigger] offset_in_range(
        starts,
        mem,
        n,
        s,
        o,
    ) by {
        assert(offset_separated(starts, mem, n, s, o));
    }
    assert forall|s: int, o: int|
        0 <= s < starts.len() && 1 <= o < segment_len(mem, n, s)
            implies #[trigger] offset_distance_correct(starts, mem, n, s, o) by {
        assert(offset_separated(starts, mem, n, s, o));
    }
    assert(offsets_separated(starts, mem, n));
    assert(segments_minimal(starts, mem, n));
    assert(offsets_generable(starts, mem, n));
    assert forall|j: int| 0 <= j < n implies #[trigger] keys_of(starts, mem, n)[j] == keys[j] by {
        lemma_covered(starts, mem, n, 0, j);
        let s = segment_of(mem, n, j);
        lemma_segment_facts(keys, starts, mem, s);
        lemma_run(keys, starts, mem, s, j - mem[s]);
    }
    assert(keys_of(starts, mem, n) =~= keys);
}

/// The first entry for each key, in insertion order: the entries whose key no
/// earlier entry has.
pub open spec fn first_entries<I, V>(entries: Seq<(I, V)>) -> Seq<(I, V)>
    decreases entries.len(),
{
    if entries.len() == 0 {
        entries
    } else {
        let prefix = entries.drop_last();
        if entry_keys(prefix).contains(entries.last().0) {
            first_entries(prefix)
        } else {
            first_entries(prefix).push(entries.last())
        }
    }
}

/// A sequence with one more element holds what the sequence held, and that element.
proof fn lemma_push_contains<A>(s: Seq<A>, x: A, y: A)
    ensures
        s.push(x).contains(y) <==> (s.contains(y) || x == y),
{
    if s.push(x).contains(y) {
        let j = choose|j: int| 0 <= j < s.len() + 1 && s.push(x)[j] == y;
        if j < s.len() {
            assert(s[j] == y);
        }
    }
    if s.contains(y) {
        let j = choose|j: int| 0 <= j < s.len() && s[j] == y;
        assert(s.push(x)[j] == y);
    }
    if x == y {
        assert(s.push(x)[s.len() as int] == y);
    }
}

/// Keeping the first entry for each key keeps every key.
proof fn lemma_first_entries_keys<I, V>(entries: Seq<(I, V)>, key: I)
    ensures
        entry_keys(first_entries(entries)).contains(key) <==> entry_keys(entries).contains(key),
    decreases entries.len(),
{
    if entries.len() > 0 {
        let prefix = entries.drop_last();
        let last = entries.last();
        lemma_first_entries_keys(prefix, key);
        let f = first_entries(prefix);
        assert(entry_keys(entries) =~= entry_keys(prefix).push(last.0));
        assert(entry_keys(f.push(last)) =~= entry_keys(f).push(last.0));
        lemma_push_contains(entry_keys(prefix), last.0, key);
        lemma_push_contains(entry_keys(f), last.0, key);
    }
}

/// The entries with key `k`, in their order.
pub open spec fn entries_with_key<I, V>(entries: Seq<(I, V)>, k: I) -> Seq<(I, V)> {
    entries.filter(|e: (I, V)| e.0 == k)
}

/// Relies on `slice::sort_by_key`: the entries come out as a permutation of those that
/// went in, ordered by key. The sort compares keys with `PartialOrd`, which
/// `index_laws` (through `order_laws`) ties to `cmp`; it does not panic on a total order.
/// The sort is stable: entries with equal keys keep their order.
#[verifier::external_body]
fn sort_by_index<I: NciIndex, V>(entries: &mut Vec<(I, V)>)
    requires
        index_laws::<I>(),
    ensures
        final(entries)@.len() == old(entries)@.len(),
        final(entries)@.to_multiset() == old(entries)@.to_multiset(),
        forall|k: I| #[trigger] entries_with_key(final(entries)@, k) == entries_with_key(
            old(entries)@,
            k,
        ),
        forall|i: int, j: int|
            0 <= i < j < final(entries)@.len() ==> key_le(
                #[trigger] final(entries)@[i].0,
                #[trigger] final(entries)@[j].0,
            ),
{
    entries.sort_by_key(|e| e.0)
}

/// The segment data of entries in key order: a segment begins at each key whose
/// predecessor is not one step below it. Where the keys increase strictly, this is
/// valid segment data whose array holds exactly those keys.
pub fn segment_data<I: NciIndex, V>(entries: &Vec<(I, V)>) -> (r: (Vec<I>, Vec<usize>))
    ensures
        segmentation_of(entry_keys(entries@), r.0@, r.1@),
        index_laws::<I>() && strictly_increasing(entry_keys(entries@)) ==> segments_valid(
            r.0@,
            r.1@,
            entries@.len(),
        ) && keys_of(r.0@, r.1@, entries@.len()) == entry_keys(entries@),
{
    let ghost keys = entry_keys(entries@);
    let mut segments_idx_begin: Vec<I> = Vec::new();
    let mut segments_mem_idx_begin: Vec<usize> = Vec::new();
    let mut mem_idx: usize = 0;
    while mem_idx < entries.len()
        invariant
            keys == entry_keys(entries@),
            mem_idx <= entries@.len(),
            segments_idx_begin@.len() == segments_mem_idx_begin@.len(),
            forall|s: int|
                0 <= s < segments_mem_idx_begin@.len() ==> #[trigger] segments_mem_idx_begin@[s]
                    < mem_idx,
            forall|s: int|
                0 <= s < segments_mem_idx_begin@.len() ==> #[trigger] segments_idx_begin@[s]
                    == keys[segments_mem_idx_begin@[s] as int],
            forall|a: int, b: int|
                0 <= a < b < segments_mem_idx_begin@.len() ==> #[trigger] segments_mem_idx_begin@[a]
                    < #[trigger] segments_mem_idx_begin@[b],
            forall|p: int|
                0 <= p < mem_idx ==> (starts_segment(keys, p) <==> segments_mem_idx_begin@.contains(
                    p as usize,
                )),
        decreases entries@.len() - mem_idx,
    {
        let new_segment = if mem_idx == 0 {
            true
        } else {
            match entries[mem_idx - 1].0.distance(entries[mem_idx].0) {
                Some(d) => d != 1,
                None => true,
            }
        };
        let ghost before = segments_mem_idx_begin@;
        if new_segment {
            segments_idx_begin.push(entries[mem_idx].0);
            segments_mem_idx_begin.push(mem_idx);
        }
        proof {
            assert forall|p: int| 0 <= p < mem_idx + 1 implies (starts_segment(keys, p)
                <==> segments_mem_idx_begin@.contains(p as usize)) by {
                if p < mem_idx {
                    if before.contains(p as usize) {
                        let t = choose|t: int| 0 <= t < before.len() && before[t] == p as usize;
                        assert(segments_mem_idx_begin@[t] == p as usize);
                    }
                    if segments_mem_idx_begin@.contains(p as usize) {
                        let t = choose|t: int|
                            0 <= t < segments_mem_idx_begin@.len() && segments_mem_idx_begin@[t]
                                == p as usize;
                        if t < before.len() {
                            assert(before[t] == p as usize);
                        }
                    }
                } else if new_segment {
                    assert(segments_mem_idx_begin@[before.len() as int] == mem_idx);
                } else {
                    if segments_mem_idx_begin@.contains(p as usize) {
                        let t = choose|t: int|
                            0 <= t < segments_mem_idx_begin@.len() && segments_mem_idx_begin@[t]
                                == p as usize;
                        assert(before[t] < mem_idx);
                    }
                }
            }
        }
        mem_idx = mem_idx + 1;
    }
    proof {
        if index_laws::<I>() && strictly_increasing(keys) {
            lemma_segmentation_valid(keys, segments_idx_begin@, segments_mem_idx_begin@);
        }
    }
    (segments_idx_begin, segments_mem_idx_begin)
}


/// Relies on `write!` with `{:?}` into a `String`: the value's `Debug` text, or `None`
/// where its `Debug` implementation reports an error.
#[verifier::external_body]
fn debug_text<T: core::fmt::Debug>(value: &T) -> Option<String> {
    let mut text = String::new();
    match write!(text, "{:?}", value) {
        Ok(()) => Some(text),
        Err(_) => None,
    }
}

/// Relies on `write!` with `{:#?}` into a `String`: the value's alternate `Debug`
/// text, or `None` where its `Debug` implementation reports an error.
#[verifier::external_body]
fn debug_alternate_text<T: core::fmt::Debug>(value: &T) -> Option<String> {
    let mut text = String::new();
    match write!(text, "{:#?}", value) {
        Ok(()) => Some(text),
        Err(_) => None,
    }
}

/// Relies on `write!` with `{}` into a `String`: the value's `Display` text, or `None`
/// where its `Display` implementation reports an error.
#[verifier::external_body]
fn display_text<T: core::fmt::Display>(value: &T) -> Option<String> {
    let mut text = String::new();
    match write!(text, "{}", value) {
        Ok(()) => Some(text),
        Err(_) => None,
    }
}

/// Relies on `write!` with `{:#}` into a `String`: the value's alternate `Display`
/// text, or `None` where its `Display` implementation reports an error.
#[verifier::external_body]
fn display_alternate_text<T: core::fmt::Display>(value: &T) -> Option<String> {
    let mut text = String::new();
    match write!(text, "{:#}", value) {
        Ok(()) => Some(text),
        Err(_) => None,
    }
}

/// Why segment data could not be written out.
#[derive(Debug)]
pub enum BuildError<I> {
    /// The key `index` was given more than once.
    DuplicateIndex { index: I },
    /// The `Debug` or `Display` implementation of a key or value reported an error.
    Formatting,
}

/// Collects entries in any order and writes out the segment data of an array that
/// holds them.
pub struct NciArrayBuilder<I, V> {
    entries: Vec<(I, V)>,
}

impl<I: NciIndex, V> NciArrayBuilder<I, V> {
    /// The entries collected so far.
    pub closed spec fn view(&self) -> Seq<(I, V)> {
        self.entries@
    }

    /// A builder with no entries.
    pub fn new() -> (r: Self)
        ensures
            r@ == Seq::<(I, V)>::empty(),
    {
        NciArrayBuilder { entries: Vec::new() }
    }

    /// Adds the value `value` under the key `index`.
    pub fn entry(&mut self, index: I, value: V)
        ensures
            final(self)@ == old(self)@.push((index, value)),
    {
        self.entries.push((index, value));
    }

    /// Sorts the entries by key; fails where two entries share a key.
    fn ensure_output_preconditions(&mut self) -> (r: Result<(), BuildError<I>>)
        requires
            index_laws::<I>(),
        ensures
            final(self)@.len() == old(self)@.len(),
            final(self)@.to_multiset() == old(self)@.to_multiset(),
            forall|k: I| #[trigger] entries_with_key(final(self)@, k) == entries_with_key(
                old(self)@,
                k,
            ),
            forall|i: int, j: int|
                0 <= i < j < final(self)@.len() ==> key_le(
                    #[trigger] final(self)@[i].0,
                    #[trigger] final(self)@[j].0,
                ),
            r is Ok <==> strictly_increasing(entry_keys(final(self)@)),
            r matches Err(e) ==> e is DuplicateIndex,
    {
        sort_by_index(&mut self.entries);
        let ghost sorted = self.entries@;
        let ghost keys = entry_keys(self.entries@);
        let mut i: usize = 1;
        while i < self.entries.len()
            invariant
                index_laws::<I>(),
                self.entries@ == sorted,
                sorted.to_multiset() == old(self)@.to_multiset(),
                sorted.len() == old(self)@.len(),
                forall|k: I| #[trigger] entries_with_key(sorted, k) == entries_with_key(
                    old(self)@,
                    k,
                ),
                keys == entry_keys(self.entries@),
                1 <= i,
                i <= self.entries@.len() || self.entries@.len() == 0,
                forall|a: int, b: int|
                    0 <= a < b < self.entries@.len() ==> key_le(
                        #[trigger] self.entries@[a].0,
                        #[trigger] self.entries@[b].0,
                    ),
                forall|a: int, b: int| 0 <= a < b < i && b < keys.len() ==> key_lt(#[trigger] keys[a], #[trigger] keys[b]),
            decreases self.entries@.len() - i,
        {
            let previous = self.entries[i - 1].0;
            let current = self.entries[i].0;
            match previous.cmp(&current) {
                Ordering::Equal => {
                    proof {
                        assert(!key_lt(keys[i - 1], keys[i as int]));
                    }
                    return Err(BuildError::DuplicateIndex { index: current });
                },
                _ => {},
            }
            proof {
                assert(key_le(self.entries@[i - 1].0, self.entries@[i as int].0));
                assert forall|a: int, b: int| 0 <= a < b < i + 1 && b < keys.len() implies key_lt(
                    #[trigger] keys[a],
                    #[trigger] keys[b],
                ) by {
                    if b == i && a < i - 1 {
                        assert(key_lt(keys[a], keys[i - 1]));
                    }
                }
            }
            i = i + 1;
        }
        Ok(())
    }

    /// The texts of the start keys (`Debug`), of the storage starts (decimal) and of
    /// the values (as `formatting` selects); `None` where a key or value cannot be
    /// written.
    fn entry_texts(
        &self,
        segments_idx_begin: &Vec<I>,
        segments_mem_idx_begin: &Vec<usize>,
        formatting: &ValueFormatting,
    ) -> (r: Option<(Vec<String>, Vec<String>, Vec<String>)>) where
        I: core::fmt::Debug,
        V: core::fmt::Display + core::fmt::Debug,

        requires
            segments_idx_begin@.len() == segments_mem_idx_begin@.len(),
        ensures
            r matches Some(t) ==> {
                &&& t.0@.len() == segments_idx_begin@.len()
                &&& texts_view(t.1@) == decimals(segments_mem_idx_begin@)
                &&& t.2@.len() == self@.len()
            },
            segments_idx_begin@.len() == 0 && self@.len() == 0 ==> r is Some,
    {
        let mut key_texts: Vec<String> = Vec::new();
        let mut mem_texts: Vec<String> = Vec::new();
        let mut i: usize = 0;
        while i < segments_idx_begin.len()
            invariant
                i <= segments_idx_begin@.len(),
                segments_idx_begin@.len() == segments_mem_idx_begin@.len(),
                key_texts@.len() == i,
                mem_texts@.len() == i,
                texts_view(mem_texts@) == decimals(segments_mem_idx_begin@.take(i as int)),
            decreases segments_idx_begin@.len() - i,
        {
            match debug_text(&segments_idx_begin[i]) {
                Some(text) => key_texts.push(text),
                None => return None,
            }
            let ghost prev = mem_texts@;
            mem_texts.push(decimal_text(segments_mem_idx_begin[i]));
            proof {
                let taken = segments_mem_idx_begin@.take(i + 1);
                assert forall|k: int| 0 <= k < i + 1 implies #[trigger] texts_view(mem_texts@)[k]
                    == decimals(taken)[k] by {
                    if k < i {
                        assert(mem_texts@[k] == prev[k]);
                        assert(texts_view(prev)[k] == decimals(
                            segments_mem_idx_begin@.take(i as int),
                        )[k]);
                    }
                }
                assert(texts_view(mem_texts@) =~= decimals(taken));
            }
            i = i + 1;
        }
        proof {
            assert(segments_mem_idx_begin@.take(i as int) =~= segments_mem_idx_begin@);
        }
        let mut value_texts: Vec<String> = Vec::new();
        let mut j: usize = 0;
        while j < self.entries.len()
            invariant
                j <= self.entries@.len(),
                value_texts@.len() == j,
            decreases self.entries@.len() - j,
        {
            let value = &self.entries[j].1;
            let text = match formatting {
                ValueFormatting::Display => display_text(value),
                ValueFormatting::Debug => debug_text(value),
                ValueFormatting::DisplayAlternate => display_alternate_text(value),
                ValueFormatting::DebugAlternate => debug_alternate_text(value),
            };
            match text {
                Some(text) => value_texts.push(text),
                None => return None,
            }
            j = j + 1;
        }
        Some((key_texts, mem_texts, value_texts))
    }

    /// Drops every entry whose key an earlier entry already has, so that the first
    /// entry for each key stays.
    fn keep_first_entries(&mut self)
        requires
            order_laws::<I>(),
        ensures
            final(self)@ == first_entries(old(self)@),
    {
        let ghost all = self.entries@;
        let total = self.entries.len();
        let mut i: usize = 0;
        let mut k: usize = 0;
        while i < self.entries.len()
            invariant
                order_laws::<I>(),
                all.len() == total,
                k <= all.len(),
                i == first_entries(all.take(k as int)).len(),
                self.entries@ == first_entries(all.take(k as int)) + all.skip(k as int),
            decreases all.len() - k,
        {
            proof {
                assert(self.entries@[i as int] == all[k as int]);
            }
            let key = self.entries[i].0;
            let mut seen = false;
            let mut t: usize = 0;
            while t < i
                invariant
                    order_laws::<I>(),
                    t <= i < self.entries@.len(),
                    key == self.entries@[i as int].0,
                    seen <==> exists|u: int| 0 <= u < t && #[trigger] self.entries@[u].0 == key,
                decreases i - t,
            {
                match self.entries[t].0.cmp(&key) {
                    Ordering::Equal => {
                        seen = true;
                    },
                    _ => {},
                }
                proof {
                    if self.entries@[t as int].0 == key {
                        assert(self.entries@[t as int].0.cmp_spec(&key) == Ordering::Equal);
                    }
                }
                t = t + 1;
            }
            let ghost kept = first_entries(all.take(k as int));
            proof {
                let taken = all.take(k + 1);
                assert(taken.drop_last() =~= all.take(k as int));
                assert(taken.last() == all[k as int]);
                lemma_first_entries_keys(all.take(k as int), key);
                assert(seen <==> entry_keys(kept).contains(key)) by {
                    if seen {
                        let u = choose|u: int| 0 <= u < i && #[trigger] self.entries@[u].0 == key;
                        assert(entry_keys(kept)[u] == key);
                    }
                    if entry_keys(kept).contains(key) {
                        let u = choose|u: int| 0 <= u < kept.len() && entry_keys(kept)[u] == key;
                        assert(self.entries@[u].0 == key);
                    }
                }
            }
            if seen {
                self.entries.remove(i);
                proof {
                    assert(self.entries@ =~= first_entries(all.take(k + 1)) + all.skip(k + 1));
                }
            } else {
                proof {
                    assert(self.entries@ =~= first_entries(all.take(k + 1)) + all.skip(k + 1));
                }
                i = i + 1;
            }
            k = k + 1;
        }
        proof {
            assert(all.take(k as int) =~= all);
            assert(self.entries@ =~= first_entries(all));
        }
    }

    /// Writes out segment data as [`build`](Self::build) does, after keeping only the
    /// first entry for each key.
    pub fn build_first_wins(&mut self, build_config: &BuildConfiguration) -> (r: Result<
        String,
        BuildError<I>,
    >) where I: core::fmt::Debug, V: core::fmt::Display + core::fmt::Debug
        requires
            index_laws::<I>(),
        ensures
            final(self)@.to_multiset() == first_entries(old(self)@).to_multiset(),
            forall|k: I| #[trigger] entries_with_key(final(self)@, k) == entries_with_key(
                first_entries(old(self)@),
                k,
            ),
            forall|i: int, j: int|
                0 <= i < j < final(self)@.len() ==> key_le(
                    #[trigger] final(self)@[i].0,
                    #[trigger] final(self)@[j].0,
                ),
            r matches Err(e) ==> (e is DuplicateIndex <==> !strictly_increasing(
                entry_keys(final(self)@),
            )),
            r is Ok ==> strictly_increasing(entry_keys(final(self)@)),
            old(self)@.len() == 0 ==> (r matches Ok(text) && text@ == segment_data_text(
                build_config.output_format,
                Seq::empty(),
                Seq::empty(),
                Seq::empty(),
            )),
            r matches Ok(text) ==> exists|
                starts: Seq<I>,
                mem: Seq<usize>,
                keys: Seq<Seq<char>>,
                values: Seq<Seq<char>>,
            |
                {
                    &&& segmentation_of(entry_keys(final(self)@), starts, mem)
                    &&& keys.len() == starts.len()
                    &&& values.len() == final(self)@.len()
                    &&& text@ == segment_data_text(
                        build_config.output_format,
                        keys,
                        decimals(mem),
                        values,
                    )
                },
    {
        self.keep_first_entries();
        proof {
            if old(self)@.len() == 0 {
                assert(first_entries(old(self)@) == old(self)@);
            }
        }
        self.build(build_config)
    }

    /// Writes out the segment data of an array holding the collected entries, in the
    /// notation that `build_config` selects. Fails where two entries share a key, or
    /// where a key or value cannot be written.
    ///
    /// The builder keeps its entries sorted by key. The text lists the start key
    /// (`Debug`) and storage start (decimal) of each segment of the sorted keys, then
    /// each value.
    pub fn build(&mut self, build_config: &BuildConfiguration) -> (r: Result<
        String,
        BuildError<I>,
    >) where I: core::fmt::Debug, V: core::fmt::Display + core::fmt::Debug
        requires
            index_laws::<I>(),
        ensures
            final(self)@.to_multiset() == old(self)@.to_multiset(),
            forall|k: I| #[trigger] entries_with_key(final(self)@, k) == entries_with_key(
                old(self)@,
                k,
            ),
            forall|i: int, j: int|
                0 <= i < j < final(self)@.len() ==> key_le(
                    #[trigger] final(self)@[i].0,
                    #[trigger] final(self)@[j].0,
                ),
            r matches Err(e) ==> (e is DuplicateIndex <==> !strictly_increasing(
                entry_keys(final(self)@),
            )),
            r is Ok ==> strictly_increasing(entry_keys(final(self)@)),
            old(self)@.len() == 0 ==> (r matches Ok(text) && text@ == segment_data_text(
                build_config.output_format,
                Seq::empty(),
                Seq::empty(),
                Seq::empty(),
            )),
            r matches Ok(text) ==> exists|
                starts: Seq<I>,
                mem: Seq<usize>,
                keys: Seq<Seq<char>>,
                values: Seq<Seq<char>>,
            |
                {
                    &&& segmentation_of(entry_keys(final(self)@), starts, mem)
                    &&& keys.len() == starts.len()
                    &&& values.len() == final(self)@.len()
                    &&& text@ == segment_data_text(
                        build_config.output_format,
                        keys,
                        decimals(mem),
                        values,
                    )
                },
    {
        match self.ensure_output_preconditions() {
            Ok(()) => {},
            Err(e) => return Err(e),
        }
        let (segments_idx_begin, segments_mem_idx_begin) = segment_data(&self.entries);
        proof {
            if segments_mem_idx_begin@.len() > 0 {
                assert(segments_mem_idx_begin@[0] < self@.len());
            }
        }
        let (key_texts, mem_texts, value_texts) = match self.entry_texts(
            &segments_idx_begin,
            &segments_mem_idx_begin,
            &build_config.value_formatting,
        ) {
            Some(texts) => texts,
            None => return Err(BuildError::Formatting),
        };
        let text = render_segment_data(
            &build_config.output_format,
            &key_texts,
            &mem_texts,
            &value_texts,
        );
        proof {
            let keys = texts_view(key_texts@);
            let values = texts_view(value_texts@);
            if old(self)@.len() == 0 {
                assert(keys =~= Seq::<Seq<char>>::empty());
                assert(values =~= Seq::<Seq<char>>::empty());
                assert(decimals(segments_mem_idx_begin@) =~= Seq::<Seq<char>>::empty());
            }
            assert(segmentation_of(
                entry_keys(self@),
                segments_idx_begin@,
                segments_mem_idx_begin@,
            ) && keys.len() == segments_idx_begin@.len() && values.len() == self@.len() && text@
                == segment_data_text(
                build_config.output_format,
                keys,
                decimals(segments_mem_idx_begin@),
                values,
            ));
        }
        Ok(text)
    }
}

impl<I: NciIndex, V> Default for NciArrayBuilder<I, V> {
    /// A builder with no entries.
    fn default() -> (r: Self)
        ensures
            r@ == Seq::<(I, V)>::empty(),
    {
        Self::new()
    }
}

} // verus!
