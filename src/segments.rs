//! The mathematical model of segment data: which key sits at which storage index.
use vstd::prelude::*;

use crate::index::{distance_laws, index_laws, key_le, key_lt, NciIndex};

verus! {

/// The key reached from `k` by `n` successor steps, if none of them fails.
pub open spec fn steps<I: NciIndex>(k: I, n: nat) -> Option<I>
    decreases n,
{
    if n == 0 {
        Some(k)
    } else {
        match steps(k, (n - 1) as nat) {
            Some(j) => j.spec_next(),
            None => None,
        }
    }
}

/// The storage index one past the last value of segment `s`.
pub open spec fn segment_end(mem: Seq<usize>, n: nat, s: int) -> int {
    if s + 1 < mem.len() {
        mem[s + 1] as int
    } else {
        n as int
    }
}

/// The number of values stored in segment `s`.
pub open spec fn segment_len(mem: Seq<usize>, n: nat, s: int) -> int {
    segment_end(mem, n, s) - mem[s]
}

/// Storage index `j` lies in segment `s`.
pub open spec fn in_segment(mem: Seq<usize>, n: nat, s: int, j: int) -> bool {
    0 <= s < mem.len() && mem[s] <= j < segment_end(mem, n, s)
}

/// The segment that holds storage index `j`.
pub open spec fn segment_of(mem: Seq<usize>, n: nat, j: int) -> int {
    choose|s: int| in_segment(mem, n, s, j)
}

/// The key of the value at storage index `j`: the start key of its segment,
/// stepped forward by its offset within the segment.
pub open spec fn key_at<I: NciIndex>(starts: Seq<I>, mem: Seq<usize>, n: nat, j: int) -> I {
    let s = segment_of(mem, n, j);
    steps(starts[s], (j - mem[s]) as nat).unwrap()
}

/// The keys of all `n` stored values, in storage order.
pub open spec fn keys_of<I: NciIndex>(starts: Seq<I>, mem: Seq<usize>, n: nat) -> Seq<I> {
    Seq::new(n, |j: int| key_at(starts, mem, n, j))
}

/// The key at offset `o` of segment `s`, where it can be generated, stays within the
/// segment's key range: at or above its start and below the next segment's start.
pub open spec fn offset_in_range<I: NciIndex>(
    starts: Seq<I>,
    mem: Seq<usize>,
    n: nat,
    s: int,
    o: int,
) -> bool {
    match steps(starts[s], o as nat) {
        Some(k) => key_le(starts[s], k) && (s + 1 < starts.len() ==> key_lt(k, starts[s + 1])),
        None => true,
    }
}

/// The key at offset `o` of segment `s`, where it can be generated, is `o` steps away
/// from the segment's start by `distance`.
pub open spec fn offset_distance_correct<I: NciIndex>(
    starts: Seq<I>,
    mem: Seq<usize>,
    n: nat,
    s: int,
    o: int,
) -> bool {
    match steps(starts[s], o as nat) {
        Some(k) => starts[s].spec_distance(k) == Some(o as usize),
        None => true,
    }
}

/// The key at offset `o` of segment `s`, where it can be generated, stays within the
/// segment's key range and is `o` steps away from the segment's start.
pub open spec fn offset_separated<I: NciIndex>(
    starts: Seq<I>,
    mem: Seq<usize>,
    n: nat,
    s: int,
    o: int,
) -> bool {
    offset_in_range(starts, mem, n, s, o) && offset_distance_correct(starts, mem, n, s, o)
}

/// All three sequences are empty, or none is.
pub open spec fn emptiness_consistent(starts_len: nat, mem_len: nat, n: nat) -> bool {
    (starts_len == 0) == (mem_len == 0) && (mem_len == 0) == (n == 0)
}

/// Every storage start lies inside the value storage.
pub open spec fn storage_in_bounds(mem: Seq<usize>, n: nat) -> bool {
    forall|i: int| 0 <= i < mem.len() ==> #[trigger] mem[i] < n
}

/// Start keys and storage starts both increase strictly from segment to segment.
pub open spec fn strictly_monotonic<I: NciIndex>(starts: Seq<I>, mem: Seq<usize>) -> bool {
    forall|i: int|
        0 <= i && i + 1 < starts.len() ==> key_lt(#[trigger] starts[i], starts[i + 1]) && mem[i]
            < mem[i + 1]
}

/// Every stored offset of every segment can be generated by successor steps.
pub open spec fn offsets_generable<I: NciIndex>(starts: Seq<I>, mem: Seq<usize>, n: nat) -> bool {
    forall|s: int, o: int|
        0 <= s < starts.len() && 1 <= o < segment_len(mem, n, s) ==> #[trigger] steps(
            starts[s],
            o as nat,
        ) is Some
}

/// Every stored offset of every segment stays within its segment's key range.
pub open spec fn offsets_in_range<I: NciIndex>(starts: Seq<I>, mem: Seq<usize>, n: nat) -> bool {
    forall|s: int, o: int|
        0 <= s < starts.len() && 1 <= o < segment_len(mem, n, s) ==> #[trigger] offset_in_range(
            starts,
            mem,
            n,
            s,
            o,
        )
}

/// Every stored offset of every segment has the distance of its storage offset.
pub open spec fn offsets_distance_correct<I: NciIndex>(
    starts: Seq<I>,
    mem: Seq<usize>,
    n: nat,
) -> bool {
    forall|s: int, o: int|
        0 <= s < starts.len() && 1 <= o < segment_len(mem, n, s)
            ==> #[trigger] offset_distance_correct(starts, mem, n, s, o)
}

/// Every stored offset of every segment stays within its segment and has the
/// distance of its storage offset.
pub open spec fn offsets_separated<I: NciIndex>(starts: Seq<I>, mem: Seq<usize>, n: nat) -> bool {
    offsets_in_range(starts, mem, n) && offsets_distance_correct(starts, mem, n)
}

/// No segment runs on into the next one: the key after its last one is not the
/// next segment's start.
pub open spec fn segments_minimal<I: NciIndex>(starts: Seq<I>, mem: Seq<usize>, n: nat) -> bool {
    forall|s: int|
        0 <= s && s + 1 < starts.len() ==> steps(#[trigger] starts[s], segment_len(mem, n, s) as nat)
            != Some(starts[s + 1])
}

/// The segment data describes `n` values whose keys can be looked up and iterated.
pub open spec fn segments_valid<I: NciIndex>(starts: Seq<I>, mem: Seq<usize>, n: nat) -> bool {
    &&& emptiness_consistent(starts.len(), mem.len(), n)
    &&& starts.len() == mem.len()
    &&& mem.len() > 0 ==> mem[0] == 0
    &&& storage_in_bounds(mem, n)
    &&& strictly_monotonic(starts, mem)
    &&& offsets_separated(starts, mem, n)
    &&& segments_minimal(starts, mem, n)
    &&& offsets_generable(starts, mem, n)
}


/// Start keys and storage starts are ordered across any two segments, not only
/// neighbouring ones.
pub proof fn lemma_starts_sorted<I: NciIndex>(
    starts: Seq<I>,
    mem: Seq<usize>,
    n: nat,
    i: int,
    j: int,
)
    requires
        index_laws::<I>(),
        segments_valid(starts, mem, n),
        0 <= i < j < starts.len(),
    ensures
        key_lt(starts[i], starts[j]),
        mem[i] < mem[j],
    decreases j - i,
{
    if j > i + 1 {
        lemma_starts_sorted(starts, mem, n, i, j - 1);
        assert(key_lt(starts[j - 1], starts[j]));
    }
}

/// A storage index lies in exactly one segment.
pub proof fn lemma_segment_of<I: NciIndex>(starts: Seq<I>, mem: Seq<usize>, n: nat, s: int, j: int)
    requires
        index_laws::<I>(),
        segments_valid(starts, mem, n),
        in_segment(mem, n, s, j),
    ensures
        segment_of(mem, n, j) == s,
{
    let t = segment_of(mem, n, j);
    assert(in_segment(mem, n, t, j));
    if t < s {
        if t + 1 < s {
            lemma_starts_sorted(starts, mem, n, t + 1, s);
        }
    } else if s < t {
        if s + 1 < t {
            lemma_starts_sorted(starts, mem, n, s + 1, t);
        }
    }
}

/// Every storage index below `n` lies in some segment at or after `s`.
pub proof fn lemma_covered<I: NciIndex>(starts: Seq<I>, mem: Seq<usize>, n: nat, s: int, j: int)
    requires
        segments_valid(starts, mem, n),
        0 <= s < mem.len(),
        mem[s] <= j < n,
    ensures
        in_segment(mem, n, segment_of(mem, n, j), j),
    decreases mem.len() - s,
{
    if s + 1 < mem.len() && mem[s + 1] <= j {
        lemma_covered(starts, mem, n, s + 1, j);
    } else {
        assert(in_segment(mem, n, s, j));
    }
}

/// Stepping `d + 1` times is one step followed by `d` more.
pub proof fn lemma_steps_shift<I: NciIndex>(k: I, d: nat)
    ensures
        steps(k, d + 1) == match k.spec_next() {
            Some(m) => steps(m, d),
            None => None,
        },
    decreases d,
{
    if d > 0 {
        lemma_steps_shift(k, (d - 1) as nat);
        assert(steps(k, d + 1) == match steps(k, d) {
            Some(j) => j.spec_next(),
            None => None,
        });
        if let Some(m) = k.spec_next() {
            assert(steps(m, d) == match steps(m, (d - 1) as nat) {
                Some(j) => j.spec_next(),
                None => None,
            });
        }
    } else {
        assert(steps(k, 1) == match steps(k, 0) {
            Some(j) => j.spec_next(),
            None => None,
        });
        if let Some(m) = k.spec_next() {
            assert(steps(m, 0) == Some(m));
        }
    }
}

/// A distance of `d` is reached by `d` successor steps.
pub proof fn lemma_distance_reaches<I: NciIndex>(a: I, b: I, d: usize)
    requires
        distance_laws::<I>(),
        a.spec_distance(b) == Some(d),
    ensures
        steps(a, d as nat) == Some(b),
    decreases d,
{
    assert(a.spec_distance(a) == Some(0usize));
    if d > 0 {
        let m = a.spec_next().unwrap();
        lemma_distance_reaches(m, b, (d - 1) as usize);
        lemma_steps_shift(a, (d - 1) as nat);
    }
}

/// What the model says of the value at offset `o` of segment `s`.
pub proof fn lemma_key_at<I: NciIndex>(starts: Seq<I>, mem: Seq<usize>, n: nat, s: int, o: int)
    requires
        index_laws::<I>(),
        segments_valid(starts, mem, n),
        0 <= s < starts.len(),
        0 <= o < segment_len(mem, n, s),
    ensures
        mem[s] + o < n,
        segment_of(mem, n, mem[s] + o) == s,
        steps(starts[s], o as nat) == Some(key_at(starts, mem, n, mem[s] + o)),
        key_le(starts[s], key_at(starts, mem, n, mem[s] + o)),
        s + 1 < starts.len() ==> key_lt(key_at(starts, mem, n, mem[s] + o), starts[s + 1]),
        starts[s].spec_distance(key_at(starts, mem, n, mem[s] + o)) == Some(o as usize),
{
    assert(mem[s] < n);
    if s + 1 < mem.len() {
        assert(mem[s + 1] < n);
    }
    assert(in_segment(mem, n, s, mem[s] + o));
    lemma_segment_of(starts, mem, n, s, mem[s] + o);
    if o == 0 {
        assert(starts[s].spec_distance(starts[s]) == Some(0usize));
    } else {
        assert(offset_separated(starts, mem, n, s, o));
        assert(steps(starts[s], o as nat) is Some);
    }
}

/// Neighbouring stored keys increase strictly.
proof fn lemma_keys_step<I: NciIndex>(starts: Seq<I>, mem: Seq<usize>, n: nat, j: int)
    requires
        index_laws::<I>(),
        segments_valid(starts, mem, n),
        0 <= j && j + 1 < n,
    ensures
        key_lt(key_at(starts, mem, n, j), key_at(starts, mem, n, j + 1)),
{
    lemma_covered(starts, mem, n, 0, j);
    let s = segment_of(mem, n, j);
    let o = j - mem[s];
    lemma_key_at(starts, mem, n, s, o);
    let k = key_at(starts, mem, n, j);
    if j + 1 < segment_end(mem, n, s) {
        lemma_key_at(starts, mem, n, s, o + 1);
        assert(k.spec_next() matches Some(n) ==> key_lt(k, n));
    } else {
        lemma_key_at(starts, mem, n, s + 1, 0);
    }
}

/// The stored keys increase strictly in storage order.
pub proof fn lemma_keys_increasing<I: NciIndex>(
    starts: Seq<I>,
    mem: Seq<usize>,
    n: nat,
    i: int,
    j: int,
)
    requires
        index_laws::<I>(),
        segments_valid(starts, mem, n),
        0 <= i < j < n,
    ensures
        key_lt(keys_of(starts, mem, n)[i], keys_of(starts, mem, n)[j]),
    decreases j - i,
{
    lemma_keys_step(starts, mem, n, j - 1);
    if j > i + 1 {
        lemma_keys_increasing(starts, mem, n, i, j - 1);
        assert(key_lt(key_at(starts, mem, n, i), key_at(starts, mem, n, j - 1)));
    }
}


/// A stored key equal to `key` lies in the candidate segment `s` of `key`: the
/// segment whose start is at or below `key` while the next start is above it.
pub proof fn lemma_in_candidate<I: NciIndex>(
    starts: Seq<I>,
    mem: Seq<usize>,
    n: nat,
    s: int,
    key: I,
    j: int,
)
    requires
        index_laws::<I>(),
        segments_valid(starts, mem, n),
        0 <= s < starts.len(),
        key_le(starts[s], key),
        s + 1 < starts.len() ==> key_lt(key, starts[s + 1]),
        0 <= j < n,
        keys_of(starts, mem, n)[j] == key,
    ensures
        in_segment(mem, n, s, j),
{
    lemma_covered(starts, mem, n, 0, j);
    let t = segment_of(mem, n, j);
    lemma_key_at(starts, mem, n, t, j - mem[t]);
    if t < s {
        if t + 1 < s {
            lemma_starts_sorted(starts, mem, n, t + 1, s);
        }
        assert(key_lt(key, starts[t + 1]));
    } else if s < t {
        if s + 1 < t {
            lemma_starts_sorted(starts, mem, n, s + 1, t);
        }
        assert(key_le(starts[t], key));
    }
}

/// No stored key lies below the first segment's start.
pub proof fn lemma_below_first<I: NciIndex>(starts: Seq<I>, mem: Seq<usize>, n: nat, key: I)
    requires
        index_laws::<I>(),
        segments_valid(starts, mem, n),
        starts.len() > 0 ==> key_lt(key, starts[0]),
    ensures
        !keys_of(starts, mem, n).contains(key),
{
    if keys_of(starts, mem, n).contains(key) {
        let j = choose|j: int| 0 <= j < n && keys_of(starts, mem, n)[j] == key;
        lemma_covered(starts, mem, n, 0, j);
        let t = segment_of(mem, n, j);
        lemma_key_at(starts, mem, n, t, j - mem[t]);
        if t > 0 {
            lemma_starts_sorted(starts, mem, n, 0, t);
        }
    }
}

/// Each stored key occurs once, so its position is the one found by `index_of`.
pub proof fn lemma_index_of<I: NciIndex>(starts: Seq<I>, mem: Seq<usize>, n: nat, j: int)
    requires
        index_laws::<I>(),
        segments_valid(starts, mem, n),
        0 <= j < n,
    ensures
        keys_of(starts, mem, n).contains(keys_of(starts, mem, n)[j]),
        keys_of(starts, mem, n).index_of(keys_of(starts, mem, n)[j]) == j,
{
    let keys = keys_of(starts, mem, n);
    assert(keys.contains(keys[j]));
    let i = keys.index_of(keys[j]);
    if i < j {
        lemma_keys_increasing(starts, mem, n, i, j);
    } else if j < i {
        lemma_keys_increasing(starts, mem, n, j, i);
    }
}


/// Looking `key` up in its candidate segment `s` (the one whose start is at or below
/// `key` while the next start is above it): the key is stored exactly where its
/// distance from the segment's start falls inside the segment, and then at that offset.
pub proof fn lemma_lookup<I: NciIndex>(starts: Seq<I>, mem: Seq<usize>, n: nat, s: int, key: I)
    requires
        index_laws::<I>(),
        segments_valid(starts, mem, n),
        0 <= s < starts.len(),
        key_le(starts[s], key),
        s + 1 < starts.len() ==> key_lt(key, starts[s + 1]),
    ensures
        keys_of(starts, mem, n).contains(key) <==> (match starts[s].spec_distance(key) {
            Some(d) => d < segment_len(mem, n, s),
            None => false,
        }),
        match starts[s].spec_distance(key) {
            Some(d) => d < segment_len(mem, n, s) ==> (mem[s] + d < n && keys_of(
                starts,
                mem,
                n,
            ).index_of(key) == mem[s] + d),
            None => true,
        },
{
    let keys = keys_of(starts, mem, n);
    if keys.contains(key) {
        let j = choose|j: int| 0 <= j < n && keys[j] == key;
        lemma_in_candidate(starts, mem, n, s, key, j);
        lemma_key_at(starts, mem, n, s, j - mem[s]);
    }
    if let Some(d) = starts[s].spec_distance(key) {
        if d < segment_len(mem, n, s) {
            lemma_distance_reaches(starts[s], key, d);
            lemma_key_at(starts, mem, n, s, d as int);
            lemma_index_of(starts, mem, n, mem[s] + d);
        }
    }
}

/// The key after storage index `j` of segment `s`: the next segment's start where
/// `j + 1` begins that segment, and otherwise the successor of the key at `j`.
pub proof fn lemma_next_key<I: NciIndex>(starts: Seq<I>, mem: Seq<usize>, n: nat, s: int, j: int)
    requires
        index_laws::<I>(),
        segments_valid(starts, mem, n),
        in_segment(mem, n, s, j),
        j + 1 < n,
    ensures
        keys_of(starts, mem, n)[j] == key_at(starts, mem, n, j),
        keys_of(starts, mem, n)[j + 1] == key_at(starts, mem, n, j + 1),
        s + 1 < starts.len() && j + 1 == mem[s + 1] ==> key_at(starts, mem, n, j + 1) == starts[s
            + 1] && in_segment(mem, n, s + 1, j + 1),
        !(s + 1 < starts.len() && j + 1 == mem[s + 1]) ==> key_at(starts, mem, n, j).spec_next()
            == Some(key_at(starts, mem, n, j + 1)) && in_segment(mem, n, s, j + 1),
{
    let o = j - mem[s];
    lemma_key_at(starts, mem, n, s, o);
    if s + 1 < starts.len() && j + 1 == mem[s + 1] {
        lemma_key_at(starts, mem, n, s + 1, 0);
    } else {
        lemma_key_at(starts, mem, n, s, o + 1);
        assert(steps(starts[s], (o + 1) as nat) == match steps(starts[s], o as nat) {
            Some(k) => k.spec_next(),
            None => None,
        });
    }
}

} // verus!
