//! The validator for segment data: which invariant, if any, a triple violates.
use core::cmp::Ordering;
use vstd::prelude::*;
use vstd::std_specs::cmp::OrdSpec;

use crate::index::{key_lt, order_laws, NciIndex};
use crate::segments::{
    emptiness_consistent, offset_distance_correct, offset_in_range, offset_separated,
    offsets_distance_correct, offsets_generable, offsets_in_range, segment_len,
    segments_minimal, segments_valid, steps, storage_in_bounds, strictly_monotonic,
};

verus! {

/// An invariant of segment data, as reported by the validator.
#[derive(Debug, Clone, Copy, PartialEq, Eq, Structural)]
pub enum NciArrayInvariant {
    /// The first segment's values start at storage index zero.
    EntriesStartAtMemoryIndexZero,
    /// Start keys, storage starts and values are all empty or all non-empty.
    IsEmptyEquivalent,
    /// Every storage start lies inside the value storage.
    MemoryIndicesInBounds,
    /// The distance from a segment's start to each of its keys is the key's offset.
    NciIndexCalculatesCorrectDistanceForAllEntries,
    /// Successor steps reach every key of every segment.
    NciIndexCanGenerateIndicesForAllEntries,
    /// The keys of a segment lie at or above its start and below the next start.
    SegmentsDisjoint,
    /// No segment runs on into the next one.
    SegmentDataMinimal,
    /// Start keys and storage starts increase strictly.
    SegmentDataElementsStrictlyMonotonic,
    /// There are as many start keys as storage starts.
    SegmentDataLengthEquivalent,
}

/// The first check that fails at offset `o` of a segment starting at key `start`,
/// below the next segment's start `upper` where there is one.
pub open spec fn offset_violation<I: NciIndex>(start: I, upper: Option<I>, o: nat) -> Option<
    NciArrayInvariant,
> {
    match steps(start, o) {
        None => Some(NciArrayInvariant::NciIndexCanGenerateIndicesForAllEntries),
        Some(k) => if key_lt(k, start) || (upper matches Some(u) && !key_lt(k, u)) {
            Some(NciArrayInvariant::SegmentsDisjoint)
        } else if start.spec_distance(k) != Some(o as usize) {
            Some(NciArrayInvariant::NciIndexCalculatesCorrectDistanceForAllEntries)
        } else {
            None
        },
    }
}

/// The first check that fails at offsets `o` up to `len` (exclusive) of a segment.
pub open spec fn walk_violation<I: NciIndex>(start: I, upper: Option<I>, o: nat, len: int) -> Option<
    NciArrayInvariant,
>
    decreases len - o,
{
    if o >= len {
        None
    } else {
        match offset_violation(start, upper, o) {
            Some(t) => Some(t),
            None => walk_violation(start, upper, o + 1, len),
        }
    }
}

/// The first check that fails for segment `s` and its successor, or for the final
/// segment, and then for the segments after it.
pub open spec fn violation_from<I: NciIndex>(
    starts: Seq<I>,
    mem: Seq<usize>,
    n: nat,
    s: int,
) -> Option<NciArrayInvariant>
    decreases starts.len() - s,
{
    if s + 1 >= starts.len() {
        walk_violation(starts[s], None, 1, n - mem[s])
    } else if mem[s + 1] >= n {
        Some(NciArrayInvariant::MemoryIndicesInBounds)
    } else if !key_lt(starts[s], starts[s + 1]) || mem[s] >= mem[s + 1] {
        Some(NciArrayInvariant::SegmentDataElementsStrictlyMonotonic)
    } else {
        match walk_violation(starts[s], Some(starts[s + 1]), 1, mem[s + 1] - mem[s]) {
            Some(t) => Some(t),
            None => if steps(starts[s], (mem[s + 1] - mem[s]) as nat) == Some(starts[s + 1]) {
                Some(NciArrayInvariant::SegmentDataMinimal)
            } else {
                violation_from(starts, mem, n, s + 1)
            },
        }
    }
}

/// The validator's verdict on start keys `starts`, storage starts `mem` and `n`
/// values: the first violated invariant in checking order, or `Ok`.
pub open spec fn check_result<I: NciIndex>(starts: Seq<I>, mem: Seq<usize>, n: nat) -> Result<
    (),
    NciArrayInvariant,
> {
    if !((starts.len() == 0) == (mem.len() == 0) && (mem.len() == 0) == (n == 0)) {
        Err(NciArrayInvariant::IsEmptyEquivalent)
    } else if n == 0 {
        Ok(())
    } else if starts.len() != mem.len() {
        Err(NciArrayInvariant::SegmentDataLengthEquivalent)
    } else if mem[0] != 0 {
        Err(NciArrayInvariant::EntriesStartAtMemoryIndexZero)
    } else {
        match violation_from(starts, mem, n, 0) {
            Some(t) => Err(t),
            None => Ok(()),
        }
    }
}

/// Whether segment data satisfies the invariant that `t` reports.
pub open spec fn invariant_holds<I: NciIndex>(
    t: NciArrayInvariant,
    starts: Seq<I>,
    mem: Seq<usize>,
    n: nat,
) -> bool {
    match t {
        NciArrayInvariant::IsEmptyEquivalent => emptiness_consistent(starts.len(), mem.len(), n),
        NciArrayInvariant::SegmentDataLengthEquivalent => starts.len() == mem.len(),
        NciArrayInvariant::EntriesStartAtMemoryIndexZero => mem.len() > 0 ==> mem[0] == 0,
        NciArrayInvariant::MemoryIndicesInBounds => storage_in_bounds(mem, n),
        NciArrayInvariant::SegmentDataElementsStrictlyMonotonic => strictly_monotonic(starts, mem),
        NciArrayInvariant::SegmentsDisjoint => offsets_in_range(starts, mem, n),
        NciArrayInvariant::NciIndexCalculatesCorrectDistanceForAllEntries => offsets_distance_correct(
            starts,
            mem,
            n,
        ),
        NciArrayInvariant::SegmentDataMinimal => segments_minimal(starts, mem, n),
        NciArrayInvariant::NciIndexCanGenerateIndicesForAllEntries => offsets_generable(
            starts,
            mem,
            n,
        ),
    }
}

/// The upper bound on the keys of segment `s`: the next segment's start, if any.
pub open spec fn upper_of<I: NciIndex>(starts: Seq<I>, s: int) -> Option<I> {
    if s + 1 < starts.len() {
        Some(starts[s + 1])
    } else {
        None
    }
}

/// The checks of segment `s` with its successor all pass.
pub open spec fn pair_ok<I: NciIndex>(starts: Seq<I>, mem: Seq<usize>, n: nat, s: int) -> bool {
    &&& mem[s + 1] < n
    &&& key_lt(starts[s], starts[s + 1])
    &&& mem[s] < mem[s + 1]
    &&& walk_violation(starts[s], Some(starts[s + 1]), 1, mem[s + 1] - mem[s]) is None
    &&& steps(starts[s], (mem[s + 1] - mem[s]) as nat) != Some(starts[s + 1])
}

/// The checks of the final segment all pass.
pub open spec fn last_ok<I: NciIndex>(starts: Seq<I>, mem: Seq<usize>, n: nat) -> bool {
    let s = starts.len() - 1;
    walk_violation(starts[s], None, 1, n - mem[s]) is None
}

/// The first failing offset of a walk is one of its offsets.
proof fn lemma_walk<I: NciIndex>(start: I, upper: Option<I>, o: nat, len: int)
    ensures
        walk_violation(start, upper, o, len) is None <==> forall|p: int|
            o <= p < len ==> #[trigger] offset_violation(start, upper, p as nat) is None,
        walk_violation(start, upper, o, len) matches Some(t) ==> exists|p: int|
            o <= p < len && #[trigger] offset_violation(start, upper, p as nat) == Some(t),
    decreases len - o,
{
    if o < len {
        lemma_walk(start, upper, o + 1, len);
        assert(offset_violation(start, upper, (o as int) as nat) == offset_violation(
            start,
            upper,
            o,
        ));
    }
}

/// What the checks at one offset say of the invariants.
proof fn lemma_offset<I: NciIndex>(starts: Seq<I>, mem: Seq<usize>, n: nat, s: int, o: int)
    requires
        order_laws::<I>(),
        0 <= s < starts.len(),
        o >= 0,
    ensures
        offset_violation(starts[s], upper_of(starts, s), o as nat) is None <==> (steps(
            starts[s],
            o as nat,
        ) is Some && offset_separated(starts, mem, n, s, o)),
        offset_violation(starts[s], upper_of(starts, s), o as nat) matches Some(t) ==> ((t
            == NciArrayInvariant::NciIndexCanGenerateIndicesForAllEntries && steps(
            starts[s],
            o as nat,
        ) is None) || (t == NciArrayInvariant::SegmentsDisjoint && !offset_in_range(
            starts,
            mem,
            n,
            s,
            o,
        )) || (t == NciArrayInvariant::NciIndexCalculatesCorrectDistanceForAllEntries
            && !offset_distance_correct(starts, mem, n, s, o))),
{
}

/// Each error of the checks from segment `s` on names an invariant that the data
/// violates.
proof fn lemma_violation_sound<I: NciIndex>(starts: Seq<I>, mem: Seq<usize>, n: nat, s: int)
    requires
        order_laws::<I>(),
        starts.len() == mem.len(),
        0 <= s < starts.len(),
    ensures
        violation_from(starts, mem, n, s) matches Some(t) ==> !invariant_holds(t, starts, mem, n),
    decreases starts.len() - s,
{
    let len = segment_len(mem, n, s);
    if s + 1 >= starts.len() {
        lemma_walk(starts[s], None, 1, len);
    } else if mem[s + 1] >= n {
        assert(!(mem[s + 1] < n));
    } else if !key_lt(starts[s], starts[s + 1]) || mem[s] >= mem[s + 1] {
    } else {
        lemma_walk(starts[s], Some(starts[s + 1]), 1, len);
        if walk_violation(starts[s], Some(starts[s + 1]), 1, len) is None {
            if steps(starts[s], len as nat) != Some(starts[s + 1]) {
                lemma_violation_sound(starts, mem, n, s + 1);
            }
        }
    }
    if violation_from(starts, mem, n, s) is Some && (s + 1 >= starts.len() || (mem[s + 1] < n
        && key_lt(starts[s], starts[s + 1]) && mem[s] < mem[s + 1] && walk_violation(
        starts[s],
        Some(starts[s + 1]),
        1,
        len,
    ) is Some)) {
        let t = violation_from(starts, mem, n, s).unwrap();
        let p = choose|p: int|
            1 <= p < len && #[trigger] offset_violation(starts[s], upper_of(starts, s), p as nat)
                == Some(t);
        lemma_offset(starts, mem, n, s, p);
    }
}

/// The checks from segment `s` on pass exactly when every later pair and the final
/// segment pass.
proof fn lemma_violation_none<I: NciIndex>(starts: Seq<I>, mem: Seq<usize>, n: nat, s: int)
    requires
        order_laws::<I>(),
        starts.len() == mem.len(),
        0 <= s < starts.len(),
    ensures
        violation_from(starts, mem, n, s) is None <==> (forall|i: int|
            s <= i && i + 1 < starts.len() ==> #[trigger] pair_ok(starts, mem, n, i)) && last_ok(
            starts,
            mem,
            n,
        ),
    decreases starts.len() - s,
{
    if s + 1 < starts.len() {
        lemma_violation_none(starts, mem, n, s + 1);
        if violation_from(starts, mem, n, s) is None {
            assert(pair_ok(starts, mem, n, s));
        }
        if (forall|i: int| s <= i && i + 1 < starts.len() ==> #[trigger] pair_ok(starts, mem, n, i)) {
            assert(pair_ok(starts, mem, n, s));
        }
    }
}

/// The validator accepts exactly the segment data that satisfies every invariant,
/// and each error it reports names an invariant that the data violates.
pub proof fn lemma_check_sound<I: NciIndex>(starts: Seq<I>, mem: Seq<usize>, n: nat)
    requires
        order_laws::<I>(),
    ensures
        check_result(starts, mem, n) is Ok <==> segments_valid(starts, mem, n),
        check_result(starts, mem, n) matches Err(t) ==> !invariant_holds(t, starts, mem, n),
{
    if !emptiness_consistent(starts.len(), mem.len(), n) || n == 0 || starts.len() != mem.len()
        || mem[0] != 0 {
        return;
    }
    let r = starts.len();
    lemma_violation_sound(starts, mem, n, 0);
    lemma_violation_none(starts, mem, n, 0);
    if violation_from(starts, mem, n, 0) is None {
        assert forall|i: int| 0 <= i < mem.len() implies #[trigger] mem[i] < n by {
            if i > 0 {
                assert(pair_ok(starts, mem, n, i - 1));
            }
        }
        assert forall|i: int| 0 <= i && i + 1 < starts.len() implies key_lt(
            #[trigger] starts[i],
            starts[i + 1],
        ) && mem[i] < mem[i + 1] by {
            assert(pair_ok(starts, mem, n, i));
        }
        assert forall|s: int, o: int|
            0 <= s < starts.len() && 1 <= o < segment_len(
                mem,
                n,
                s,
            ) implies #[trigger] offset_separated(starts, mem, n, s, o) && steps(
            starts[s],
            o as nat,
        ) is Some by {
            if s + 1 < r {
                assert(pair_ok(starts, mem, n, s));
            }
            lemma_walk(starts[s], upper_of(starts, s), 1, segment_len(mem, n, s));
            assert(offset_violation(starts[s], upper_of(starts, s), o as nat) is None);
            lemma_offset(starts, mem, n, s, o);
        }
        assert forall|s: int, o: int|
            0 <= s < starts.len() && 1 <= o < segment_len(mem, n, s) implies #[trigger] steps(
            starts[s],
            o as nat,
        ) is Some by {
            assert(offset_separated(starts, mem, n, s, o));
        }
        assert forall|s: int, o: int|
            0 <= s < starts.len() && 1 <= o < segment_len(mem, n, s) implies #[trigger] offset_in_range(
            starts,
            mem,
            n,
            s,
            o,
        ) by {
            assert(offset_separated(starts, mem, n, s, o));
        }
        assert forall|s: int, o: int|
            0 <= s < starts.len() && 1 <= o < segment_len(mem, n, s)
                implies #[trigger] offset_distance_correct(starts, mem, n, s, o) by {
            assert(offset_separated(starts, mem, n, s, o));
        }
        assert forall|s: int| 0 <= s && s + 1 < starts.len() implies steps(
            #[trigger] starts[s],
            segment_len(mem, n, s) as nat,
        ) != Some(starts[s + 1]) by {
            assert(pair_ok(starts, mem, n, s));
        }
    }
    if segments_valid(starts, mem, n) {
        assert forall|i: int| 0 <= i && i + 1 < starts.len() implies #[trigger] pair_ok(
            starts,
            mem,
            n,
            i,
        ) by {
            assert(mem[i + 1] < n);
            assert(key_lt(starts[i], starts[i + 1]));
            lemma_walk(starts[i], upper_of(starts, i), 1, segment_len(mem, n, i));
            assert forall|p: int| 1 <= p < segment_len(mem, n, i) implies #[trigger] offset_violation(
                starts[i],
                upper_of(starts, i),
                p as nat,
            ) is None by {
                assert(offset_separated(starts, mem, n, i, p));
                assert(steps(starts[i], p as nat) is Some);
                lemma_offset(starts, mem, n, i, p);
            }
        }
        let s = r - 1;
        lemma_walk(starts[s], upper_of(starts, s), 1, segment_len(mem, n, s));
        assert forall|p: int| 1 <= p < segment_len(mem, n, s) implies #[trigger] offset_violation(
            starts[s],
            upper_of(starts, s),
            p as nat,
        ) is None by {
            assert(offset_separated(starts, mem, n, s, p));
            assert(steps(starts[s], p as nat) is Some);
            lemma_offset(starts, mem, n, s, p);
        }
    }
}

/// Where segment data violates exactly one of the invariants that the tags report,
/// the validator reports that invariant's tag.
pub proof fn lemma_single_violation_reported<I: NciIndex>(
    starts: Seq<I>,
    mem: Seq<usize>,
    n: nat,
    t: NciArrayInvariant,
)
    requires
        order_laws::<I>(),
        !invariant_holds(t, starts, mem, n),
        forall|u: NciArrayInvariant| u != t ==> invariant_holds(u, starts, mem, n),
    ensures
        check_result(starts, mem, n) == Err::<(), NciArrayInvariant>(t),
{
    lemma_check_sound(starts, mem, n);
}

/// Walks segment `start` from offset 1 up to `len` (exclusive), as the validator
/// does; returns the key at offset `len - 1`.
fn walk_segment<I: NciIndex>(start: I, upper: Option<I>, len: usize) -> (r: Result<
    I,
    NciArrayInvariant,
>)
    requires
        len >= 1,
    ensures
        r matches Err(t) ==> (t == NciArrayInvariant::NciIndexCanGenerateIndicesForAllEntries || t
            == NciArrayInvariant::SegmentsDisjoint || t
            == NciArrayInvariant::NciIndexCalculatesCorrectDistanceForAllEntries),
        order_laws::<I>() ==> match walk_violation(start, upper, 1, len as int) {
            Some(t) => r == Err::<I, NciArrayInvariant>(t),
            None => r == Ok::<I, NciArrayInvariant>(steps(start, (len - 1) as nat).unwrap())
                && steps(start, (len - 1) as nat) is Some,
        },
{
    let mut idx = start;
    let mut offset: usize = 1;
    while offset < len
        invariant
            1 <= offset <= len,
            steps(start, (offset - 1) as nat) == Some(idx),
            order_laws::<I>() ==> walk_violation(start, upper, 1, len as int) == walk_violation(
                start,
                upper,
                offset as nat,
                len as int,
            ),
        decreases len - offset,
    {
        assert(steps(start, offset as nat) == match steps(start, (offset - 1) as nat) {
            Some(j) => j.spec_next(),
            None => None,
        });
        let next_idx = match idx.next() {
            Some(next_idx) => next_idx,
            None => return Err(NciArrayInvariant::NciIndexCanGenerateIndicesForAllEntries),
        };
        let below_start = match next_idx.cmp(&start) {
            Ordering::Less => true,
            _ => false,
        };
        let beyond_upper = match upper {
            Some(u) => match next_idx.cmp(&u) {
                Ordering::Less => false,
                _ => true,
            },
            None => false,
        };
        if beyond_upper || below_start {
            return Err(NciArrayInvariant::SegmentsDisjoint);
        }
        match start.distance(next_idx) {
            Some(distance) => {
                if distance != offset {
                    return Err(NciArrayInvariant::NciIndexCalculatesCorrectDistanceForAllEntries);
                }
            },
            None => return Err(NciArrayInvariant::NciIndexCalculatesCorrectDistanceForAllEntries),
        }
        idx = next_idx;
        offset = offset + 1;
    }
    Ok(idx)
}

/// Checks segment data against every invariant that lookups and iteration rely on.
///
/// Returns the first invariant found violated, checking the emptiness of the three
/// sequences, their lengths, the first storage start, then each pair of neighbouring
/// segments in order (storage bounds, monotonicity, the keys of the lower segment,
/// minimality), and finally the keys of the last segment.
pub fn check_segment_data_invariants<I: NciIndex>(
    segments_idx_begin: &[I],
    segments_mem_idx_begin: &[usize],
    values_len: usize,
) -> (r: Result<(), NciArrayInvariant>)
    ensures
        order_laws::<I>() ==> r == check_result(
            segments_idx_begin@,
            segments_mem_idx_begin@,
            values_len as nat,
        ),
        order_laws::<I>() ==> (r is Ok <==> segments_valid(
            segments_idx_begin@,
            segments_mem_idx_begin@,
            values_len as nat,
        )),
        (r == Err::<(), NciArrayInvariant>(NciArrayInvariant::IsEmptyEquivalent))
            <== !emptiness_consistent(
            segments_idx_begin@.len(),
            segments_mem_idx_begin@.len(),
            values_len as nat,
        ),
        (r == Err::<(), NciArrayInvariant>(NciArrayInvariant::IsEmptyEquivalent))
            ==> !emptiness_consistent(
            segments_idx_begin@.len(),
            segments_mem_idx_begin@.len(),
            values_len as nat,
        ),
        values_len == 0 && segments_idx_begin@.len() == 0 && segments_mem_idx_begin@.len() == 0
            ==> r == Ok::<(), NciArrayInvariant>(()),
        (r == Err::<(), NciArrayInvariant>(NciArrayInvariant::SegmentDataLengthEquivalent)) <==> (
        emptiness_consistent(
            segments_idx_begin@.len(),
            segments_mem_idx_begin@.len(),
            values_len as nat,
        ) && values_len > 0 && segments_idx_begin@.len() != segments_mem_idx_begin@.len()),
        (r == Err::<(), NciArrayInvariant>(NciArrayInvariant::EntriesStartAtMemoryIndexZero)) <==> (
        emptiness_consistent(
            segments_idx_begin@.len(),
            segments_mem_idx_begin@.len(),
            values_len as nat,
        ) && values_len > 0 && segments_idx_begin@.len() == segments_mem_idx_begin@.len()
            && segments_mem_idx_begin@[0] != 0),
{
    proof {
        if order_laws::<I>() {
            lemma_check_sound(segments_idx_begin@, segments_mem_idx_begin@, values_len as nat);
        }
    }
    let ghost starts = segments_idx_begin@;
    let ghost mem = segments_mem_idx_begin@;
    let ghost n = values_len as nat;
    if segments_idx_begin.is_empty() == segments_mem_idx_begin.is_empty()
        && segments_mem_idx_begin.is_empty() == (values_len == 0) {
        if values_len == 0 {
            return Ok(());
        }
    } else {
        return Err(NciArrayInvariant::IsEmptyEquivalent);
    }
    if segments_idx_begin.len() != segments_mem_idx_begin.len() {
        return Err(NciArrayInvariant::SegmentDataLengthEquivalent);
    }
    if segments_mem_idx_begin[0] != 0 {
        return Err(NciArrayInvariant::EntriesStartAtMemoryIndexZero);
    }
    let count = segments_idx_begin.len();
    let mut segment: usize = 0;
    while segment + 1 < count
        invariant
            starts == segments_idx_begin@,
            mem == segments_mem_idx_begin@,
            n == values_len,
            count == starts.len() == mem.len(),
            count >= 1,
            segment < count,
            n > 0,
            mem[0] == 0,
            segment > 0 ==> mem[segment as int] < n,
            order_laws::<I>() ==> violation_from(starts, mem, n, 0) == violation_from(
                starts,
                mem,
                n,
                segment as int,
            ),
            order_laws::<I>() ==> (check_result(starts, mem, n) is Ok <==> segments_valid(
                starts,
                mem,
                n,
            )),
            check_result(starts, mem, n) == match violation_from(starts, mem, n, 0) {
                Some(t) => Err(t),
                None => Ok(()),
            },
        decreases count - segment,
    {
        let mem_idx_begin = segments_mem_idx_begin[segment];
        let mem_idx_end = segments_mem_idx_begin[segment + 1];
        if mem_idx_end >= values_len {
            return Err(NciArrayInvariant::MemoryIndicesInBounds);
        }
        let idx_begin = segments_idx_begin[segment];
        let next_begin = segments_idx_begin[segment + 1];
        let keys_increase = match idx_begin.cmp(&next_begin) {
            Ordering::Less => true,
            _ => false,
        };
        if !keys_increase || mem_idx_begin >= mem_idx_end {
            return Err(NciArrayInvariant::SegmentDataElementsStrictlyMonotonic);
        }
        let last = match walk_segment(idx_begin, Some(next_begin), mem_idx_end - mem_idx_begin) {
            Ok(last) => last,
            Err(t) => return Err(t),
        };
        proof {
            let len = (mem[segment as int + 1] - mem[segment as int]) as nat;
            assert(steps(starts[segment as int], len) == match steps(
                starts[segment as int],
                (len - 1) as nat,
            ) {
                Some(j) => j.spec_next(),
                None => None,
            });
        }
        match last.next() {
            Some(after) => match after.cmp(&next_begin) {
                Ordering::Equal => return Err(NciArrayInvariant::SegmentDataMinimal),
                _ => {},
            },
            None => {},
        }
        segment = segment + 1;
    }
    let mem_idx_begin = segments_mem_idx_begin[segment];
    match walk_segment(segments_idx_begin[segment], None, values_len - mem_idx_begin) {
        Ok(_) => Ok(()),
        Err(t) => Err(t),
    }
}

} // verus!
