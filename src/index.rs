use core::cmp::Ordering;
use vstd::prelude::*;
use vstd::std_specs::cmp::{OrdSpec, PartialOrdSpec};

verus! {

/// `a` comes strictly before `b` in the key type's total order.
pub open spec fn key_lt<I: Ord>(a: I, b: I) -> bool {
    a.cmp_spec(&b) == Ordering::Less
}

/// `a` comes before `b` or is `b`.
pub open spec fn key_le<I: Ord>(a: I, b: I) -> bool {
    a.cmp_spec(&b) != Ordering::Greater
}

/// A key domain usable by a non-contiguously indexed array: a total order with a
/// successor operation and a distance that counts successor steps.
///
/// What the array proves of its lookups holds for key types that obey
/// [`index_laws`]; this crate shows that for the primitive integers.
pub trait NciIndex: Ord + Copy + Sized {
    /// The successor of `self`, or `None` where `self` is the greatest key.
    /// Implementations verified with this crate define it; the default leaves it
    /// unspecified.
    open spec fn spec_next(self) -> Option<Self> {
        arbitrary()
    }

    /// How many successor steps lead from `self` to `other`, if that count exists
    /// and fits in a `usize`. Implementations verified with this crate define it;
    /// the default leaves it unspecified.
    open spec fn spec_distance(self, other: Self) -> Option<usize> {
        arbitrary()
    }

    /// The successor of `self`; `None` where `self` is the greatest key.
    fn next(self) -> (r: Option<Self>)
        ensures
            r == self.spec_next(),
    ;

    /// The number of successor steps from `self` to `other`; `None` where `other`
    /// lies below `self` or the count does not fit in a `usize`.
    fn distance(self, other: Self) -> (r: Option<usize>)
        ensures
            r == self.spec_distance(other),
    ;
}

/// The order of a key type: `cmp` is a total order that agrees with `==`, and
/// `partial_cmp` (through which `<` and the std sorts compare) agrees with `cmp`.
pub open spec fn order_laws<I: Ord>() -> bool {
    &&& I::obeys_cmp_spec()
    &&& I::obeys_partial_cmp_spec()
    &&& forall|a: I, b: I| #[trigger] a.partial_cmp_spec(&b) == Some(a.cmp_spec(&b))
    &&& forall|a: I, b: I| #[trigger] a.cmp_spec(&b) == Ordering::Equal <==> a == b
    &&& forall|a: I, b: I|
        #[trigger] a.cmp_spec(&b) == Ordering::Less <==> b.cmp_spec(&a) == Ordering::Greater
    &&& forall|a: I, b: I, c: I|
        #[trigger] a.cmp_spec(&b) == Ordering::Less && #[trigger] b.cmp_spec(&c) == Ordering::Less
            ==> a.cmp_spec(&c) == Ordering::Less
}

/// The distance of a key type counts successor steps: it is zero from a key to itself
/// only, one step less from the successor of the start, and one step more to the
/// successor of the end.
pub open spec fn distance_laws<I: NciIndex>() -> bool {
    &&& forall|a: I| #[trigger] a.spec_distance(a) == Some(0usize)
    &&& forall|a: I, b: I| #[trigger] a.spec_distance(b) == Some(0usize) ==> a == b
    &&& forall|a: I, b: I|
        match #[trigger] a.spec_distance(b) {
            Some(d) => d > 0 ==> (a.spec_next() matches Some(n) && n.spec_distance(b) == Some(
                (d - 1) as usize,
            )),
            None => true,
        }
    &&& forall|a: I, b: I|
        match #[trigger] a.spec_distance(b) {
            Some(d) => match b.spec_next() {
                Some(c) => d < usize::MAX ==> a.spec_distance(c) == Some((d + 1) as usize),
                None => true,
            },
            None => true,
        }
}

/// The contract of a key type: its order obeys [`order_laws`], a successor lies
/// strictly above its key, and its distance obeys [`distance_laws`].
pub open spec fn index_laws<I: NciIndex>() -> bool {
    &&& order_laws::<I>()
    &&& forall|k: I| #[trigger] k.spec_next() matches Some(n) ==> key_lt(k, n)
    &&& distance_laws::<I>()
}

impl NciIndex for u8 {
    open spec fn spec_next(self) -> Option<u8> {
        if self < u8::MAX {
            Some((self + 1) as u8)
        } else {
            None
        }
    }

    open spec fn spec_distance(self, other: u8) -> Option<usize> {
        if self <= other && other - self <= usize::MAX {
            Some((other - self) as usize)
        } else {
            None
        }
    }

    fn next(self) -> (r: Option<u8>) {
        self.checked_add(1)
    }

    fn distance(self, other: u8) -> (r: Option<usize>) {
        if self <= other {
            let d: u8 = other - self;
            if (d as u128) <= (usize::MAX as u128) {
                Some(d as usize)
            } else {
                None
            }
        } else {
            None
        }
    }
}

impl NciIndex for u16 {
    open spec fn spec_next(self) -> Option<u16> {
        if self < u16::MAX {
            Some((self + 1) as u16)
        } else {
            None
        }
    }

    open spec fn spec_distance(self, other: u16) -> Option<usize> {
        if self <= other && other - self <= usize::MAX {
            Some((other - self) as usize)
        } else {
            None
        }
    }

    fn next(self) -> (r: Option<u16>) {
        self.checked_add(1)
    }

    fn distance(self, other: u16) -> (r: Option<usize>) {
        if self <= other {
            let d: u16 = other - self;
            if (d as u128) <= (usize::MAX as u128) {
                Some(d as usize)
            } else {
                None
            }
        } else {
            None
        }
    }
}

impl NciIndex for u32 {
    open spec fn spec_next(self) -> Option<u32> {
        if self < u32::MAX {
            Some((self + 1) as u32)
        } else {
            None
        }
    }

    open spec fn spec_distance(self, other: u32) -> Option<usize> {
        if self <= other && other - self <= usize::MAX {
            Some((other - self) as usize)
        } else {
            None
        }
    }

    fn next(self) -> (r: Option<u32>) {
        self.checked_add(1)
    }

    fn distance(self, other: u32) -> (r: Option<usize>) {
        if self <= other {
            let d: u32 = other - self;
            if (d as u128) <= (usize::MAX as u128) {
                Some(d as usize)
            } else {
                None
            }
        } else {
            None
        }
    }
}

impl NciIndex for u64 {
    open spec fn spec_next(self) -> Option<u64> {
        if self < u64::MAX {
            Some((self + 1) as u64)
        } else {
            None
        }
    }

    open spec fn spec_distance(self, other: u64) -> Option<usize> {
        if self <= other && other - self <= usize::MAX {
            Some((other - self) as usize)
        } else {
            None
        }
    }

    fn next(self) -> (r: Option<u64>) {
        self.checked_add(1)
    }

    fn distance(self, other: u64) -> (r: Option<usize>) {
        if self <= other {
            let d: u64 = other - self;
            if (d as u128) <= (usize::MAX as u128) {
                Some(d as usize)
            } else {
                None
            }
        } else {
            None
        }
    }
}

impl NciIndex for u128 {
    open spec fn spec_next(self) -> Option<u128> {
        if self < u128::MAX {
            Some((self + 1) as u128)
        } else {
            None
        }
    }

    open spec fn spec_distance(self, other: u128) -> Option<usize> {
        if self <= other && other - self <= usize::MAX {
            Some((other - self) as usize)
        } else {
            None
        }
    }

    fn next(self) -> (r: Option<u128>) {
        self.checked_add(1)
    }

    fn distance(self, other: u128) -> (r: Option<usize>) {
        if self <= other {
            let d: u128 = other - self;
            if (d as u128) <= (usize::MAX as u128) {
                Some(d as usize)
            } else {
                None
            }
        } else {
            None
        }
    }
}

impl NciIndex for i8 {
    open spec fn spec_next(self) -> Option<i8> {
        if self < i8::MAX {
            Some((self + 1) as i8)
        } else {
            None
        }
    }

    open spec fn spec_distance(self, other: i8) -> Option<usize> {
        if self <= other && other - self <= usize::MAX {
            Some((other - self) as usize)
        } else {
            None
        }
    }

    fn next(self) -> (r: Option<i8>) {
        self.checked_add(1)
    }

    fn distance(self, other: i8) -> (r: Option<usize>) {
        if self <= other {
            let d: i128 = (other as i128) - (self as i128);
            if d <= (usize::MAX as i128) {
                Some(d as usize)
            } else {
                None
            }
        } else {
            None
        }
    }
}

impl NciIndex for i16 {
    open spec fn spec_next(self) -> Option<i16> {
        if self < i16::MAX {
            Some((self + 1) as i16)
        } else {
            None
        }
    }

    open spec fn spec_distance(self, other: i16) -> Option<usize> {
        if self <= other && other - self <= usize::MAX {
            Some((other - self) as usize)
        } else {
            None
        }
    }

    fn next(self) -> (r: Option<i16>) {
        self.checked_add(1)
    }

    fn distance(self, other: i16) -> (r: Option<usize>) {
        if self <= other {
            let d: i128 = (other as i128) - (self as i128);
            if d <= (usize::MAX as i128) {
                Some(d as usize)
            } else {
                None
            }
        } else {
            None
        }
    }
}

impl NciIndex for i32 {
    open spec fn spec_next(self) -> Option<i32> {
        if self < i32::MAX {
            Some((self + 1) as i32)
        } else {
            None
        }
    }

    open spec fn spec_distance(self, other: i32) -> Option<usize> {
        if self <= other && other - self <= usize::MAX {
            Some((other - self) as usize)
        } else {
            None
        }
    }

    fn next(self) -> (r: Option<i32>) {
        self.checked_add(1)
    }

    fn distance(self, other: i32) -> (r: Option<usize>) {
        if self <= other {
            let d: i128 = (other as i128) - (self as i128);
            if d <= (usize::MAX as i128) {
                Some(d as usize)
            } else {
                None
            }
        } else {
            None
        }
    }
}

impl NciIndex for i64 {
    open spec fn spec_next(self) -> Option<i64> {
        if self < i64::MAX {
            Some((self + 1) as i64)
        } else {
            None
        }
    }

    open spec fn spec_distance(self, other: i64) -> Option<usize> {
        if self <= other && other - self <= usize::MAX {
            Some((other - self) as usize)
        } else {
            None
        }
    }

    fn next(self) -> (r: Option<i64>) {
        self.checked_add(1)
    }

    fn distance(self, other: i64) -> (r: Option<usize>) {
        if self <= other {
            let d: i128 = (other as i128) - (self as i128);
            if d <= (usize::MAX as i128) {
                Some(d as usize)
            } else {
                None
            }
        } else {
            None
        }
    }
}

impl NciIndex for i128 {
    open spec fn spec_next(self) -> Option<i128> {
        if self < i128::MAX {
            Some((self + 1) as i128)
        } else {
            None
        }
    }

    open spec fn spec_distance(self, other: i128) -> Option<usize> {
        if self <= other && other - self <= usize::MAX {
            Some((other - self) as usize)
        } else {
            None
        }
    }

    fn next(self) -> (r: Option<i128>) {
        self.checked_add(1)
    }

    fn distance(self, other: i128) -> (r: Option<usize>) {
        if self <= other {
            // The difference fits in a u128; it is computed in two halves where the
            // operands lie on either side of zero.
            let d: u128 = if self >= 0 || other < 0 {
                (other - self) as u128
            } else {
                (other as u128) + ((-(self + 1)) as u128) + 1
            };
            if d <= (usize::MAX as u128) {
                Some(d as usize)
            } else {
                None
            }
        } else {
            None
        }
    }
}

/// The primitive `u8` obeys the key contract.
pub proof fn lemma_index_laws_u8()
    ensures
        index_laws::<u8>(),
{
}

/// The primitive `u16` obeys the key contract.
pub proof fn lemma_index_laws_u16()
    ensures
        index_laws::<u16>(),
{
}

/// The primitive `u32` obeys the key contract.
pub proof fn lemma_index_laws_u32()
    ensures
        index_laws::<u32>(),
{
}

/// The primitive `u64` obeys the key contract.
pub proof fn lemma_index_laws_u64()
    ensures
        index_laws::<u64>(),
{
}

/// The primitive `u128` obeys the key contract.
pub proof fn lemma_index_laws_u128()
    ensures
        index_laws::<u128>(),
{
}

/// The primitive `i8` obeys the key contract.
pub proof fn lemma_index_laws_i8()
    ensures
        index_laws::<i8>(),
{
}

/// The primitive `i16` obeys the key contract.
pub proof fn lemma_index_laws_i16()
    ensures
        index_laws::<i16>(),
{
}

/// The primitive `i32` obeys the key contract.
pub proof fn lemma_index_laws_i32()
    ensures
        index_laws::<i32>(),
{
}

/// The primitive `i64` obeys the key contract.
pub proof fn lemma_index_laws_i64()
    ensures
        index_laws::<i64>(),
{
}

/// The primitive `i128` obeys the key contract.
pub proof fn lemma_index_laws_i128()
    ensures
        index_laws::<i128>(),
{
}

} // verus!
