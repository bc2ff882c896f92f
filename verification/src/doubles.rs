//! Doubles by their 64-bit encodings: magnitude, order, and the extremes of a
//! column. Only comparisons are made here, no arithmetic.

use vstd::prelude::*;

verus! {

/// The sign bit of an encoding.
pub const SIGN: u64 = 0x8000_0000_0000_0000;

/// The encoding of positive infinity. Every magnitude above it is no number.
pub const INFINITY: u64 = 0x7FF0_0000_0000_0000;

/// The encoding of negative infinity.
pub const NEG_INFINITY: u64 = 0xFFF0_0000_0000_0000;

/// The encoding without its sign: that of the double's magnitude.
pub open spec fn magnitude(bits: u64) -> u64 {
    (bits % SIGN) as u64
}

/// Whether the encoding is that of a number, infinite ones included.
pub open spec fn is_number(bits: u64) -> bool {
    magnitude(bits) <= INFINITY
}

/// An integer that orders the numbers as the doubles are ordered: the
/// magnitude's encoding, taken negative under the sign bit. The two zeros
/// have the same rank.
pub open spec fn rank(bits: u64) -> int {
    if bits >= SIGN {
        -(magnitude(bits) as int)
    } else {
        magnitude(bits) as int
    }
}

/// The lesser of two doubles. What is no number gives way to the other; of
/// two that are equal the first stays.
pub open spec fn lesser(a: u64, b: u64) -> u64 {
    if !is_number(b) {
        a
    } else if !is_number(a) {
        b
    } else if rank(b) < rank(a) {
        b
    } else {
        a
    }
}

/// The greater of two doubles. What is no number gives way to the other; of
/// two that are equal the first stays.
pub open spec fn greater(a: u64, b: u64) -> u64 {
    if !is_number(b) {
        a
    } else if !is_number(a) {
        b
    } else if rank(b) > rank(a) {
        b
    } else {
        a
    }
}

/// The least of the first `n` values, starting from positive infinity.
pub open spec fn lowest_among(values: Seq<u64>, n: nat) -> u64
    decreases n,
{
    if n == 0 {
        INFINITY
    } else {
        lesser(lowest_among(values, (n - 1) as nat), values[n - 1])
    }
}

/// The greatest of the first `n` values, starting from negative infinity.
pub open spec fn highest_among(values: Seq<u64>, n: nat) -> u64
    decreases n,
{
    if n == 0 {
        NEG_INFINITY
    } else {
        greater(highest_among(values, (n - 1) as nat), values[n - 1])
    }
}

/// The magnitude of a double.
pub fn magnitude_of(bits: u64) -> (m: u64)
    ensures
        m == magnitude(bits),
{
    if bits >= SIGN {
        bits - SIGN
    } else {
        bits
    }
}

/// Decides whether the encoding is that of a number.
pub fn number(bits: u64) -> (b: bool)
    ensures
        b == is_number(bits),
{
    magnitude_of(bits) <= INFINITY
}

/// Decides whether the first double is less than the second, both being
/// numbers.
pub fn precedes(a: u64, b: u64) -> (less: bool)
    ensures
        less == (rank(a) < rank(b)),
{
    let ma: u64 = magnitude_of(a);
    let mb: u64 = magnitude_of(b);
    if a >= SIGN {
        if b >= SIGN {
            mb < ma
        } else {
            ma > 0 || mb > 0
        }
    } else {
        if b >= SIGN {
            false
        } else {
            ma < mb
        }
    }
}

/// The least of the values that are numbers. It is one of the values, or
/// positive infinity where none of them is a number.
pub fn lowest_of(values: &Vec<u64>) -> (least: u64)
    requires
        values@.len() > 0,
    ensures
        least == lowest_among(values@, values@.len()),
        is_number(least),
        forall|i: int|
            0 <= i < values@.len() && is_number(#[trigger] values@[i]) ==> rank(least) <= rank(
                values@[i],
            ),
        least == INFINITY || exists|i: int| 0 <= i < values@.len() && values@[i] == least,
{
    let mut least: u64 = INFINITY;
    let mut i: usize = 0;
    while i < values.len()
        invariant
            i <= values.len(),
            least == lowest_among(values@, i as nat),
            is_number(least),
            forall|j: int|
                0 <= j < i && is_number(#[trigger] values@[j]) ==> rank(least) <= rank(values@[j]),
            least == INFINITY || exists|j: int| 0 <= j < i && values@[j] == least,
        decreases values.len() - i,
    {
        let v: u64 = values[i];
        if number(v) && precedes(v, least) {
            least = v;
            assert(values@[i as int] == least);
        }
        i += 1;
    }
    least
}

/// The greatest of the values that are numbers. It is one of the values, or
/// negative infinity where none of them is a number.
pub fn highest_of(values: &Vec<u64>) -> (most: u64)
    requires
        values@.len() > 0,
    ensures
        most == highest_among(values@, values@.len()),
        is_number(most),
        forall|i: int|
            0 <= i < values@.len() && is_number(#[trigger] values@[i]) ==> rank(values@[i])
                <= rank(most),
        most == NEG_INFINITY || exists|i: int| 0 <= i < values@.len() && values@[i] == most,
{
    let mut most: u64 = NEG_INFINITY;
    let mut i: usize = 0;
    while i < values.len()
        invariant
            i <= values.len(),
            most == highest_among(values@, i as nat),
            is_number(most),
            forall|j: int|
                0 <= j < i && is_number(#[trigger] values@[j]) ==> rank(values@[j]) <= rank(most),
            most == NEG_INFINITY || exists|j: int| 0 <= j < i && values@[j] == most,
        decreases values.len() - i,
    {
        let v: u64 = values[i];
        if number(v) && precedes(most, v) {
            most = v;
            assert(values@[i as int] == most);
        }
        i += 1;
    }
    most
}

} // verus!
