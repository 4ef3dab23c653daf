//! Ordering of binary64 bit patterns.
use vstd::prelude::*;

verus! {

/// All bits of a pattern but its sign.
pub const MAGNITUDE_MASK: u64 = 0x7fff_ffff_ffff_ffff;

/// The sign bit of a pattern.
pub const SIGN_BIT: u64 = 0x8000_0000_0000_0000;

/// The pattern of positive infinity: the largest magnitude that is a number.
pub const INFINITY_BITS: u64 = 0x7ff0_0000_0000_0000;

/// The pattern without its sign.
pub open spec fn magnitude(bits: u64) -> u64 {
    bits & 0x7fff_ffff_ffff_ffff
}

/// The pattern stands for no number: its exponent is all ones and its
/// fraction is not zero.
pub open spec fn is_nan(bits: u64) -> bool {
    magnitude(bits) > 0x7ff0_0000_0000_0000
}

/// The pattern has its sign bit set.
pub open spec fn is_negative(bits: u64) -> bool {
    bits & 0x8000_0000_0000_0000 != 0
}

/// The key by which a pattern is ordered: `None` where it stands for no
/// number, else its magnitude with its sign. Both zeros have the key 0, and
/// of two numbers the larger has the larger key.
pub open spec fn score(bits: u64) -> Option<i64> {
    if is_nan(bits) {
        None
    } else if is_negative(bits) {
        Some((0 - magnitude(bits)) as i64)
    } else {
        Some(magnitude(bits) as i64)
    }
}

/// Computes the key of a pattern.
pub fn score_of_bits(bits: u64) -> (key: Option<i64>)
    ensures
        key == score(bits),
        key.is_none() <==> is_nan(bits),
        key.is_some() ==> -0x7ff0_0000_0000_0000 <= key.unwrap() <= 0x7ff0_0000_0000_0000,
{
    let mag: u64 = bits & MAGNITUDE_MASK;
    if mag > INFINITY_BITS {
        None
    } else if bits & SIGN_BIT != 0 {
        Some(-(mag as i64))
    } else {
        Some(mag as i64)
    }
}

/// The keys of a sequence of patterns, in the same order.
pub open spec fn scores(patterns: Seq<u64>) -> Seq<Option<i64>> {
    Seq::new(patterns.len(), |i: int| score(patterns[i]))
}

/// Computes the keys of a sequence of patterns.
pub fn scores_of(patterns: &[u64]) -> (keys: Vec<Option<i64>>)
    ensures
        keys@ == scores(patterns@),
{
    let mut keys: Vec<Option<i64>> = Vec::new();
    let mut i: usize = 0;
    while i < patterns.len()
        invariant
            i <= patterns.len(),
            keys.len() == i,
            forall|j: int| 0 <= j < i ==> keys[j] == score(patterns@[j]),
        decreases patterns.len() - i,
    {
        keys.push(score_of_bits(patterns[i]));
        i += 1;
    }
    assert(keys@ =~= scores(patterns@));
    keys
}

} // verus!
