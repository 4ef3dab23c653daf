//! Phase bins.
use crate::score::{INFINITY_BITS, MAGNITUDE_MASK, SIGN_BIT};
use crate::slot::{
    is_finite, lemma_floor_of_negative, lemma_modulo_of_negative, lemma_modulo_of_successor,
    scaled_size, slot, whole_modulo,
};
use vstd::arithmetic::div_mod::lemma_div_pos_is_pos;
use vstd::arithmetic::power2::{lemma_pow2_pos, pow2};
use vstd::prelude::*;

verus! {

/// The largest number of phase bins that a search may use.
pub const MAX_BINS: usize = 20;

/// The bin of a sample, from the product of its time and the scale of the
/// fold: the floor of the product modulo the number of bins, which is never
/// negative. A product that is not finite has bin 0.
pub open spec fn bin_of(product: u64, n_bins: usize) -> int {
    if is_finite(product) {
        slot(product) % (n_bins as int)
    } else {
        0
    }
}

/// Bin `b` receives none of the samples.
pub open spec fn bin_is_empty(products: Seq<u64>, n_bins: usize, b: int) -> bool {
    forall|i: int| 0 <= i < products.len() ==> bin_of(#[trigger] products[i], n_bins) != b
}

/// Says whether a search may use this number of bins.
pub fn bins_allowed(n_bins: usize) -> (allowed: bool)
    ensures
        allowed == (n_bins <= MAX_BINS),
{
    n_bins <= MAX_BINS
}

/// Assigns a sample to its phase bin, from the product of its time and the
/// scale of the fold, which is the frequency times the number of bins.
///
/// The bin is the floor of the product modulo the number of bins, for
/// negative products too: -0.5 with two bins falls into bin 1. A product
/// that is an infinity or no number falls into bin 0.
pub fn sample_bin(product: u64, n_bins: usize) -> (bin: usize)
    requires
        n_bins > 0,
    ensures
        bin == bin_of(product, n_bins),
        bin < n_bins,
{
    let mag: u64 = product & MAGNITUDE_MASK;
    if mag >= INFINITY_BITS {
        return 0;
    }
    let n: u64 = n_bins as u64;
    let (r, whole) = whole_modulo(product, n);
    let ghost size = scaled_size(product);
    let ghost full = pow2(1074) as int;
    proof {
        lemma_pow2_pos(1074);
    }
    if product & SIGN_BIT == 0 {
        r as usize
    } else {
        let below: u64 = if whole {
            r
        } else if r + 1 == n {
            0
        } else {
            r + 1
        };
        proof {
            lemma_floor_of_negative(size, full);
            let steps = if whole {
                size / full
            } else {
                size / full + 1
            };
            lemma_div_pos_is_pos(size, full);
            if !whole {
                lemma_modulo_of_successor(size / full, n as int);
            }
            assert(below == steps % (n as int));
            lemma_modulo_of_negative(steps, n as int);
            assert(slot(product) == -steps);
        }
        if below == 0 {
            0
        } else {
            (n - below) as usize
        }
    }
}

/// Fewer than `n` values leave one of `0 .. n` out.
proof fn lemma_value_left_out(values: Seq<int>, n: int) -> (b: int)
    requires
        values.len() < n,
    ensures
        0 <= b < n,
        forall|i: int| 0 <= i < values.len() ==> values[i] != b,
    decreases n,
{
    if exists|p: int| 0 <= p < values.len() && values[p] == n - 1 {
        let p = choose|p: int| 0 <= p < values.len() && values[p] == n - 1;
        let rest = values.remove(p);
        let b = lemma_value_left_out(rest, n - 1);
        assert forall|i: int| 0 <= i < values.len() implies values[i] != b by {
            if i < p {
                assert(rest[i] == values[i]);
            } else if i > p {
                assert(rest[i - 1] == values[i]);
            }
        }
        b
    } else {
        n - 1
    }
}

/// With more bins than samples, some bin receives no sample, whatever the
/// products of time and scale are.
pub proof fn lemma_some_bin_is_empty(products: Seq<u64>, n_bins: usize)
    requires
        products.len() < n_bins,
    ensures
        exists|b: int| 0 <= b < n_bins && bin_is_empty(products, n_bins, b),
{
    let values = Seq::new(products.len(), |i: int| bin_of(products[i], n_bins));
    let b = lemma_value_left_out(values, n_bins as int);
    assert forall|i: int| 0 <= i < products.len() implies bin_of(#[trigger] products[i], n_bins)
        != b by {
        assert(values[i] == bin_of(products[i], n_bins));
    }
    assert(bin_is_empty(products, n_bins, b));
}

} // verus!
