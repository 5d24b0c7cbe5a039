//! Input levels packed into a 64-bit mask, one bit per input pin.
//!
//! Bit `k` of a mask is the level on input pin `k`, counting pins from zero
//! and bits from the least significant end.

use vstd::prelude::*;

verus! {

/// Number of pins that a mask has room for.
pub const MAX_PINS: usize = 64;

/// The mask with only bit `k` set.
pub open spec fn pin_bit(k: int) -> u64 {
    1u64 << (k as u64)
}

/// Whether bit `k` of `mask` is set.
pub open spec fn bit_is_set(mask: u64, k: int) -> bool {
    mask & pin_bit(k) != 0
}

/// `width` levels read from `mask`, bit `k` at index `k`. Beyond the mask's
/// 64 bits every level is low.
pub open spec fn decode_bits(mask: u64, width: int) -> Seq<bool> {
    Seq::new(width as nat, |k: int| k < MAX_PINS && bit_is_set(mask, k))
}

/// `mask` with bit `k` set to `level`.
pub open spec fn with_bit(mask: u64, k: int, level: bool) -> u64 {
    if level {
        mask | pin_bit(k)
    } else {
        mask & !pin_bit(k)
    }
}

/// `mask` with bit `k` flipped.
pub open spec fn with_bit_flipped(mask: u64, k: int) -> u64 {
    mask ^ pin_bit(k)
}

/// Setting bit `j` to a level changes bit `j` to that level and no other bit.
pub proof fn lemma_with_bit(mask: u64, j: int, level: bool, k: int)
    requires
        0 <= j < 64,
        0 <= k < 64,
    ensures
        bit_is_set(with_bit(mask, j, level), k) == (if k == j {
            level
        } else {
            bit_is_set(mask, k)
        }),
{
    let ju = j as u64;
    let ku = k as u64;
    assert(((mask | (1u64 << ju)) & (1u64 << ku) != 0) == (ku == ju || (mask & (1u64 << ku) != 0)))
        by (bit_vector)
        requires
            ju < 64,
            ku < 64,
    ;
    assert(((mask & !(1u64 << ju)) & (1u64 << ku) != 0) == (ku != ju && (mask & (1u64 << ku)
        != 0))) by (bit_vector)
        requires
            ju < 64,
            ku < 64,
    ;
}

/// Flipping bit `j` inverts bit `j` and changes no other bit.
pub proof fn lemma_with_bit_flipped(mask: u64, j: int, k: int)
    requires
        0 <= j < 64,
        0 <= k < 64,
    ensures
        bit_is_set(with_bit_flipped(mask, j), k) == (if k == j {
            !bit_is_set(mask, k)
        } else {
            bit_is_set(mask, k)
        }),
{
    let ju = j as u64;
    let ku = k as u64;
    assert(((mask ^ (1u64 << ju)) & (1u64 << ku) != 0) == ((ku == ju) != (mask & (1u64 << ku)
        != 0))) by (bit_vector)
        requires
            ju < 64,
            ku < 64,
    ;
}

/// Flipping a bit twice gives the mask back, and setting a bit to the level
/// it already has changes nothing.
pub proof fn lemma_bit_round_trip(mask: u64, j: int)
    requires
        0 <= j < 64,
    ensures
        with_bit_flipped(with_bit_flipped(mask, j), j) == mask,
        with_bit(mask, j, bit_is_set(mask, j)) == mask,
        !bit_is_set(mask, j) ==> with_bit(with_bit(mask, j, true), j, false) == mask,
{
    let ju = j as u64;
    assert(((mask ^ (1u64 << ju)) ^ (1u64 << ju)) == mask) by (bit_vector);
    assert((mask & (1u64 << ju) != 0) ==> (mask | (1u64 << ju)) == mask) by (bit_vector);
    assert((mask & (1u64 << ju) == 0) ==> (mask & !(1u64 << ju)) == mask) by (bit_vector);
    assert((mask & (1u64 << ju) == 0) ==> ((mask | (1u64 << ju)) & !(1u64 << ju)) == mask)
        by (bit_vector);
}

/// No bit of the zero mask is set.
pub proof fn lemma_zero_mask(k: int)
    requires
        0 <= k < 64,
    ensures
        !bit_is_set(0, k),
{
    let ku = k as u64;
    assert(0u64 & (1u64 << ku) == 0) by (bit_vector);
}

/// Whether bit `k` of `mask` is set.
pub fn test_bit(mask: u64, k: usize) -> (r: bool)
    requires
        k < MAX_PINS,
    ensures
        r == bit_is_set(mask, k as int),
{
    mask & (1u64 << (k as u64)) != 0
}

/// `mask` with bit `k` set to `level`.
pub fn set_bit(mask: u64, k: usize, level: bool) -> (r: u64)
    requires
        k < MAX_PINS,
    ensures
        r == with_bit(mask, k as int, level),
{
    if level {
        mask | (1u64 << (k as u64))
    } else {
        mask & !(1u64 << (k as u64))
    }
}

/// `mask` with bit `k` flipped.
pub fn flip_bit(mask: u64, k: usize) -> (r: u64)
    requires
        k < MAX_PINS,
    ensures
        r == with_bit_flipped(mask, k as int),
{
    mask ^ (1u64 << (k as u64))
}

/// `input_count` levels read from `input_u64`: the level of input pin `k`,
/// which is bit `k`, stands at index `k`. Beyond the 64 bits every level is
/// low.
pub fn convert_u64_in_bools(input_u64: u64, input_count: usize) -> (levels: Vec<bool>)
    ensures
        levels@ == decode_bits(input_u64, input_count as int),
{
    let mut levels: Vec<bool> = Vec::new();
    let mut k: usize = 0;
    while k < input_count
        invariant
            k <= input_count,
            levels@.len() == k,
            forall|i: int|
                0 <= i < k ==> #[trigger] levels@[i] == (i < MAX_PINS && bit_is_set(input_u64, i)),
        decreases input_count - k,
    {
        let level = k < MAX_PINS && test_bit(input_u64, k);
        levels.push(level);
        k += 1;
    }
    assert(levels@ =~= decode_bits(input_u64, input_count as int));
    levels
}

} // verus!
