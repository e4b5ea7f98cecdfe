//! Rows of a bit plane: one `u32` per row, bit `k` for the cell in column `k`.

use vstd::prelude::*;

verus! {

/// Bit `k` of `mask` is set.
pub open spec fn has_bit(mask: u32, k: int) -> bool {
    0 <= k < 32 && (mask >> (k as u32)) & 1 == 1
}

proof fn lemma_bit_zero(k: u32)
    by (bit_vector)
    requires
        k < 32,
    ensures
        (0u32 >> k) & 1 == 0,
{
}

proof fn lemma_bit_and_not(a: u32, b: u32, k: u32)
    by (bit_vector)
    requires
        k < 32,
    ensures
        (((a & !b) >> k) & 1 == 1) == (((a >> k) & 1 == 1) && !((b >> k) & 1 == 1)),
{
}

proof fn lemma_bit_set(mask: u32, at: u32, k: u32)
    by (bit_vector)
    requires
        k < 32,
        at < 32,
    ensures
        (((mask | (1u32 << at)) >> k) & 1 == 1) == (((mask >> k) & 1 == 1) || k == at),
{
}

/// No bit of the empty row is set.
pub proof fn lemma_empty_row(k: int)
    ensures
        !has_bit(0, k),
{
    if 0 <= k < 32 {
        lemma_bit_zero(k as u32);
    }
}

/// Whether bit `k` of `mask` is set.
pub fn test_bit(mask: u32, k: usize) -> (set: bool)
    requires
        k < 32,
    ensures
        set == has_bit(mask, k as int),
{
    (mask >> (k as u32)) & 1 == 1
}

/// `mask` with bit `at` set.
pub fn with_bit(mask: u32, at: usize) -> (out: u32)
    requires
        at < 32,
    ensures
        forall|k: int| #[trigger] has_bit(out, k) == (has_bit(mask, k) || k == at),
{
    let out: u32 = mask | (1u32 << (at as u32));
    proof {
        assert forall|k: int| #[trigger] has_bit(out, k) == (has_bit(mask, k) || k == at) by {
            if 0 <= k < 32 {
                lemma_bit_set(mask, at as u32, k as u32);
            }
        }
    }
    out
}

/// The bits of `a` that are not in `b`.
pub fn and_not(a: u32, b: u32) -> (out: u32)
    ensures
        forall|k: int| #[trigger] has_bit(out, k) == (has_bit(a, k) && !has_bit(b, k)),
{
    let out: u32 = a & !b;
    proof {
        assert forall|k: int| #[trigger] has_bit(out, k) == (has_bit(a, k) && !has_bit(b, k)) by {
            if 0 <= k < 32 {
                lemma_bit_and_not(a, b, k as u32);
            }
        }
    }
    out
}

} // verus!
