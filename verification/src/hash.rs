//! The 32-bit finalizer that spreads keys over the slots of a hashed table.

use vstd::prelude::*;

verus! {

/// First multiplier of the finalizer.
pub const FIRST_MULTIPLIER: u32 = 0x85eb_ca6b;

/// Second multiplier of the finalizer.
pub const SECOND_MULTIPLIER: u32 = 0xc2b2_ae35;

/// `x` with its upper bits folded down by `shift` positions.
pub open spec fn fold(x: u32, shift: u32) -> u32 {
    x ^ (x >> shift)
}

/// The low 32 bits of the product `x * factor`.
pub open spec fn scale(x: u32, factor: u32) -> u32 {
    ((x * factor) % 0x1_0000_0000) as u32
}

/// The finalizer as a mathematical function: fold by 16, scale by the first
/// multiplier, fold by 13, scale by the second multiplier, fold by 16.
pub open spec fn finalizer(x: u32) -> u32 {
    fold(scale(fold(scale(fold(x, 16), FIRST_MULTIPLIER), 13), SECOND_MULTIPLIER), 16)
}

/// Hashes `x` with the finalizer, in 32-bit wraparound arithmetic.
pub fn simple_hash(x: u32) -> (h: u32)
    ensures
        h == finalizer(x),
{
    let a: u32 = x ^ (x >> 16);
    let b: u32 = a.wrapping_mul(FIRST_MULTIPLIER);
    let c: u32 = b ^ (b >> 13);
    let d: u32 = c.wrapping_mul(SECOND_MULTIPLIER);
    d ^ (d >> 16)
}

} // verus!
