//! The integer lattice hash under the value noise.

use vstd::prelude::*;

verus! {

/// The largest value of the hash; the noise divides by it.
pub const HASH_MAX: i32 = 0xFFFF;

/// The hash of lattice point `(x, y)`: two wrapping products mixed by
/// exclusive or, a wrapping offset, and the low sixteen bits of the result.
pub open spec fn lattice_hash(x: i32, y: i32) -> i32 {
    (x.wrapping_mul(374761393i32) ^ y.wrapping_mul(668265263i32)).wrapping_add(1274126177i32)
        & 0xFFFFi32
}

/// Hashes a lattice point to `0..=HASH_MAX`.
pub fn hash_to_unit(x: i32, y: i32) -> (h: i32)
    ensures
        h == lattice_hash(x, y),
        0 <= h <= HASH_MAX,
{
    let mixed: i32 = (x.wrapping_mul(374761393i32) ^ y.wrapping_mul(668265263i32)).wrapping_add(
        1274126177i32,
    );
    assert(0 <= mixed & 0xFFFFi32 <= 0xFFFFi32) by (bit_vector);
    mixed & 0xFFFFi32
}

/// The hashes at the four corners of the lattice cell whose lower corner is
/// `(x, y)`, in the order the bilinear blend reads them: `(x, y)`,
/// `(x + 1, y)`, `(x, y + 1)`, `(x + 1, y + 1)`. The step to the next
/// lattice line wraps at the end of the integer range.
pub fn cell_hashes(x: i32, y: i32) -> (h: (i32, i32, i32, i32))
    ensures
        h.0 == lattice_hash(x, y),
        h.1 == lattice_hash(x.wrapping_add(1i32), y),
        h.2 == lattice_hash(x, y.wrapping_add(1i32)),
        h.3 == lattice_hash(x.wrapping_add(1i32), y.wrapping_add(1i32)),
        0 <= h.0 <= HASH_MAX,
        0 <= h.1 <= HASH_MAX,
        0 <= h.2 <= HASH_MAX,
        0 <= h.3 <= HASH_MAX,
{
    let x1: i32 = x.wrapping_add(1i32);
    let y1: i32 = y.wrapping_add(1i32);
    (hash_to_unit(x, y), hash_to_unit(x1, y), hash_to_unit(x, y1), hash_to_unit(x1, y1))
}

} // verus!
