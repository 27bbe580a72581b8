//! Row bitmasks: one `u16` holds the cells of one grid row, bit `x` for column `x`.

use vstd::prelude::*;

verus! {

/// Number of columns one row mask can hold.
pub const MAX_COLS: usize = 16;

/// Number of rows a grid can hold.
pub const MAX_ROWS: usize = 12;

/// Whether bit `x` of `row` is set.
pub open spec fn bit(row: u16, x: int) -> bool {
    0 <= x < 16 && (row >> (x as u16)) & 1u16 == 1u16
}

/// `row` with bit `x` forced to `value`.
pub open spec fn with_bit(row: u16, x: int, value: bool) -> u16 {
    if value {
        row | (1u16 << (x as u16))
    } else {
        row & !(1u16 << (x as u16))
    }
}

proof fn lemma_shift_mask(row: u16, x: u16, z: u16)
    by (bit_vector)
    requires
        x < 16,
        z < 16,
    ensures
        (((row | (1u16 << x)) >> z) & 1u16 == 1u16) <==> (z == x || (row >> z) & 1u16 == 1u16),
        (((row & !(1u16 << x)) >> z) & 1u16 == 1u16) <==> (z != x && (row >> z) & 1u16 == 1u16),
        (((row ^ (1u16 << x)) >> z) & 1u16 == 1u16) <==> ((z == x) != ((row >> z) & 1u16 == 1u16)),
        ((row & (1u16 << x)) != 0u16) <==> ((row >> x) & 1u16 == 1u16),
        (0u16 >> z) & 1u16 == 0u16,
{
}

proof fn lemma_shift_and(a: u16, b: u16, z: u16)
    by (bit_vector)
    requires
        z < 16,
    ensures
        (((a & b) >> z) & 1u16 == 1u16) <==> ((a >> z) & 1u16 == 1u16 && (b >> z) & 1u16 == 1u16),
{
}

/// A bit of the intersection of two masks is set where it is set in both.
pub proof fn lemma_bit_and(a: u16, b: u16, z: int)
    ensures
        bit(a & b, z) == (bit(a, z) && bit(b, z)),
{
    if 0 <= z < 16 {
        lemma_shift_and(a, b, z as u16);
    }
}

/// Reading a bit after writing one.
pub proof fn lemma_with_bit(row: u16, x: int, value: bool, z: int)
    requires
        0 <= x < 16,
    ensures
        bit(with_bit(row, x, value), z) == (if z == x { value } else { bit(row, z) }),
{
    if 0 <= z < 16 {
        lemma_shift_mask(row, x as u16, z as u16);
    }
}

/// The empty mask has no bit set.
pub proof fn lemma_bit_zero(z: int)
    ensures
        !bit(0u16, z),
{
    if 0 <= z < 16 {
        lemma_shift_mask(0u16, 0u16, z as u16);
    }
}

/// Tests bit `x` of `row`.
pub fn get_bit(row: u16, x: usize) -> (r: bool)
    requires
        x < MAX_COLS,
    ensures
        r == bit(row, x as int),
{
    proof {
        lemma_shift_mask(row, x as u16, x as u16);
    }
    row & (1u16 << (x as u16)) != 0
}

/// Returns `row` with bit `x` forced to `value`.
pub fn set_bit(row: u16, x: usize, value: bool) -> (r: u16)
    requires
        x < MAX_COLS,
    ensures
        r == with_bit(row, x as int, value),
        forall|z: int| bit(r, z) == (if z == x { value } else { bit(row, z) }),
{
    let r = if value {
        row | (1u16 << (x as u16))
    } else {
        row & !(1u16 << (x as u16))
    };
    proof {
        assert forall|z: int| bit(r, z) == (if z == x { value } else { bit(row, z) }) by {
            lemma_with_bit(row, x as int, value, z);
        }
    }
    r
}

} // verus!
