//! The 64-bit occupancy mask: one bit per square of the 8x8 board, in
//! row-major order, together with the counting lemmas the solver needs.

use vstd::prelude::*;

verus! {

/// Bit index of square (row, col) in the row-major occupancy mask.
pub open spec fn sq(row: int, col: int) -> int {
    8 * row + col
}

/// Both coordinates lie on the 8x8 board.
pub open spec fn in_range(row: int, col: int) -> bool {
    0 <= row < 8 && 0 <= col < 8
}

/// The single-bit mask of square (row, col).
pub open spec fn mask(row: int, col: int) -> u64 {
    1u64 << (sq(row, col) as u64)
}

/// Whether the occupancy mask holds a pawn on square (row, col).
pub open spec fn sq_occupied(bits: u64, row: int, col: int) -> bool {
    bits & mask(row, col) != 0
}

/// Number of set bits among bit positions [0, n).
pub closed spec fn count_bits_upto(bits: u64, n: nat) -> nat
    decreases n,
{
    if n == 0 {
        0
    } else {
        count_bits_upto(bits, (n - 1) as nat) + (if bits & (1u64 << ((n - 1) as u64)) != 0 {
            1nat
        } else {
            0nat
        })
    }
}

/// Number of pawns held by an occupancy mask.
pub open spec fn pawn_count(bits: u64) -> nat {
    count_bits_upto(bits, 64)
}

/// Distinct squares of the board map to distinct bit indices.
pub proof fn lemma_sq_injective(r1: int, c1: int, r2: int, c2: int)
    requires
        in_range(r1, c1),
        in_range(r2, c2),
        sq(r1, c1) == sq(r2, c2),
    ensures
        r1 == r2 && c1 == c2,
{
}

/// Clearing bit j leaves every other bit alone and zeroes bit j itself.
pub proof fn lemma_clear_bit(bits: u64, j: u64, i: u64)
    requires
        i < 64,
        j < 64,
    ensures
        i != j ==> ((bits & !(1u64 << j)) & (1u64 << i) != 0) == (bits & (1u64 << i) != 0),
        (bits & !(1u64 << j)) & (1u64 << j) == 0,
{
    assert(i != j ==> ((bits & !(1u64 << j)) & (1u64 << i) != 0) == (bits & (1u64 << i) != 0))
        by (bit_vector)
        requires
            i < 64,
            j < 64,
    ;
    assert((bits & !(1u64 << j)) & (1u64 << j) == 0) by (bit_vector)
        requires
            j < 64,
    ;
}

/// Setting bit j leaves every other bit alone and raises bit j itself.
pub proof fn lemma_set_bit(bits: u64, j: u64, i: u64)
    requires
        i < 64,
        j < 64,
    ensures
        i != j ==> ((bits | (1u64 << j)) & (1u64 << i) != 0) == (bits & (1u64 << i) != 0),
        (bits | (1u64 << j)) & (1u64 << j) != 0,
{
    assert(i != j ==> ((bits | (1u64 << j)) & (1u64 << i) != 0) == (bits & (1u64 << i) != 0))
        by (bit_vector)
        requires
            i < 64,
            j < 64,
    ;
    assert((bits | (1u64 << j)) & (1u64 << j) != 0) by (bit_vector)
        requires
            j < 64,
    ;
}

proof fn lemma_count_clear_upto(bits: u64, j: u64, n: nat)
    requires
        j < 64,
        n <= 64,
    ensures
        count_bits_upto(bits & !(1u64 << j), n) + (if j < n && bits & (1u64 << j) != 0 {
            1nat
        } else {
            0nat
        }) == count_bits_upto(bits, n),
    decreases n,
{
    if n > 0 {
        let m = (n - 1) as nat;
        lemma_count_clear_upto(bits, j, m);
        lemma_clear_bit(bits, j, m as u64);
    }
}

/// Clearing a set bit lowers the population count by exactly one.
pub proof fn lemma_count_clear(bits: u64, j: u64)
    requires
        j < 64,
        bits & (1u64 << j) != 0,
    ensures
        pawn_count(bits & !(1u64 << j)) + 1 == pawn_count(bits),
{
    lemma_count_clear_upto(bits, j, 64);
}

proof fn lemma_bit_in_count(bits: u64, i: u64, n: nat)
    requires
        i < n <= 64,
        bits & (1u64 << i) != 0,
    ensures
        count_bits_upto(bits, n) >= 1,
    decreases n,
{
    if i + 1 < n {
        lemma_bit_in_count(bits, i, (n - 1) as nat);
    }
}

/// A mask holds no pawn at all exactly when it is zero.
pub proof fn lemma_count_zero(bits: u64)
    ensures
        (pawn_count(bits) == 0) <==> (bits == 0),
{
    if bits == 0 {
        lemma_count_zero_upto(64);
    } else {
        vstd::std_specs::bits::axiom_u64_trailing_zeros(bits);
        let i = vstd::std_specs::bits::u64_trailing_zeros(bits) as u64;
        assert((bits >> i) & 1u64 == 1u64 && i < 64 ==> bits & (1u64 << i) != 0) by (bit_vector);
        lemma_bit_in_count(bits, i, 64);
    }
}

proof fn lemma_count_zero_upto(n: nat)
    requires
        n <= 64,
    ensures
        count_bits_upto(0u64, n) == 0,
    decreases n,
{
    if n > 0 {
        lemma_count_zero_upto((n - 1) as nat);
        assert(0u64 & (1u64 << ((n - 1) as u64)) == 0) by (bit_vector);
    }
}

} // verus!
