//! 64-bit cell-set arithmetic for the 8x8 grid.
//!
//! A mask holds one bit per grid cell, row-major: cell `(x, y)` is bit
//! `x + 8 * y`.  Objects are contiguous runs of bits, either horizontal
//! (stride 1) or vertical (stride 8).

use vstd::prelude::*;

verus! {

/// Whether bit `i` of `m` is set.
pub open spec fn bit_set(m: u64, i: u64) -> bool {
    (m >> i) & 1 == 1
}

/// Number of set bits of `m` among positions `0 .. k`.
pub open spec fn popcount_upto(m: u64, k: int) -> int
    decreases k,
{
    if k <= 0 {
        0
    } else {
        popcount_upto(m, k - 1) + if bit_set(m, (k - 1) as u64) {
            1int
        } else {
            0int
        }
    }
}

/// Number of set bits of `m`.
pub open spec fn popcount(m: u64) -> int {
    popcount_upto(m, 64)
}

/// The mask of a run of `len` cells starting at bit `first`, advancing by
/// `step` bits per cell (1 for a horizontal run, 8 for a vertical one).
pub open spec fn run_mask(first: u64, step: u64, len: u64) -> u64
    decreases len,
{
    if len == 0 {
        0
    } else {
        run_mask(first, step, (len - 1) as u64) | (1u64 << ((first + (len - 1) * step) as u64))
    }
}

/// `m` is the run of `len` cells whose first cell is `(x, y)`, horizontal
/// or vertical, staying inside the grid.
pub open spec fn is_run_at(m: u64, len: u64, x: u64, y: u64) -> bool {
    ||| (x + len <= 8 && y < 8 && m == run_mask((x + 8 * y) as u64, 1, len))
    ||| (y + len <= 8 && x < 8 && m == run_mask((x + 8 * y) as u64, 8, len))
}

/// `m` is a contiguous in-grid run of `len` cells along one axis.
pub open spec fn is_run(m: u64, len: u64) -> bool {
    exists|x: u64, y: u64| is_run_at(m, len, x, y)
}

/// The mask made of one bit per listed cell index.
pub open spec fn mask_of(cells: Seq<u8>) -> u64
    decreases cells.len(),
{
    if cells.len() == 0 {
        0
    } else {
        mask_of(cells.drop_last()) | (1u64 << (cells.last() as u64))
    }
}

/// All listed cell indices name a real grid cell.
pub open spec fn cells_in_range(cells: Seq<u8>) -> bool {
    forall|i: int| 0 <= i < cells.len() ==> cells[i] < 64
}

/// Builds the mask with one bit per listed cell.
pub fn make_mask(bits: &Vec<u8>) -> (m: u64)
    requires
        cells_in_range(bits@),
    ensures
        m == mask_of(bits@),
{
    let mut result: u64 = 0;
    let mut i: usize = 0;
    while i < bits.len()
        invariant
            i <= bits.len(),
            cells_in_range(bits@),
            result == mask_of(bits@.subrange(0, i as int)),
        decreases bits.len() - i,
    {
        let bit_index = bits[i];
        proof {
            assert(bits@.subrange(0, i + 1).drop_last() =~= bits@.subrange(0, i as int));
            assert(bits@.subrange(0, i + 1).last() == bits@[i as int]);
        }
        result = result | (1u64 << bit_index);
        i = i + 1;
    }
    proof {
        assert(bits@.subrange(0, bits@.len() as int) =~= bits@);
    }
    result
}

/// Splitting a disjoint union splits its bit count.
pub proof fn lemma_popcount_upto_or(a: u64, b: u64, k: int)
    requires
        a & b == 0,
        0 <= k <= 64,
    ensures
        popcount_upto(a | b, k) == popcount_upto(a, k) + popcount_upto(b, k),
    decreases k,
{
    if k > 0 {
        lemma_popcount_upto_or(a, b, k - 1);
        let j: u64 = (k - 1) as u64;
        assert((a >> j) & 1 <= 1 && (b >> j) & 1 <= 1 && ((a | b) >> j) & 1 <= 1 && ((a | b) >> j)
            & 1 == ((a >> j) & 1) + ((b >> j) & 1)) by (bit_vector)
            requires
                a & b == 0,
                j < 64,
        ;
        assert(popcount_upto(a | b, k) == popcount_upto(a | b, k - 1) + if bit_set(a | b, j) {
            1int
        } else {
            0int
        });
        assert(popcount_upto(a, k) == popcount_upto(a, k - 1) + if bit_set(a, j) {
            1int
        } else {
            0int
        });
        assert(popcount_upto(b, k) == popcount_upto(b, k - 1) + if bit_set(b, j) {
            1int
        } else {
            0int
        });
        assert(popcount_upto(a | b, k) == popcount_upto(a, k) + popcount_upto(b, k));
    } else {
        assert(popcount_upto(a | b, k) == 0);
        assert(popcount_upto(a, k) == 0);
        assert(popcount_upto(b, k) == 0);
    }
}

/// A disjoint union has the bit counts of its parts added.
pub proof fn lemma_popcount_or(a: u64, b: u64)
    requires
        a & b == 0,
    ensures
        popcount(a | b) == popcount(a) + popcount(b),
{
    lemma_popcount_upto_or(a, b, 64);
}

/// A single-bit mask has exactly one set bit among positions `0 .. k`
/// once `k` has passed the bit.
pub proof fn lemma_popcount_upto_single(n: u64, k: int)
    requires
        n < 64,
        0 <= k <= 64,
    ensures
        popcount_upto(1u64 << n, k) == if k > n {
            1int
        } else {
            0int
        },
    decreases k,
{
    if k > 0 {
        lemma_popcount_upto_single(n, k - 1);
        let j: u64 = (k - 1) as u64;
        assert(((1u64 << n) >> j) & 1 == if j == n {
            1u64
        } else {
            0u64
        }) by (bit_vector)
            requires
                n < 64,
                j < 64,
        ;
    }
}

/// The empty mask has no set bits.
pub proof fn lemma_popcount_zero(k: int)
    requires
        0 <= k <= 64,
    ensures
        popcount_upto(0, k) == 0,
    decreases k,
{
    if k > 0 {
        lemma_popcount_zero(k - 1);
        let j: u64 = (k - 1) as u64;
        assert((0u64 >> j) & 1 == 0) by (bit_vector);
    }
}

/// A value below a power of two misses that bit entirely.
pub proof fn lemma_below_disjoint(m: u64, n: u64)
    requires
        n < 64,
        m < (1u64 << n),
    ensures
        m & (1u64 << n) == 0,
{
    assert(m < (1u64 << n) ==> m & (1u64 << n) == 0) by (bit_vector)
        requires
            n < 64,
    ;
}

/// A run stays strictly below any power of two above its last bit.
pub proof fn lemma_run_below(first: u64, step: u64, len: u64, p: u64)
    requires
        1 <= step,
        p <= 63,
        len == 0 || first + (len - 1) * step < p,
    ensures
        run_mask(first, step, len) < (1u64 << p),
    decreases len,
{
    if len == 0 {
        assert(0u64 < (1u64 << p)) by (bit_vector)
            requires
                p <= 63,
        ;
    } else {
        if len >= 2 {
            assert((len - 2) * step < (len - 1) * step) by (nonlinear_arith)
                requires
                    1 <= step,
                    len >= 2,
            ;
        }
        lemma_run_below(first, step, (len - 1) as u64, p);
        let e: u64 = (first + (len - 1) * step) as u64;
        let r: u64 = run_mask(first, step, (len - 1) as u64);
        assert(r < (1u64 << p) && e < p ==> (r | (1u64 << e)) < (1u64 << p)) by (bit_vector)
            requires
                p <= 63,
                e < p,
        ;
    }
}

/// A run of `len` cells has exactly `len` set bits.
pub proof fn lemma_run_popcount(first: u64, step: u64, len: u64)
    requires
        1 <= step,
        len == 0 || first + (len - 1) * step <= 63,
    ensures
        popcount(run_mask(first, step, len)) == len,
    decreases len,
{
    if len == 0 {
        lemma_popcount_zero(64);
    } else {
        if len >= 2 {
            assert((len - 2) * step < (len - 1) * step) by (nonlinear_arith)
                requires
                    1 <= step,
                    len >= 2,
            ;
        }
        lemma_run_popcount(first, step, (len - 1) as u64);
        let e: u64 = (first + (len - 1) * step) as u64;
        let r: u64 = run_mask(first, step, (len - 1) as u64);
        lemma_run_below(first, step, (len - 1) as u64, e);
        lemma_below_disjoint(r, e);
        lemma_popcount_or(r, 1u64 << e);
        lemma_popcount_upto_single(e, 64);
        assert(run_mask(first, step, len) == r | (1u64 << e));
        assert(popcount(1u64 << e) == 1);
        assert(popcount(r) == len - 1);
    }
}

/// Five set bits cannot meet all six of the disjoint row runs
/// `0x0F << 8r`, `r = 0 .. 6`: one such run stays free.
pub proof fn lemma_free_row_run4(taken: u64)
    requires
        popcount(taken) == 5,
    ensures
        taken & 0x0F == 0 || taken & 0x0F00 == 0 || taken & 0x0F0000 == 0 || taken & 0x0F000000
            == 0 || taken & 0x0F00000000 == 0 || taken & 0x0F0000000000 == 0,
{
    assert(!(popcount_upto(taken, 64) == 5 && taken & 0x0Fu64 != 0 && taken & 0x0F00u64 != 0
        && taken & 0x0F0000u64 != 0 && taken & 0x0F000000u64 != 0 && taken & 0x0F00000000u64 != 0
        && taken & 0x0F0000000000u64 != 0)) by (bit_vector);
}

/// Two set bits cannot meet all three of the disjoint row runs
/// `0x07 << 8r`, `r = 0 .. 3`: one such run stays free.
pub proof fn lemma_free_row_run3(taken: u64)
    requires
        popcount(taken) == 2,
    ensures
        taken & 0x07 == 0 || taken & 0x0700 == 0 || taken & 0x070000 == 0,
{
    assert(!(popcount_upto(taken, 64) == 2 && taken & 0x07u64 != 0 && taken & 0x0700u64 != 0
        && taken & 0x070000u64 != 0)) by (bit_vector);
}

} // verus!
