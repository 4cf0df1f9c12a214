//! Exhaustive enumeration of every placement of the three objects.
//!
//! The generator that this engine models places the length-2 object first,
//! then the length-3 object, then the length-4 object, each time choosing
//! uniformly among the placements that stay on the grid and avoid the cells
//! taken so far.  The enumeration below walks the same three-level choice
//! tree in the same order, so a configuration's index is reproducible, and
//! records for each leaf the exact denominator of its path probability:
//! `denom = n2 * n3 * n4`, the product of the choice counts along the path.
//! The stored `weight` is the fixed-point value `WEIGHT_ONE / denom`.

use vstd::prelude::*;
use crate::masks::{
    is_run,
    lemma_popcount_or,
    lemma_run_popcount,
    popcount,
    run_mask,
};
use crate::WEIGHT_ONE;

verus! {

/// Axis along which an object extends.
#[derive(Clone, Copy)]
pub enum Orientation {
    Horizontal,
    Vertical,
}

/// A candidate placement: a start cell and an axis.
#[derive(Clone, Copy)]
pub struct SquidStartingDesc {
    pub x: u64,
    pub y: u64,
    pub direction: Orientation,
}

/// The candidate placement at position `i` of the fixed generation order:
/// rows outermost, then columns, then vertical before horizontal.
pub open spec fn desc_at(i: int) -> SquidStartingDesc {
    SquidStartingDesc {
        x: ((i % 16) / 2) as u64,
        y: (i / 16) as u64,
        direction: if i % 2 == 0 {
            Orientation::Vertical
        } else {
            Orientation::Horizontal
        },
    }
}

/// The mask a placement yields for an object of length `len` over already
/// taken cells, or `None` if it leaves the grid or collides.
pub open spec fn board_mask_spec(desc: SquidStartingDesc, taken: u64, len: u64) -> Option<u64> {
    let step: u64 = match desc.direction {
        Orientation::Horizontal => 1,
        Orientation::Vertical => 8,
    };
    let changing: u64 = match desc.direction {
        Orientation::Horizontal => desc.x,
        Orientation::Vertical => desc.y,
    };
    if changing + len > 8 {
        None
    } else {
        let m = run_mask((desc.x + 8 * desc.y) as u64, step, len);
        if taken & m != 0 {
            None
        } else {
            Some(m)
        }
    }
}

impl SquidStartingDesc {
    /// Computes the placement's mask, rejecting out-of-bounds or colliding
    /// placements.
    pub fn board_mask(&self, taken_so_far: u64, length: u64) -> (r: Option<u64>)
        requires
            self.x < 8,
            self.y < 8,
            1 <= length <= 8,
        ensures
            r == board_mask_spec(*self, taken_so_far, length),
    {
        let (changing_value, shift): (u64, u64) = match self.direction {
            Orientation::Horizontal => (self.x, 1),
            Orientation::Vertical => (self.y, 8),
        };
        if changing_value + length > 8 {
            return None;
        }
        let first_bit_index: u64 = self.x + 8 * self.y;
        let mut squid_bits: u64 = 0;
        let mut k: u64 = 0;
        while k < length
            invariant
                k <= length,
                self.x < 8,
                self.y < 8,
                1 <= length <= 8,
                changing_value + length <= 8,
                first_bit_index == self.x + 8 * self.y,
                shift == 1 || shift == 8,
                self.direction is Horizontal ==> shift == 1 && changing_value == self.x,
                self.direction is Vertical ==> shift == 8 && changing_value == self.y,
                squid_bits == run_mask(first_bit_index, shift, k),
            decreases length - k,
        {
            proof {
                if shift == 1 {
                    assert(first_bit_index + k * shift <= 63);
                } else {
                    assert(k * shift == k * 8);
                    assert(first_bit_index + k * 8 == self.x + 8 * (self.y + k));
                    assert(self.y + k <= 7);
                    assert(first_bit_index + k * shift <= 63);
                }
            }
            squid_bits = squid_bits | (1u64 << (first_bit_index + k * shift));
            k = k + 1;
        }
        if (taken_so_far & squid_bits) != 0 {
            return None;
        }
        Some(squid_bits)
    }
}

/// The masks of the placements of a length-`len` object that survive over
/// `taken`, among the first `n` candidates, in generation order.
pub open spec fn compat_prefix(taken: u64, len: u64, n: int) -> Seq<u64>
    decreases n,
{
    if n <= 0 {
        Seq::empty()
    } else {
        compat_prefix(taken, len, n - 1) + match board_mask_spec(desc_at(n - 1), taken, len) {
            Some(m) => seq![m],
            None => Seq::empty(),
        }
    }
}

/// All surviving placements of a length-`len` object over `taken`.
pub open spec fn compat_masks(taken: u64, len: u64) -> Seq<u64> {
    compat_prefix(taken, len, 128)
}

/// There are never more surviving placements than candidates.
pub proof fn lemma_compat_prefix_len(taken: u64, len: u64, n: int)
    requires
        0 <= n,
    ensures
        compat_prefix(taken, len, n).len() <= n,
    decreases n,
{
    if n > 0 {
        lemma_compat_prefix_len(taken, len, n - 1);
    }
}

/// Every surviving placement is a well-shaped run of the requested length,
/// disjoint from the cells taken so far.
pub proof fn lemma_compat_prefix_props(taken: u64, len: u64, n: int)
    requires
        0 <= n <= 128,
        1 <= len <= 8,
    ensures
        forall|j: int|
            0 <= j < compat_prefix(taken, len, n).len() ==> {
                let m = #[trigger] compat_prefix(taken, len, n)[j];
                taken & m == 0 && is_run(m, len) && popcount(m) == len
            },
    decreases n,
{
    if n > 0 {
        lemma_compat_prefix_props(taken, len, n - 1);
        let d = desc_at(n - 1);
        if board_mask_spec(d, taken, len) is Some {
            let m = board_mask_spec(d, taken, len)->Some_0;
            assert(d.x < 8 && d.y < 8);
            match d.direction {
                Orientation::Horizontal => {
                    assert(m == run_mask((d.x + 8 * d.y) as u64, 1, len));
                    assert(crate::masks::is_run_at(m, len, d.x, d.y));
                    assert(is_run(m, len));
                    lemma_run_popcount((d.x + 8 * d.y) as u64, 1, len);
                },
                Orientation::Vertical => {
                    assert(m == run_mask((d.x + 8 * d.y) as u64, 8, len));
                    assert(d.x + 8 * d.y + (len - 1) * 8 == d.x + 8 * (d.y + len - 1));
                    assert(crate::masks::is_run_at(m, len, d.x, d.y));
                    assert(is_run(m, len));
                    lemma_run_popcount((d.x + 8 * d.y) as u64, 8, len);
                },
            }
        }
        assert forall|j: int| 0 <= j < compat_prefix(taken, len, n).len() implies {
            let m = #[trigger] compat_prefix(taken, len, n)[j];
            taken & m == 0 && is_run(m, len) && popcount(m) == len
        } by {
            let prev = compat_prefix(taken, len, n - 1);
            if j < prev.len() {
                assert(compat_prefix(taken, len, n)[j] == prev[j]);
            } else {
                assert(compat_prefix(taken, len, n)[j] == board_mask_spec(
                    d,
                    taken,
                    len,
                )->Some_0);
            }
        }
    }
}

/// A surviving candidate anywhere among the first `n` makes the list
/// nonempty.
pub proof fn lemma_compat_prefix_some(taken: u64, len: u64, i: int, n: int)
    requires
        0 <= i < n,
        board_mask_spec(desc_at(i), taken, len) is Some,
    ensures
        compat_prefix(taken, len, n).len() >= 1,
    decreases n,
{
    if i < n - 1 {
        lemma_compat_prefix_some(taken, len, i, n - 1);
    }
}

/// From an empty grid, the length-2 object always has a placement.
pub proof fn lemma_compat2_nonempty()
    ensures
        compat_masks(0, 2).len() >= 1,
{
    let d = desc_at(1);
    assert(d.x == 0 && d.y == 0 && d.direction is Horizontal);
    assert(run_mask(0, 1, 2) == 3u64) by (bit_vector);
    assert(0u64 & 3u64 == 0) by (bit_vector);
    assert(board_mask_spec(d, 0, 2) is Some);
    lemma_compat_prefix_some(0, 2, 1, 128);
}

/// Over any two occupied cells, the length-3 object has a placement: one
/// of three disjoint row runs stays free.
pub proof fn lemma_compat3_nonempty(taken: u64)
    requires
        popcount(taken) == 2,
    ensures
        compat_masks(taken, 3).len() >= 1,
{
    crate::masks::lemma_free_row_run3(taken);
    assert(run_mask(0, 1, 3) == 0x07u64) by (bit_vector);
    assert(run_mask(8, 1, 3) == 0x0700u64) by (bit_vector);
    assert(run_mask(16, 1, 3) == 0x070000u64) by (bit_vector);
    if taken & 0x07 == 0 {
        let d = desc_at(1);
        assert(d.x == 0 && d.y == 0 && d.direction is Horizontal);
        assert(board_mask_spec(d, taken, 3) is Some);
        lemma_compat_prefix_some(taken, 3, 1, 128);
    } else if taken & 0x0700 == 0 {
        let d = desc_at(17);
        assert(d.x == 0 && d.y == 1 && d.direction is Horizontal);
        assert(board_mask_spec(d, taken, 3) is Some);
        lemma_compat_prefix_some(taken, 3, 17, 128);
    } else {
        let d = desc_at(33);
        assert(d.x == 0 && d.y == 2 && d.direction is Horizontal);
        assert(board_mask_spec(d, taken, 3) is Some);
        lemma_compat_prefix_some(taken, 3, 33, 128);
    }
}

/// Over any five occupied cells, the length-4 object has a placement: one
/// of six disjoint row runs stays free.
pub proof fn lemma_compat4_nonempty(taken: u64)
    requires
        popcount(taken) == 5,
    ensures
        compat_masks(taken, 4).len() >= 1,
{
    crate::masks::lemma_free_row_run4(taken);
    assert(run_mask(0, 1, 4) == 0x0Fu64) by (bit_vector);
    assert(run_mask(8, 1, 4) == 0x0F00u64) by (bit_vector);
    assert(run_mask(16, 1, 4) == 0x0F0000u64) by (bit_vector);
    assert(run_mask(24, 1, 4) == 0x0F000000u64) by (bit_vector);
    assert(run_mask(32, 1, 4) == 0x0F00000000u64) by (bit_vector);
    assert(run_mask(40, 1, 4) == 0x0F0000000000u64) by (bit_vector);
    if taken & 0x0F == 0 {
        let d = desc_at(1);
        assert(d.x == 0 && d.y == 0 && d.direction is Horizontal);
        assert(board_mask_spec(d, taken, 4) is Some);
        lemma_compat_prefix_some(taken, 4, 1, 128);
    } else if taken & 0x0F00 == 0 {
        let d = desc_at(17);
        assert(d.x == 0 && d.y == 1 && d.direction is Horizontal);
        assert(board_mask_spec(d, taken, 4) is Some);
        lemma_compat_prefix_some(taken, 4, 17, 128);
    } else if taken & 0x0F0000 == 0 {
        let d = desc_at(33);
        assert(d.x == 0 && d.y == 2 && d.direction is Horizontal);
        assert(board_mask_spec(d, taken, 4) is Some);
        lemma_compat_prefix_some(taken, 4, 33, 128);
    } else if taken & 0x0F000000 == 0 {
        let d = desc_at(49);
        assert(d.x == 0 && d.y == 3 && d.direction is Horizontal);
        assert(board_mask_spec(d, taken, 4) is Some);
        lemma_compat_prefix_some(taken, 4, 49, 128);
    } else if taken & 0x0F00000000 == 0 {
        let d = desc_at(65);
        assert(d.x == 0 && d.y == 4 && d.direction is Horizontal);
        assert(board_mask_spec(d, taken, 4) is Some);
        lemma_compat_prefix_some(taken, 4, 65, 128);
    } else {
        let d = desc_at(81);
        assert(d.x == 0 && d.y == 5 && d.direction is Horizontal);
        assert(board_mask_spec(d, taken, 4) is Some);
        lemma_compat_prefix_some(taken, 4, 81, 128);
    }
}

/// Builds the 128 candidate placements in generation order.
fn starting_descs() -> (r: Vec<SquidStartingDesc>)
    ensures
        r@.len() == 128,
        forall|i: int| 0 <= i < 128 ==> r@[i] == desc_at(i),
{
    let mut descs: Vec<SquidStartingDesc> = Vec::new();
    let mut y: u64 = 0;
    while y < 8
        invariant
            y <= 8,
            descs@.len() == y * 16,
            forall|i: int| 0 <= i < descs@.len() ==> descs@[i] == desc_at(i),
        decreases 8 - y,
    {
        let mut x: u64 = 0;
        while x < 8
            invariant
                y < 8,
                x <= 8,
                descs@.len() == y * 16 + x * 2,
                forall|i: int| 0 <= i < descs@.len() ==> descs@[i] == desc_at(i),
            decreases 8 - x,
        {
            descs.push(SquidStartingDesc { x, y, direction: Orientation::Vertical });
            descs.push(SquidStartingDesc { x, y, direction: Orientation::Horizontal });
            proof {
                let i = y * 16 + x * 2;
                assert(i % 16 == x * 2 && i / 16 == y && (x * 2) / 2 == x) by (nonlinear_arith)
                    requires
                        x < 8,
                        y < 8,
                        i == y * 16 + x * 2,
                ;
                assert((i + 1) % 16 == x * 2 + 1 && (i + 1) / 16 == y && (x * 2 + 1) / 2 == x)
                    by (nonlinear_arith)
                    requires
                        x < 8,
                        y < 8,
                        i == y * 16 + x * 2,
                ;
                assert(descs@[i] == desc_at(i));
                assert(descs@[i + 1] == desc_at(i + 1));
            }
            x = x + 1;
        }
        y = y + 1;
    }
    descs
}

/// Collects the surviving placements of a length-`length` object over
/// `taken_so_far`, in generation order.
fn get_compatible_masks(descs: &Vec<SquidStartingDesc>, taken_so_far: u64, length: u64) -> (r: Vec<
    u64,
>)
    requires
        descs@.len() == 128,
        forall|i: int| 0 <= i < 128 ==> descs@[i] == desc_at(i),
        1 <= length <= 8,
    ensures
        r@ == compat_masks(taken_so_far, length),
{
    let mut result: Vec<u64> = Vec::new();
    let mut i: usize = 0;
    while i < 128
        invariant
            i <= 128,
            descs@.len() == 128,
            forall|k: int| 0 <= k < 128 ==> descs@[k] == desc_at(k),
            1 <= length <= 8,
            result@ == compat_prefix(taken_so_far, length, i as int),
        decreases 128 - i,
    {
        proof {
            assert(desc_at(i as int).x < 8 && desc_at(i as int).y < 8);
        }
        match descs[i].board_mask(taken_so_far, length) {
            Some(m) => {
                result.push(m);
                proof {
                    assert(result@ =~= compat_prefix(taken_so_far, length, i + 1));
                }
            },
            None => {
                proof {
                    assert(result@ =~= compat_prefix(taken_so_far, length, i + 1));
                }
            },
        }
        i = i + 1;
    }
    result
}

/// One fully placed configuration: the union mask, the three object masks,
/// the exact probability denominator of its generation path, and that
/// probability in fixed point.
#[derive(Clone, Copy)]
pub struct PossibleBoard {
    pub squids: u64,
    pub squid2: u64,
    pub squid3: u64,
    pub squid4: u64,
    pub denom: u64,
    pub weight: u64,
}

/// How many of the three objects lie entirely inside the hit mask.
pub open spec fn squids_hit(b: PossibleBoard, hit_mask: u64) -> int {
    (if b.squid2 & !hit_mask == 0 {
        1int
    } else {
        0int
    }) + (if b.squid3 & !hit_mask == 0 {
        1int
    } else {
        0int
    }) + (if b.squid4 & !hit_mask == 0 {
        1int
    } else {
        0int
    })
}

/// Whether a configuration agrees with the evidence: every confirmed hit is
/// occupied, no confirmed miss is occupied, and — when the count of fully
/// revealed objects is known (`squids_gotten != -1`) — exactly that many
/// objects lie entirely inside the hit mask.
pub open spec fn compatible(b: PossibleBoard, hit_mask: u64, miss_mask: u64, squids_gotten: i32) -> bool {
    &&& hit_mask & !b.squids == 0
    &&& miss_mask & b.squids == 0
    &&& (squids_gotten == -1 || squids_hit(b, hit_mask) == squids_gotten)
}

impl PossibleBoard {
    /// Tests the configuration against the evidence.
    pub fn check_compatible(&self, hit_mask: u64, miss_mask: u64, squids_gotten: i32) -> (r: bool)
        ensures
            r == compatible(*self, hit_mask, miss_mask, squids_gotten),
    {
        if (hit_mask & !self.squids) != 0 {
            return false;
        }
        if (miss_mask & self.squids) != 0 {
            return false;
        }
        if squids_gotten == -1 {
            return true;
        }
        let mut squids_hit_count: i32 = 0;
        if (self.squid2 & !hit_mask) == 0 {
            squids_hit_count = squids_hit_count + 1;
        }
        if (self.squid3 & !hit_mask) == 0 {
            squids_hit_count = squids_hit_count + 1;
        }
        if (self.squid4 & !hit_mask) == 0 {
            squids_hit_count = squids_hit_count + 1;
        }
        squids_hit_count == squids_gotten
    }
}

/// The configuration a generation path (mask2, mask3, mask4, denom) yields.
pub open spec fn make_board(m2: u64, m3: u64, m4: u64, denom: u64) -> PossibleBoard {
    PossibleBoard {
        squids: m2 | m3 | m4,
        squid2: m2,
        squid3: m3,
        squid4: m4,
        denom,
        weight: (WEIGHT_ONE as int / denom as int) as u64,
    }
}

/// Structural soundness of one configuration: the union is the disjoint
/// union of three runs of lengths 2, 3 and 4, nine cells in all, and the
/// weight is the fixed-point reciprocal of the positive denominator.
pub open spec fn board_wf(b: PossibleBoard) -> bool {
    &&& b.squids == b.squid2 | b.squid3 | b.squid4
    &&& b.squid2 & b.squid3 == 0
    &&& (b.squid2 | b.squid3) & b.squid4 == 0
    &&& is_run(b.squid2, 2)
    &&& is_run(b.squid3, 3)
    &&& is_run(b.squid4, 4)
    &&& popcount(b.squids) == 9
    &&& 1 <= b.denom
    &&& b.weight == WEIGHT_ONE as int / b.denom as int
    &&& b.weight <= WEIGHT_ONE
}

/// The configurations grown from one (mask2, mask3) prefix: one per
/// surviving placement of the length-4 object.
pub open spec fn row4(m2: u64, m3: u64, denom: u64) -> Seq<PossibleBoard> {
    compat_masks(m2 | m3, 4).map_values(|m4: u64| make_board(m2, m3, m4, denom))
}

/// The configurations grown from mask2 and the first `j` surviving
/// placements of the length-3 object.
pub open spec fn table3_prefix(m2: u64, n2: int, j: int) -> Seq<PossibleBoard>
    decreases j,
{
    if j <= 0 {
        Seq::empty()
    } else {
        let ms3 = compat_masks(m2, 3);
        let m3 = ms3[j - 1];
        let ms4 = compat_masks(m2 | m3, 4);
        table3_prefix(m2, n2, j - 1) + row4(m2, m3, ((n2 * ms3.len()) * ms4.len()) as u64)
    }
}

/// The configurations grown from the first `i` surviving placements of the
/// length-2 object.
pub open spec fn table2_prefix(i: int) -> Seq<PossibleBoard>
    decreases i,
{
    if i <= 0 {
        Seq::empty()
    } else {
        let ms2 = compat_masks(0, 2);
        table2_prefix(i - 1) + table3_prefix(
            ms2[i - 1],
            ms2.len() as int,
            compat_masks(ms2[i - 1], 3).len() as int,
        )
    }
}

/// The whole configuration table, in generation order.
pub open spec fn all_boards() -> Seq<PossibleBoard> {
    table2_prefix(compat_masks(0, 2).len() as int)
}

/// Walks the generation tree and materialises the configuration table.
pub(crate) fn build_boards() -> (r: Vec<PossibleBoard>)
    ensures
        r@ == all_boards(),
        forall|i: int| 0 <= i < r@.len() ==> board_wf(#[trigger] r@[i]),
{
    let descs = starting_descs();
    let mut boards: Vec<PossibleBoard> = Vec::new();
    let ms2 = get_compatible_masks(&descs, 0u64, 2);
    let n2: usize = ms2.len();
    proof {
        lemma_compat_prefix_len(0u64, 2, 128);
        lemma_compat_prefix_props(0u64, 2, 128);
    }
    let mut i2: usize = 0;
    while i2 < n2
        invariant
            i2 <= n2,
            n2 == ms2@.len(),
            ms2@ == compat_masks(0, 2),
            n2 <= 128,
            descs@.len() == 128,
            forall|k: int| 0 <= k < 128 ==> descs@[k] == desc_at(k),
            boards@ == table2_prefix(i2 as int),
            forall|i: int| 0 <= i < boards@.len() ==> board_wf(#[trigger] boards@[i]),
        decreases n2 - i2,
    {
        let m2 = ms2[i2];
        let ms3 = get_compatible_masks(&descs, m2, 3);
        let n3: usize = ms3.len();
        proof {
            lemma_compat_prefix_len(m2, 3, 128);
            lemma_compat_prefix_props(m2, 3, 128);
            lemma_compat_prefix_props(0u64, 2, 128);
        }
        let mut i3: usize = 0;
        while i3 < n3
            invariant
                i3 <= n3,
                i2 < n2,
                n2 == ms2@.len(),
                ms2@ == compat_masks(0, 2),
                n2 <= 128,
                m2 == ms2@[i2 as int],
                n3 == ms3@.len(),
                ms3@ == compat_masks(m2, 3),
                n3 <= 128,
                descs@.len() == 128,
                forall|k: int| 0 <= k < 128 ==> descs@[k] == desc_at(k),
                boards@ == table2_prefix(i2 as int) + table3_prefix(m2, n2 as int, i3 as int),
                forall|i: int| 0 <= i < boards@.len() ==> board_wf(#[trigger] boards@[i]),
            decreases n3 - i3,
        {
            let m3 = ms3[i3];
            let mask_23 = m2 | m3;
            let ms4 = get_compatible_masks(&descs, mask_23, 4);
            let n4: usize = ms4.len();
            proof {
                lemma_compat_prefix_len(mask_23, 4, 128);
                lemma_compat_prefix_props(mask_23, 4, 128);
                lemma_compat_prefix_props(m2, 3, 128);
                lemma_compat_prefix_props(0u64, 2, 128);
            }
            proof {
                assert(n2 * n3 <= 16384 && (n2 * n3) * n4 <= 2097152) by (nonlinear_arith)
                    requires
                        n2 <= 128,
                        n3 <= 128,
                        n4 <= 128,
                ;
            }
            let denom: u64 = ((n2 as u64) * (n3 as u64)) * (n4 as u64);
            let mut i4: usize = 0;
            if n4 > 0 {
                proof {
                    assert((n2 * n3) * n4 >= 1) by (nonlinear_arith)
                        requires
                            n2 >= 1,
                            n3 >= 1,
                            n4 >= 1,
                    ;
                }
                let weight: u64 = WEIGHT_ONE / denom;
                while i4 < n4
                    invariant
                        i4 <= n4,
                        i2 < n2,
                        i3 < n3,
                        n2 == ms2@.len(),
                        ms2@ == compat_masks(0, 2),
                        n2 <= 128,
                        m2 == ms2@[i2 as int],
                        n3 == ms3@.len(),
                        ms3@ == compat_masks(m2, 3),
                        n3 <= 128,
                        m3 == ms3@[i3 as int],
                        mask_23 == m2 | m3,
                        n4 == ms4@.len(),
                        ms4@ == compat_masks(mask_23, 4),
                        n4 <= 128,
                        1 <= denom,
                        denom == (n2 * n3) * n4,
                        weight == WEIGHT_ONE as int / denom as int,
                        forall|j: int|
                            0 <= j < ms2@.len() ==> {
                                let m = #[trigger] ms2@[j];
                                0 & m == 0 && is_run(m, 2) && popcount(m) == 2
                            },
                        forall|j: int|
                            0 <= j < ms3@.len() ==> {
                                let m = #[trigger] ms3@[j];
                                m2 & m == 0 && is_run(m, 3) && popcount(m) == 3
                            },
                        forall|j: int|
                            0 <= j < ms4@.len() ==> {
                                let m = #[trigger] ms4@[j];
                                mask_23 & m == 0 && is_run(m, 4) && popcount(m) == 4
                            },
                        popcount(m2) == 2,
                        popcount(m3) == 3,
                        m2 & m3 == 0,
                        boards@ == table2_prefix(i2 as int) + table3_prefix(m2, n2 as int, i3 as int)
                            + compat_masks(mask_23, 4).subrange(0, i4 as int).map_values(
                            |m4: u64| make_board(m2, m3, m4, denom),
                        ),
                        forall|i: int| 0 <= i < boards@.len() ==> board_wf(#[trigger] boards@[i]),
                    decreases n4 - i4,
                {
                    let m4 = ms4[i4];
                    let board = PossibleBoard {
                        squids: mask_23 | m4,
                        squid2: m2,
                        squid3: m3,
                        squid4: m4,
                        denom,
                        weight,
                    };
                    proof {
                        lemma_popcount_or(m2, m3);
                        lemma_popcount_or(mask_23, m4);
                        assert(board == make_board(m2, m3, m4, denom));
                        assert(board_wf(board));
                        assert(compat_masks(mask_23, 4).subrange(0, i4 + 1) =~= compat_masks(
                            mask_23,
                            4,
                        ).subrange(0, i4 as int).push(m4));
                    }
                    boards.push(board);
                    proof {
                        assert(boards@ =~= table2_prefix(i2 as int) + table3_prefix(
                            m2,
                            n2 as int,
                            i3 as int,
                        ) + compat_masks(mask_23, 4).subrange(0, i4 + 1).map_values(
                            |m4: u64| make_board(m2, m3, m4, denom),
                        ));
                    }
                    i4 = i4 + 1;
                }
            }
            proof {
                assert(compat_masks(mask_23, 4).subrange(0, n4 as int) =~= compat_masks(
                    mask_23,
                    4,
                ));
                assert(table3_prefix(m2, n2 as int, i3 + 1) == table3_prefix(
                    m2,
                    n2 as int,
                    i3 as int,
                ) + row4(m2, m3, denom));
                assert(boards@ =~= table2_prefix(i2 as int) + table3_prefix(
                    m2,
                    n2 as int,
                    i3 + 1,
                ));
            }
            i3 = i3 + 1;
        }
        proof {
            assert(table2_prefix(i2 + 1) == table2_prefix(i2 as int) + table3_prefix(
                m2,
                n2 as int,
                n3 as int,
            ));
            assert(boards@ =~= table2_prefix(i2 + 1));
        }
        i2 = i2 + 1;
    }
    boards
}

} // verus!
