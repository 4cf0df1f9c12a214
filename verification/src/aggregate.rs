//! Folding the surviving probability mass into a per-cell distribution.
//!
//! Every configuration that agrees with the evidence contributes its weight
//! — its own generation weight, or a caller-supplied prior — to a running
//! total and to each cell it occupies.  The per-cell masses and the total
//! are exact integers; a caller renormalizes by dividing each cell mass by
//! the total, so the shape of the distribution is fully pinned here.

use vstd::prelude::*;
use crate::masks::{bit_set, popcount, popcount_upto};
use crate::table::{board_wf, compatible, PossibleBoard};

verus! {

/// The mass configuration `i` would contribute: its own generation weight,
/// or its entry of the supplied prior vector.
pub open spec fn contribution(boards: Seq<PossibleBoard>, priors: Option<Seq<u64>>, i: int) -> int {
    match priors {
        Option::Some(p) => p[i] as int,
        Option::None => boards[i].weight as int,
    }
}

/// Mass of the evidence-compatible configurations among the first `n`.
pub open spec fn total_upto(
    boards: Seq<PossibleBoard>,
    priors: Option<Seq<u64>>,
    hit_mask: u64,
    miss_mask: u64,
    squids_gotten: i32,
    n: int,
) -> int
    decreases n,
{
    if n <= 0 {
        0
    } else {
        total_upto(boards, priors, hit_mask, miss_mask, squids_gotten, n - 1) + if compatible(
            boards[n - 1],
            hit_mask,
            miss_mask,
            squids_gotten,
        ) {
            contribution(boards, priors, n - 1)
        } else {
            0int
        }
    }
}

/// Mass of the compatible configurations among the first `n` that occupy
/// cell `c`.
pub open spec fn cell_upto(
    boards: Seq<PossibleBoard>,
    priors: Option<Seq<u64>>,
    hit_mask: u64,
    miss_mask: u64,
    squids_gotten: i32,
    c: u64,
    n: int,
) -> int
    decreases n,
{
    if n <= 0 {
        0
    } else {
        cell_upto(boards, priors, hit_mask, miss_mask, squids_gotten, c, n - 1) + if compatible(
            boards[n - 1],
            hit_mask,
            miss_mask,
            squids_gotten,
        ) && bit_set(boards[n - 1].squids, c) {
            contribution(boards, priors, n - 1)
        } else {
            0int
        }
    }
}

/// The 64 per-cell masses over the whole table.
pub open spec fn cell_vector(
    boards: Seq<PossibleBoard>,
    priors: Option<Seq<u64>>,
    hit_mask: u64,
    miss_mask: u64,
    squids_gotten: i32,
) -> Seq<u128> {
    Seq::new(
        64,
        |c: int|
            cell_upto(
                boards,
                priors,
                hit_mask,
                miss_mask,
                squids_gotten,
                c as u64,
                boards.len() as int,
            ) as u128,
    )
}

/// The posterior over the table: per-cell masses and the surviving total.
/// A supplied prior that leaves no compatible mass falls back to the
/// generation weights; if even those leave none, the evidence is
/// contradictory and the result is absent.
pub open spec fn posterior(
    boards: Seq<PossibleBoard>,
    priors: Option<Seq<u64>>,
    hit_mask: u64,
    miss_mask: u64,
    squids_gotten: i32,
) -> Option<(Seq<u128>, u128)>
    decreases (if priors is Some {
        1int
    } else {
        0int
    }),
{
    let t = total_upto(boards, priors, hit_mask, miss_mask, squids_gotten, boards.len() as int);
    match priors {
        Option::Some(_) => {
            if t != 0 {
                Option::Some(
                    (cell_vector(boards, priors, hit_mask, miss_mask, squids_gotten), t as u128),
                )
            } else {
                posterior(boards, Option::None, hit_mask, miss_mask, squids_gotten)
            }
        },
        Option::None => {
            if t == 0 {
                Option::None
            } else {
                Option::Some(
                    (cell_vector(boards, priors, hit_mask, miss_mask, squids_gotten), t as u128),
                )
            }
        },
    }
}

/// Partial totals never exceed one u64 maximum per configuration.
pub proof fn lemma_total_bound(
    boards: Seq<PossibleBoard>,
    priors: Option<Seq<u64>>,
    hit_mask: u64,
    miss_mask: u64,
    squids_gotten: i32,
    n: int,
)
    requires
        0 <= n,
    ensures
        0 <= total_upto(boards, priors, hit_mask, miss_mask, squids_gotten, n) <= n * (
        u64::MAX as int),
    decreases n,
{
    if n > 0 {
        lemma_total_bound(boards, priors, hit_mask, miss_mask, squids_gotten, n - 1);
        assert((n - 1) * (u64::MAX as int) + (u64::MAX as int) == n * (u64::MAX as int))
            by (nonlinear_arith);
    }
}

/// Each cell's partial mass sits between zero and the partial total.
pub proof fn lemma_cell_le_total(
    boards: Seq<PossibleBoard>,
    priors: Option<Seq<u64>>,
    hit_mask: u64,
    miss_mask: u64,
    squids_gotten: i32,
    c: u64,
    n: int,
)
    requires
        0 <= n,
    ensures
        0 <= cell_upto(boards, priors, hit_mask, miss_mask, squids_gotten, c, n) <= total_upto(
            boards,
            priors,
            hit_mask,
            miss_mask,
            squids_gotten,
            n,
        ),
    decreases n,
{
    if n > 0 {
        lemma_cell_le_total(boards, priors, hit_mask, miss_mask, squids_gotten, c, n - 1);
    }
}

/// Sum of the per-cell masses over cells `0 .. cmax`, each taken over the
/// first `n` configurations.
pub open spec fn cell_mass_sum(
    boards: Seq<PossibleBoard>,
    priors: Option<Seq<u64>>,
    hit_mask: u64,
    miss_mask: u64,
    squids_gotten: i32,
    cmax: int,
    n: int,
) -> int
    decreases cmax,
{
    if cmax <= 0 {
        0
    } else {
        cell_mass_sum(boards, priors, hit_mask, miss_mask, squids_gotten, cmax - 1, n) + cell_upto(
            boards,
            priors,
            hit_mask,
            miss_mask,
            squids_gotten,
            (cmax - 1) as u64,
            n,
        )
    }
}

/// Taking one more configuration adds its weight once per occupied cell
/// below `cmax` to the summed cell masses.
proof fn lemma_cell_mass_sum_step(
    boards: Seq<PossibleBoard>,
    priors: Option<Seq<u64>>,
    hit_mask: u64,
    miss_mask: u64,
    squids_gotten: i32,
    cmax: int,
    n: int,
)
    requires
        0 <= cmax <= 64,
        1 <= n,
    ensures
        cell_mass_sum(boards, priors, hit_mask, miss_mask, squids_gotten, cmax, n)
            == cell_mass_sum(boards, priors, hit_mask, miss_mask, squids_gotten, cmax, n - 1) + if
        compatible(boards[n - 1], hit_mask, miss_mask, squids_gotten) {
            contribution(boards, priors, n - 1) * popcount_upto(boards[n - 1].squids, cmax)
        } else {
            0int
        },
    decreases cmax,
{
    if cmax > 0 {
        lemma_cell_mass_sum_step(boards, priors, hit_mask, miss_mask, squids_gotten, cmax - 1, n);
        let w = contribution(boards, priors, n - 1);
        let pc = popcount_upto(boards[n - 1].squids, cmax - 1);
        if compatible(boards[n - 1], hit_mask, miss_mask, squids_gotten) && bit_set(
            boards[n - 1].squids,
            (cmax - 1) as u64,
        ) {
            assert(w * (pc + 1) == w * pc + w) by (nonlinear_arith);
        }
    }
}

/// Over all 64 cells, the summed cell masses are exactly nine times the
/// total: every configuration occupies nine cells.
pub proof fn lemma_cell_mass_sum_total(
    boards: Seq<PossibleBoard>,
    priors: Option<Seq<u64>>,
    hit_mask: u64,
    miss_mask: u64,
    squids_gotten: i32,
    n: int,
)
    requires
        0 <= n <= boards.len(),
        forall|i: int| 0 <= i < boards.len() ==> board_wf(#[trigger] boards[i]),
    ensures
        cell_mass_sum(boards, priors, hit_mask, miss_mask, squids_gotten, 64, n) == 9 * total_upto(
            boards,
            priors,
            hit_mask,
            miss_mask,
            squids_gotten,
            n,
        ),
    decreases n,
{
    if n == 0 {
        lemma_cell_mass_sum_zero(boards, priors, hit_mask, miss_mask, squids_gotten, 64);
    } else {
        lemma_cell_mass_sum_total(boards, priors, hit_mask, miss_mask, squids_gotten, n - 1);
        lemma_cell_mass_sum_step(boards, priors, hit_mask, miss_mask, squids_gotten, 64, n);
        if compatible(boards[n - 1], hit_mask, miss_mask, squids_gotten) {
            let w = contribution(boards, priors, n - 1);
            assert(popcount(boards[n - 1].squids) == 9);
            assert(w * 9 == 9 * w) by (nonlinear_arith);
        }
    }
}

/// With no configurations taken, every summed cell mass is zero.
proof fn lemma_cell_mass_sum_zero(
    boards: Seq<PossibleBoard>,
    priors: Option<Seq<u64>>,
    hit_mask: u64,
    miss_mask: u64,
    squids_gotten: i32,
    cmax: int,
)
    requires
        0 <= cmax,
    ensures
        cell_mass_sum(boards, priors, hit_mask, miss_mask, squids_gotten, cmax, 0) == 0,
    decreases cmax,
{
    if cmax > 0 {
        lemma_cell_mass_sum_zero(boards, priors, hit_mask, miss_mask, squids_gotten, cmax - 1);
    }
}

/// Accumulates the per-cell masses and the total over the whole table.
pub(crate) fn accumulate(
    boards: &Vec<PossibleBoard>,
    priors: Option<&Vec<u64>>,
    hit_mask: u64,
    miss_mask: u64,
    squids_gotten: i32,
) -> (r: (Vec<u128>, u128))
    requires
        priors is Some ==> priors->Some_0@.len() == boards@.len(),
    ensures
        r.0@.len() == 64,
        forall|c: int|
            0 <= c < 64 ==> r.0@[c] == cell_upto(
                boards@,
                prior_view(priors),
                hit_mask,
                miss_mask,
                squids_gotten,
                c as u64,
                boards@.len() as int,
            ),
        r.1 == total_upto(
            boards@,
            prior_view(priors),
            hit_mask,
            miss_mask,
            squids_gotten,
            boards@.len() as int,
        ),
{
    let ghost pv = prior_view(priors);
    let mut cells: Vec<u128> = Vec::new();
    let mut c0: usize = 0;
    while c0 < 64
        invariant
            c0 <= 64,
            cells@.len() == c0,
            forall|c: int| 0 <= c < c0 ==> cells@[c] == 0,
        decreases 64 - c0,
    {
        cells.push(0);
        c0 = c0 + 1;
    }
    let mut total: u128 = 0;
    let n = boards.len();
    let mut i: usize = 0;
    while i < n
        invariant
            i <= n,
            n == boards@.len(),
            priors is Some ==> priors->Some_0@.len() == n,
            pv == prior_view(priors),
            cells@.len() == 64,
            total == total_upto(boards@, pv, hit_mask, miss_mask, squids_gotten, i as int),
            forall|c: int|
                0 <= c < 64 ==> cells@[c] == cell_upto(
                    boards@,
                    pv,
                    hit_mask,
                    miss_mask,
                    squids_gotten,
                    c as u64,
                    i as int,
                ),
        decreases n - i,
    {
        proof {
            lemma_total_bound(boards@, pv, hit_mask, miss_mask, squids_gotten, i as int);
            assert((i as int) * (u64::MAX as int) + (u64::MAX as int) < u128::MAX as int)
                by (nonlinear_arith)
                requires
                    (i as int) < 0x1_0000_0000_0000_0000,
            ;
        }
        let board = &boards[i];
        let skip: bool = match priors {
            Option::Some(p) => p[i] == 0,
            Option::None => false,
        };
        let w: u64 = match priors {
            Option::Some(p) => p[i],
            Option::None => board.weight,
        };
        if !skip && board.check_compatible(hit_mask, miss_mask, squids_gotten) {
            total = total + (w as u128);
            let mut c: usize = 0;
            while c < 64
                invariant
                    c <= 64,
                    i < n,
                    n == boards@.len(),
                    pv == prior_view(priors),
                    cells@.len() == 64,
                    w as int == contribution(boards@, pv, i as int),
                    compatible(boards@[i as int], hit_mask, miss_mask, squids_gotten),
                    *board == boards@[i as int],
                    forall|cc: int|
                        0 <= cc < c ==> cells@[cc] == cell_upto(
                            boards@,
                            pv,
                            hit_mask,
                            miss_mask,
                            squids_gotten,
                            cc as u64,
                            i + 1,
                        ),
                    forall|cc: int|
                        c <= cc < 64 ==> cells@[cc] == cell_upto(
                            boards@,
                            pv,
                            hit_mask,
                            miss_mask,
                            squids_gotten,
                            cc as u64,
                            i as int,
                        ),
                decreases 64 - c,
            {
                proof {
                    lemma_cell_le_total(
                        boards@,
                        pv,
                        hit_mask,
                        miss_mask,
                        squids_gotten,
                        c as u64,
                        i as int,
                    );
                    lemma_total_bound(boards@, pv, hit_mask, miss_mask, squids_gotten, i as int);
                    assert((i as int) * (u64::MAX as int) + (u64::MAX as int) < u128::MAX as int)
                        by (nonlinear_arith)
                        requires
                            (i as int) < 0x1_0000_0000_0000_0000,
                    ;
                }
                let sq: u64 = board.squids;
                if (sq & (1u64 << (c as u64))) != 0 {
                    proof {
                        assert(bit_set(sq, c as u64)) by (bit_vector)
                            requires
                                sq & (1u64 << (c as u64)) != 0,
                                c < 64,
                        ;
                    }
                    let updated: u128 = cells[c] + (w as u128);
                    cells.set(c, updated);
                } else {
                    proof {
                        assert(!bit_set(sq, c as u64)) by (bit_vector)
                            requires
                                sq & (1u64 << (c as u64)) == 0,
                                c < 64,
                        ;
                    }
                }
                c = c + 1;
            }
        } else {
            proof {
                if skip {
                    assert(contribution(boards@, pv, i as int) == 0);
                }
                assert forall|cc: int| 0 <= cc < 64 implies cells@[cc] == cell_upto(
                    boards@,
                    pv,
                    hit_mask,
                    miss_mask,
                    squids_gotten,
                    cc as u64,
                    i + 1,
                ) by {
                    assert(cells@[cc] == cell_upto(
                        boards@,
                        pv,
                        hit_mask,
                        miss_mask,
                        squids_gotten,
                        cc as u64,
                        i as int,
                    ));
                }
            }
        }
        i = i + 1;
    }
    (cells, total)
}

/// The view of an optional borrowed prior vector.
pub open spec fn prior_view(priors: Option<&Vec<u64>>) -> Option<Seq<u64>> {
    match priors {
        Option::Some(p) => Option::Some(p@),
        Option::None => Option::None,
    }
}

} // verus!
