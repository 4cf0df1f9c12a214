//! Global properties of the engine, stated and proved once over the spec
//! functions that the public contracts use.

use vstd::prelude::*;
use crate::aggregate::{
    cell_upto,
    cell_vector,
    cell_mass_sum,
    lemma_cell_le_total,
    lemma_cell_mass_sum_total,
    lemma_total_bound,
    posterior,
    total_upto,
};
use crate::engine::{disambiguate_spec, match_indices_spec};
use crate::masks::{lemma_popcount_or, popcount};
use crate::table::{
    all_boards,
    board_wf,
    compat_masks,
    compatible,
    lemma_compat2_nonempty,
    lemma_compat3_nonempty,
    lemma_compat4_nonempty,
    lemma_compat_prefix_len,
    lemma_compat_prefix_props,
    make_board,
    row4,
    squids_hit,
    table2_prefix,
    table3_prefix,
    PossibleBoard,
};

verus! {

/// Sum of a mass vector's entries.
pub open spec fn sum_cells(s: Seq<u128>) -> int
    decreases s.len(),
{
    if s.len() == 0 {
        0
    } else {
        sum_cells(s.drop_last()) + s.last()
    }
}

/// The summed prefix of the per-cell mass vector equals the summed cell
/// masses.
proof fn lemma_sum_cell_vector(
    boards: Seq<PossibleBoard>,
    priors: Option<Seq<u64>>,
    hit_mask: u64,
    miss_mask: u64,
    squids_gotten: i32,
    cmax: int,
)
    requires
        0 <= cmax <= 64,
        boards.len() <= 604584,
    ensures
        sum_cells(
            cell_vector(boards, priors, hit_mask, miss_mask, squids_gotten).subrange(0, cmax),
        ) == cell_mass_sum(
            boards,
            priors,
            hit_mask,
            miss_mask,
            squids_gotten,
            cmax,
            boards.len() as int,
        ),
    decreases cmax,
{
    let cv = cell_vector(boards, priors, hit_mask, miss_mask, squids_gotten);
    let n = boards.len() as int;
    if cmax == 0 {
        assert(cv.subrange(0, 0) =~= Seq::empty());
    } else {
        lemma_sum_cell_vector(boards, priors, hit_mask, miss_mask, squids_gotten, cmax - 1);
        lemma_cell_le_total(boards, priors, hit_mask, miss_mask, squids_gotten, (cmax - 1) as u64, n);
        lemma_total_bound(boards, priors, hit_mask, miss_mask, squids_gotten, n);
        assert(cv.subrange(0, cmax).drop_last() =~= cv.subrange(0, cmax - 1));
        assert(cv.subrange(0, cmax).last() == cell_upto(
            boards,
            priors,
            hit_mask,
            miss_mask,
            squids_gotten,
            (cmax - 1) as u64,
            n,
        ) as u128);
    }
}

/// Posterior normalization: whenever a posterior is present, its 64 cell
/// masses each lie between zero and the total, the total is positive, and
/// the masses sum to exactly nine times the total — each surviving
/// configuration occupies exactly nine cells, so dividing by the total
/// yields per-cell probabilities in `[0, 1]` whose sum is the total object
/// footprint.
pub proof fn lemma_posterior_normalized(
    boards: Seq<PossibleBoard>,
    priors: Option<Seq<u64>>,
    hit_mask: u64,
    miss_mask: u64,
    squids_gotten: i32,
)
    requires
        boards.len() == 604584,
        forall|i: int| 0 <= i < boards.len() ==> board_wf(#[trigger] boards[i]),
    ensures
        posterior(boards, priors, hit_mask, miss_mask, squids_gotten) matches Option::Some(p)
            ==> {
            &&& p.0.len() == 64
            &&& p.1 > 0
            &&& sum_cells(p.0) == 9 * (p.1 as int)
            &&& forall|c: int| 0 <= c < 64 ==> (#[trigger] p.0[c]) <= p.1
        },
{
    let n = boards.len() as int;
    lemma_posterior_normalized_one(boards, priors, hit_mask, miss_mask, squids_gotten);
    lemma_total_bound(boards, priors, hit_mask, miss_mask, squids_gotten, n);
    let t = total_upto(boards, priors, hit_mask, miss_mask, squids_gotten, n);
    if priors is Some && t == 0 {
        lemma_posterior_normalized_one(boards, Option::None, hit_mask, miss_mask, squids_gotten);
        lemma_total_bound(boards, Option::None, hit_mask, miss_mask, squids_gotten, n);
        let tn = total_upto(boards, Option::None, hit_mask, miss_mask, squids_gotten, n);
        assert(posterior(boards, priors, hit_mask, miss_mask, squids_gotten) == posterior(
            boards,
            Option::None,
            hit_mask,
            miss_mask,
            squids_gotten,
        ));
        if tn != 0 {
            assert(posterior(boards, Option::None, hit_mask, miss_mask, squids_gotten)
                == Option::Some(
                (cell_vector(boards, Option::None, hit_mask, miss_mask, squids_gotten), tn as u128),
            ));
            assert((tn as u128) as int == tn);
        } else {
            assert(posterior(boards, Option::None, hit_mask, miss_mask, squids_gotten) is None);
        }
    } else if t != 0 {
        assert(posterior(boards, priors, hit_mask, miss_mask, squids_gotten) == Option::Some(
            (cell_vector(boards, priors, hit_mask, miss_mask, squids_gotten), t as u128),
        ));
        assert((t as u128) as int == t);
    } else {
        assert(posterior(boards, priors, hit_mask, miss_mask, squids_gotten) is None);
    }
}

/// The present-posterior facts for one fixed prior choice, without the
/// fallback step.
proof fn lemma_posterior_normalized_one(
    boards: Seq<PossibleBoard>,
    priors: Option<Seq<u64>>,
    hit_mask: u64,
    miss_mask: u64,
    squids_gotten: i32,
)
    requires
        boards.len() == 604584,
        forall|i: int| 0 <= i < boards.len() ==> board_wf(#[trigger] boards[i]),
    ensures
        total_upto(boards, priors, hit_mask, miss_mask, squids_gotten, boards.len() as int) != 0
            ==> {
            let cv = cell_vector(boards, priors, hit_mask, miss_mask, squids_gotten);
            let t = total_upto(boards, priors, hit_mask, miss_mask, squids_gotten, boards.len() as int);
            &&& cv.len() == 64
            &&& t > 0
            &&& t <= 604584 * (u64::MAX as int)
            &&& sum_cells(cv) == 9 * t
            &&& forall|c: int| 0 <= c < 64 ==> (#[trigger] cv[c]) <= t as u128
        },
{
    let n = boards.len() as int;
    let cv = cell_vector(boards, priors, hit_mask, miss_mask, squids_gotten);
    let t = total_upto(boards, priors, hit_mask, miss_mask, squids_gotten, n);
    lemma_total_bound(boards, priors, hit_mask, miss_mask, squids_gotten, n);
    lemma_sum_cell_vector(boards, priors, hit_mask, miss_mask, squids_gotten, 64);
    lemma_cell_mass_sum_total(boards, priors, hit_mask, miss_mask, squids_gotten, n);
    assert(cv.subrange(0, 64) =~= cv);
    assert forall|c: int| 0 <= c < 64 implies (#[trigger] cv[c]) <= t as u128 by {
        lemma_cell_le_total(boards, priors, hit_mask, miss_mask, squids_gotten, c as u64, n);
    }
}

/// Determinism: the posterior is a function of the table, the prior and
/// the evidence alone, so identical requests yield identical results.
pub proof fn lemma_posterior_functional(
    boards: Seq<PossibleBoard>,
    priors: Option<Seq<u64>>,
    hit_mask: u64,
    miss_mask: u64,
    squids_gotten: i32,
    r1: Option<(Seq<u128>, u128)>,
    r2: Option<(Seq<u128>, u128)>,
)
    requires
        r1 == posterior(boards, priors, hit_mask, miss_mask, squids_gotten),
        r2 == posterior(boards, priors, hit_mask, miss_mask, squids_gotten),
    ensures
        r1 == r2,
{
}

/// A well-formed configuration structurally matches the evidence made of
/// exactly its own occupied cells: every object is then fully revealed.
pub proof fn lemma_self_hit_compatible(b: PossibleBoard)
    requires
        board_wf(b),
    ensures
        compatible(b, b.squids, 0, 3),
{
    let s2 = b.squid2;
    let s3 = b.squid3;
    let s4 = b.squid4;
    let sq = b.squids;
    assert(sq & !sq == 0 && 0u64 & sq == 0 && s2 & !sq == 0 && s3 & !sq == 0 && s4 & !sq == 0)
        by (bit_vector)
        requires
            sq == s2 | s3 | s4,
    ;
    assert(squids_hit(b, b.squids) == 3);
}

/// A unique structural match is authoritative: whatever prior the history
/// induces, the disambiguation returns that match.
pub proof fn lemma_unique_match_authoritative(
    boards: Seq<PossibleBoard>,
    priors: Seq<u64>,
    hit_mask: u64,
)
    requires
        match_indices_spec(boards, hit_mask).len() == 1,
    ensures
        disambiguate_spec(boards, priors, hit_mask) == Option::Some(
            match_indices_spec(boards, hit_mask)[0] as u32,
        ),
{
}

/// Completeness of the structural match list: an index is listed exactly
/// when its configuration matches the hit mask with all objects revealed.
pub proof fn lemma_matches_complete(boards: Seq<PossibleBoard>, hit_mask: u64, i: int)
    requires
        0 <= i < boards.len(),
    ensures
        compatible(boards[i], hit_mask, 0, 3) <==> match_indices_spec(boards, hit_mask).contains(
            i,
        ),
{
    lemma_matches_complete_prefix(boards, hit_mask, i, boards.len() as int);
}

/// The prefix form of match-list completeness.
proof fn lemma_matches_complete_prefix(boards: Seq<PossibleBoard>, hit_mask: u64, i: int, n: int)
    requires
        0 <= i < n <= boards.len(),
    ensures
        compatible(boards[i], hit_mask, 0, 3) <==> crate::engine::matches_prefix(
            boards,
            hit_mask,
            n,
        ).contains(i),
    decreases n,
{
    let ms = crate::engine::matches_prefix(boards, hit_mask, n);
    let prev = crate::engine::matches_prefix(boards, hit_mask, n - 1);
    if i < n - 1 {
        lemma_matches_complete_prefix(boards, hit_mask, i, n - 1);
        if compatible(boards[i], hit_mask, 0, 3) {
            let k = choose|k: int| 0 <= k < prev.len() && prev[k] == i;
            assert(ms[k] == i);
        }
        if ms.contains(i) {
            let k = choose|k: int| 0 <= k < ms.len() && ms[k] == i;
            if k < prev.len() {
                assert(prev[k] == i);
            } else {
                assert(ms[k] == n - 1);
            }
        }
    } else {
        crate::engine::lemma_matches_range(boards, hit_mask, n - 1);
        if compatible(boards[n - 1], hit_mask, 0, 3) {
            assert(ms[ms.len() - 1] == i);
        }
        if ms.contains(i) {
            let k = choose|k: int| 0 <= k < ms.len() && ms[k] == i;
            if k < prev.len() {
                assert(prev[k] == i);
            }
        }
    }
}

/// Sum of two exact fractions, numerator and denominator.
pub open spec fn frac_add(a: (int, int), b: (int, int)) -> (int, int) {
    (a.0 * b.1 + b.0 * a.1, a.1 * b.1)
}

/// Equality of exact fractions with positive denominators.
pub open spec fn frac_eq(a: (int, int), b: (int, int)) -> bool {
    a.1 >= 1 && b.1 >= 1 && a.0 * b.1 == b.0 * a.1
}

/// The exact probability mass of a configuration sequence: the sum of the
/// reciprocals of the generation denominators, as one fraction.
pub open spec fn recip_sum(boards: Seq<PossibleBoard>) -> (int, int)
    decreases boards.len(),
{
    if boards.len() == 0 {
        (0int, 1int)
    } else {
        frac_add(recip_sum(boards.drop_last()), (1int, boards.last().denom as int))
    }
}

/// Every denominator of the sequence is positive.
spec fn denoms_pos(s: Seq<PossibleBoard>) -> bool {
    forall|i: int| 0 <= i < s.len() ==> (#[trigger] s[i].denom) >= 1
}

/// Adding a zero fraction changes nothing, exactly.
proof fn lemma_frac_add_unit(a: (int, int))
    ensures
        frac_add(a, (0int, 1int)) == a,
{
}

/// Fraction addition is exactly associative.
#[verifier::rlimit(60)]
proof fn lemma_frac_add_assoc(a: (int, int), b: (int, int), c: (int, int))
    ensures
        frac_add(frac_add(a, b), c) == frac_add(a, frac_add(b, c)),
{
    let a0 = a.0;
    let a1 = a.1;
    let b0 = b.0;
    let b1 = b.1;
    let c0 = c.0;
    let c1 = c.1;
    assert((a0 * b1 + b0 * a1) * c1 == (a0 * b1) * c1 + (b0 * a1) * c1) by (nonlinear_arith);
    assert((a0 * b1) * c1 == a0 * (b1 * c1)) by (nonlinear_arith);
    assert((b0 * a1) * c1 == (b0 * c1) * a1) by (nonlinear_arith);
    assert(c0 * (a1 * b1) == (c0 * b1) * a1) by (nonlinear_arith);
    assert((b0 * c1 + c0 * b1) * a1 == (b0 * c1) * a1 + (c0 * b1) * a1) by (nonlinear_arith);
    assert((a1 * b1) * c1 == a1 * (b1 * c1)) by (nonlinear_arith);
}

/// Fraction addition is exactly commutative.
proof fn lemma_frac_add_comm(a: (int, int), b: (int, int))
    ensures
        frac_add(a, b) == frac_add(b, a),
{
    assert(a.0 * b.1 + b.0 * a.1 == b.0 * a.1 + a.0 * b.1 && a.1 * b.1 == b.1 * a.1)
        by (nonlinear_arith);
}

/// Fraction equality is transitive.
proof fn lemma_frac_eq_trans(a: (int, int), b: (int, int), c: (int, int))
    requires
        frac_eq(a, b),
        frac_eq(b, c),
    ensures
        frac_eq(a, c),
{
    assert(a.0 * b.1 == b.0 * a.1 && b.0 * c.1 == c.0 * b.1 && a.1 >= 1 && b.1 >= 1 && c.1 >= 1
        ==> a.0 * c.1 == c.0 * a.1) by (nonlinear_arith);
}

/// Replacing a summand by an equal fraction keeps the sum equal.
proof fn lemma_frac_add_cong(a: (int, int), a2: (int, int), b: (int, int))
    requires
        frac_eq(a, a2),
        b.1 >= 1,
    ensures
        frac_eq(frac_add(a, b), frac_add(a2, b)),
{
    assert(a.0 * a2.1 == a2.0 * a.1 && a.1 >= 1 && a2.1 >= 1 && b.1 >= 1 ==> (a.0 * b.1 + b.0
        * a.1) * (a2.1 * b.1) == (a2.0 * b.1 + b.0 * a2.1) * (a.1 * b.1) && a.1 * b.1 >= 1 && a2.1
        * b.1 >= 1) by (nonlinear_arith);
}

/// A reciprocal sum over positive denominators has a positive denominator.
proof fn lemma_recip_pos(s: Seq<PossibleBoard>)
    requires
        denoms_pos(s),
    ensures
        recip_sum(s).1 >= 1,
    decreases s.len(),
{
    if s.len() > 0 {
        assert(denoms_pos(s.drop_last()));
        lemma_recip_pos(s.drop_last());
        let a = recip_sum(s.drop_last());
        let d = s.last().denom as int;
        assert(a.1 >= 1 && d >= 1 ==> a.1 * d >= 1) by (nonlinear_arith);
    }
}

/// The reciprocal sum splits over concatenation, up to fraction equality.
proof fn lemma_recip_concat(s1: Seq<PossibleBoard>, s2: Seq<PossibleBoard>)
    requires
        denoms_pos(s1),
        denoms_pos(s2),
    ensures
        frac_eq(recip_sum(s1 + s2), frac_add(recip_sum(s1), recip_sum(s2))),
    decreases s2.len(),
{
    lemma_recip_pos(s1);
    lemma_recip_pos(s2);
    if s2.len() == 0 {
        assert(s1 + s2 =~= s1);
        lemma_frac_add_unit(recip_sum(s1));
        lemma_recip_pos(s1 + s2);
    } else {
        let s2p = s2.drop_last();
        let d = s2.last().denom as int;
        assert(denoms_pos(s2p));
        lemma_recip_pos(s2p);
        assert((s1 + s2).drop_last() =~= s1 + s2p);
        assert((s1 + s2).last() == s2.last());
        lemma_recip_concat(s1, s2p);
        lemma_frac_add_cong(
            recip_sum(s1 + s2p),
            frac_add(recip_sum(s1), recip_sum(s2p)),
            (1int, d),
        );
        lemma_frac_add_assoc(recip_sum(s1), recip_sum(s2p), (1int, d));
        assert(frac_add(frac_add(recip_sum(s1), recip_sum(s2p)), (1int, d)) == frac_add(
            recip_sum(s1),
            recip_sum(s2),
        ));
        lemma_frac_eq_trans(
            recip_sum(s1 + s2),
            frac_add(frac_add(recip_sum(s1), recip_sum(s2p)), (1int, d)),
            frac_add(recip_sum(s1), recip_sum(s2)),
        );
    }
}

/// `k` copies of the reciprocal of `d` sum to `k / d`.
proof fn lemma_recip_const(s: Seq<PossibleBoard>, d: int)
    requires
        d >= 1,
        forall|i: int| 0 <= i < s.len() ==> (#[trigger] s[i].denom) as int == d,
    ensures
        frac_eq(recip_sum(s), (s.len() as int, d)),
    decreases s.len(),
{
    if s.len() == 0 {
        assert(0int * d == 0int * 1int) by (nonlinear_arith);
    } else {
        let sp = s.drop_last();
        let k = s.len() as int;
        lemma_recip_const(sp, d);
        assert(denoms_pos(s));
        assert(denoms_pos(sp));
        lemma_recip_pos(sp);
        lemma_frac_add_cong(recip_sum(sp), ((k - 1) as int, d), (1int, d));
        assert(frac_add(((k - 1) as int, d), (1int, d)) == ((k - 1) * d + d, d * d));
        assert(((k - 1) * d + d) * d == k * (d * d)) by (nonlinear_arith);
        assert(d * d >= 1) by (nonlinear_arith)
            requires
                d >= 1,
        ;
        assert(frac_eq(((k - 1) * d + d, d * d), (k, d)));
        lemma_frac_eq_trans(
            recip_sum(s),
            frac_add(((k - 1) as int, d), (1int, d)),
            (k, d),
        );
    }
}

/// One row of the table — all continuations of a (mask2, mask3) prefix —
/// carries exactly the mass `1 / (n2 * n3)`.
proof fn lemma_row4_recip(m2: u64, m3: u64, n2: int, n3: int)
    requires
        popcount(m2) == 2,
        popcount(m3) == 3,
        m2 & m3 == 0,
        1 <= n2 <= 128,
        1 <= n3 <= 128,
    ensures
        frac_eq(
            recip_sum(
                row4(m2, m3, ((n2 * n3) * compat_masks(m2 | m3, 4).len()) as u64),
            ),
            (1int, n2 * n3),
        ),
        denoms_pos(row4(m2, m3, ((n2 * n3) * compat_masks(m2 | m3, 4).len()) as u64)),
{
    lemma_popcount_or(m2, m3);
    lemma_compat4_nonempty(m2 | m3);
    lemma_compat_prefix_len(m2 | m3, 4, 128);
    let n4 = compat_masks(m2 | m3, 4).len() as int;
    assert(1 <= (n2 * n3) * n4 <= 2097152) by (nonlinear_arith)
        requires
            1 <= n2 <= 128,
            1 <= n3 <= 128,
            1 <= n4 <= 128,
    ;
    let denom = ((n2 * n3) * n4) as u64;
    let row = row4(m2, m3, denom);
    assert(row.len() == n4);
    assert forall|i: int| 0 <= i < row.len() implies (#[trigger] row[i].denom) as int == (n2 * n3)
        * n4 by {
        assert(row[i] == make_board(m2, m3, compat_masks(m2 | m3, 4)[i], denom));
    }
    lemma_recip_const(row, (n2 * n3) * n4);
    assert(n4 * (n2 * n3) == 1 * ((n2 * n3) * n4)) by (nonlinear_arith);
    assert(n2 * n3 >= 1) by (nonlinear_arith)
        requires
            n2 >= 1,
            n3 >= 1,
    ;
    assert(frac_eq((n4, (n2 * n3) * n4), (1int, n2 * n3)));
    lemma_frac_eq_trans(recip_sum(row), (n4, (n2 * n3) * n4), (1int, n2 * n3));
}

/// The first `j` rows grown from one mask2 carry exactly `j / (n2 * n3)`.
proof fn lemma_table3_recip(m2: u64, n2: int, j: int)
    requires
        popcount(m2) == 2,
        1 <= n2 <= 128,
        0 <= j <= compat_masks(m2, 3).len(),
    ensures
        frac_eq(
            recip_sum(table3_prefix(m2, n2, j)),
            (j, n2 * compat_masks(m2, 3).len() as int),
        ),
        denoms_pos(table3_prefix(m2, n2, j)),
    decreases j,
{
    lemma_compat3_nonempty(m2);
    lemma_compat_prefix_len(m2, 3, 128);
    lemma_compat_prefix_props(m2, 3, 128);
    let ms3 = compat_masks(m2, 3);
    let n3 = ms3.len() as int;
    assert(n2 * n3 >= 1 && n2 * n3 <= 16384) by (nonlinear_arith)
        requires
            1 <= n2 <= 128,
            1 <= n3 <= 128,
    ;
    if j == 0 {
        assert(0int * (n2 * n3) == 0int * 1int) by (nonlinear_arith);
    } else {
        lemma_table3_recip(m2, n2, j - 1);
        let m3 = ms3[j - 1];
        assert(popcount(m3) == 3 && m2 & m3 == 0);
        lemma_row4_recip(m2, m3, n2, n3);
        let denom = ((n2 * n3) * compat_masks(m2 | m3, 4).len()) as u64;
        let prev = table3_prefix(m2, n2, j - 1);
        let row = row4(m2, m3, denom);
        assert(table3_prefix(m2, n2, j) == prev + row);
        lemma_recip_concat(prev, row);
        lemma_recip_pos(prev);
        lemma_recip_pos(row);
        // Replace both summands by their closed forms.
        lemma_frac_add_cong(recip_sum(prev), ((j - 1) as int, n2 * n3), recip_sum(row));
        lemma_frac_add_comm(((j - 1) as int, n2 * n3), recip_sum(row));
        lemma_frac_add_comm(recip_sum(row), ((j - 1) as int, n2 * n3));
        lemma_frac_add_cong(recip_sum(row), (1int, n2 * n3), ((j - 1) as int, n2 * n3));
        assert(frac_add((1int, n2 * n3), ((j - 1) as int, n2 * n3)) == (1 * (n2 * n3) + (j - 1) * (
        n2 * n3), (n2 * n3) * (n2 * n3)));
        assert((1 * (n2 * n3) + (j - 1) * (n2 * n3)) * (n2 * n3) == j * ((n2 * n3) * (n2 * n3))
            && (n2 * n3) * (n2 * n3) >= 1) by (nonlinear_arith)
            requires
                n2 * n3 >= 1,
        ;
        assert(frac_eq(
            frac_add((1int, n2 * n3), ((j - 1) as int, n2 * n3)),
            (j, n2 * n3),
        ));
        // recip(prev + row) ~ add(recip prev, recip row)
        //                   ~ add((j-1, D), recip row)            [cong]
        //                   = add(recip row, (j-1, D))            [comm]
        //                   ~ add((1, D), (j-1, D)) ~ (j, D).
        lemma_frac_eq_trans(
            recip_sum(prev + row),
            frac_add(recip_sum(prev), recip_sum(row)),
            frac_add(((j - 1) as int, n2 * n3), recip_sum(row)),
        );
        assert(frac_add(((j - 1) as int, n2 * n3), recip_sum(row)) == frac_add(
            recip_sum(row),
            ((j - 1) as int, n2 * n3),
        ));
        lemma_frac_eq_trans(
            recip_sum(prev + row),
            frac_add(recip_sum(row), ((j - 1) as int, n2 * n3)),
            frac_add((1int, n2 * n3), ((j - 1) as int, n2 * n3)),
        );
        lemma_frac_eq_trans(
            recip_sum(prev + row),
            frac_add((1int, n2 * n3), ((j - 1) as int, n2 * n3)),
            (j, n2 * n3),
        );
    }
}

/// The first `i` branches of the table carry exactly `i / n2`.
proof fn lemma_table2_recip(i: int)
    requires
        0 <= i <= compat_masks(0, 2).len(),
    ensures
        frac_eq(recip_sum(table2_prefix(i)), (i, compat_masks(0, 2).len() as int)),
        denoms_pos(table2_prefix(i)),
    decreases i,
{
    lemma_compat2_nonempty();
    lemma_compat_prefix_len(0, 2, 128);
    lemma_compat_prefix_props(0, 2, 128);
    let ms2 = compat_masks(0, 2);
    let n2 = ms2.len() as int;
    if i == 0 {
        assert(0int * n2 == 0int * 1int) by (nonlinear_arith);
    } else {
        lemma_table2_recip(i - 1);
        let m2 = ms2[i - 1];
        assert(popcount(m2) == 2);
        lemma_compat3_nonempty(m2);
        lemma_compat_prefix_len(m2, 3, 128);
        let n3 = compat_masks(m2, 3).len() as int;
        lemma_table3_recip(m2, n2, n3);
        let prev = table2_prefix(i - 1);
        let sub = table3_prefix(m2, n2, n3);
        assert(table2_prefix(i) == prev + sub);
        lemma_recip_concat(prev, sub);
        lemma_recip_pos(prev);
        lemma_recip_pos(sub);
        assert(n3 * n2 == 1 * (n2 * n3) && n2 * n3 >= 1 && n2 >= 1) by (nonlinear_arith)
            requires
                1 <= n2 <= 128,
                1 <= n3 <= 128,
        ;
        assert(frac_eq((n3, n2 * n3), (1int, n2)));
        lemma_frac_eq_trans(recip_sum(sub), (n3, n2 * n3), (1int, n2));
        lemma_frac_add_cong(recip_sum(prev), ((i - 1) as int, n2), recip_sum(sub));
        lemma_frac_add_comm(((i - 1) as int, n2), recip_sum(sub));
        lemma_frac_add_cong(recip_sum(sub), (1int, n2), ((i - 1) as int, n2));
        assert(frac_add((1int, n2), ((i - 1) as int, n2)) == (1 * n2 + (i - 1) * n2, n2 * n2));
        assert((1 * n2 + (i - 1) * n2) * n2 == i * (n2 * n2) && n2 * n2 >= 1) by (nonlinear_arith)
            requires
                n2 >= 1,
        ;
        assert(frac_eq(frac_add((1int, n2), ((i - 1) as int, n2)), (i, n2)));
        lemma_frac_eq_trans(
            recip_sum(prev + sub),
            frac_add(recip_sum(prev), recip_sum(sub)),
            frac_add(((i - 1) as int, n2), recip_sum(sub)),
        );
        assert(frac_add(((i - 1) as int, n2), recip_sum(sub)) == frac_add(
            recip_sum(sub),
            ((i - 1) as int, n2),
        ));
        lemma_frac_eq_trans(
            recip_sum(prev + sub),
            frac_add(recip_sum(sub), ((i - 1) as int, n2)),
            frac_add((1int, n2), ((i - 1) as int, n2)),
        );
        lemma_frac_eq_trans(
            recip_sum(prev + sub),
            frac_add((1int, n2), ((i - 1) as int, n2)),
            (i, n2),
        );
    }
}

/// Weight conservation: over the whole table, the exact generation
/// probabilities `1 / denom` sum to exactly one.
pub proof fn lemma_weight_conservation()
    ensures
        frac_eq(recip_sum(all_boards()), (1int, 1int)),
{
    lemma_compat2_nonempty();
    lemma_compat_prefix_len(0, 2, 128);
    let n2 = compat_masks(0, 2).len() as int;
    lemma_table2_recip(n2);
    assert(n2 * 1int == 1int * n2) by (nonlinear_arith);
    assert(frac_eq((n2, n2), (1int, 1int)));
    lemma_frac_eq_trans(recip_sum(all_boards()), (n2, n2), (1int, 1int));
}

} // verus!
