//! The drift prior: a recursive scan over the externally supplied board
//! table.
//!
//! A hidden generator walk advances through the table.  Between consecutive
//! steps it advances by the step's expected mean plus a drift drawn from
//! that step's kernel; the walk can only move forward.  The scan explores
//! every forward landing window consistent with the observations, carrying
//! a fixed-point likelihood, and at the terminal depth smears the remaining
//! likelihood over every table slot the drift model can still reach.  The
//! result is an un-normalised weight per configuration; most entries stay
//! exactly zero.

use vstd::prelude::*;
use crate::history::{hist_wf, kernels_view, DriftKernel, History};
use crate::WEIGHT_ONE;

verus! {

/// Number of configurations the enumeration produces.
pub const BOARD_COUNT: usize = 604584;

/// The externally supplied lookup from generator-sequence position to
/// configuration index.  Installed once; every entry names a real
/// configuration.
pub struct BoardTable {
    entries: Vec<u32>,
}

impl View for BoardTable {
    type V = Seq<u32>;

    closed spec fn view(&self) -> Seq<u32> {
        self.entries@
    }
}

impl BoardTable {
    /// Every entry names a configuration and the table is addressable.
    pub open spec fn wf(&self) -> bool {
        &&& self@.len() <= 0x1_0000_0000
        &&& forall|j: int| 0 <= j < self@.len() ==> (#[trigger] self@[j]) < 604584
    }

    /// Accepts a table whose entries all name configurations; rejects any
    /// other.
    pub fn new(entries: Vec<u32>) -> (r: Option<BoardTable>)
        ensures
            r is Some <==> (entries@.len() <= 0x1_0000_0000 && forall|j: int|
                0 <= j < entries@.len() ==> (#[trigger] entries@[j]) < 604584),
            r is Some ==> r->Some_0@ == entries@ && r->Some_0.wf(),
    {
        if (entries.len() as u64) > 0x1_0000_0000u64 {
            return None;
        }
        let mut j: usize = 0;
        while j < entries.len()
            invariant
                j <= entries@.len(),
                forall|t: int| 0 <= t < j ==> (#[trigger] entries@[t]) < 604584,
            decreases entries.len() - j,
        {
            if entries[j] >= 604584u32 {
                return None;
            }
            j = j + 1;
        }
        Some(BoardTable { entries })
    }

    /// How many positions the table holds.
    pub fn len(&self) -> (n: usize)
        ensures
            n == self@.len(),
    {
        self.entries.len()
    }

    /// The configuration index at position `i`.
    pub fn at(&self, i: usize) -> (v: u32)
        requires
            i < self@.len(),
        ensures
            v == self@[i as int],
    {
        self.entries[i]
    }
}

/// Saturating fixed-point addition.
pub open spec fn sat_add64(a: u64, b: u64) -> u64 {
    if a + b > u64::MAX {
        u64::MAX
    } else {
        (a + b) as u64
    }
}

/// Saturating fixed-point multiplication: `a * b` with the scale divided
/// back out.
pub open spec fn mul_q(a: u64, b: u64) -> u64 {
    let p = (a as int * b as int) / (WEIGHT_ONE as int);
    if p > u64::MAX {
        u64::MAX
    } else {
        p as u64
    }
}

/// Adds two fixed-point masses, saturating at the top of the range.
fn sat_add(a: u64, b: u64) -> (r: u64)
    ensures
        r == sat_add64(a, b),
{
    if a > u64::MAX - b {
        u64::MAX
    } else {
        a + b
    }
}

/// Multiplies two fixed-point values, saturating at the top of the range.
fn mul_fixed(a: u64, b: u64) -> (r: u64)
    ensures
        r == mul_q(a, b),
{
    proof {
        assert((a as int) * (b as int) <= (u64::MAX as int) * (u64::MAX as int))
            by (nonlinear_arith)
            requires
                a <= u64::MAX,
                b <= u64::MAX,
        ;
    }
    let p: u128 = ((a as u128) * (b as u128)) / (WEIGHT_ONE as u128);
    if p > (u64::MAX as u128) {
        u64::MAX
    } else {
        p as u64
    }
}

/// Lower end of the landing window: strictly past the anchor, and no
/// further back than the drift kernel reaches below the expected landing.
pub open spec fn win_lo(anchor: int, mu: int, limit: int) -> int {
    if anchor + 1 >= anchor + mu - limit {
        anchor + 1
    } else {
        anchor + mu - limit
    }
}

/// Upper end of the landing window: within the table, and no further than
/// the drift kernel reaches above the expected landing.
pub open spec fn win_hi(tlen: int, anchor: int, mu: int, limit: int) -> int {
    if tlen <= anchor + mu + limit {
        tlen
    } else {
        anchor + mu + limit
    }
}

/// Shape constraints the scan relies on, shared by both spec functions.
pub open spec fn scan_args_ok(
    t: Seq<u32>,
    obs: Seq<u32>,
    means: Seq<u32>,
    kerns: Seq<Seq<u64>>,
    depth: int,
    anchor: int,
) -> bool {
    &&& 0 <= depth <= obs.len()
    &&& anchor >= 0
    &&& means.len() == obs.len() + 1
    &&& kerns.len() == obs.len() + 1
}

/// The accumulator after the scan has processed, at `depth` with the walk
/// anchored at `anchor` and likelihood `prob`, every landing position of
/// the step's window.
pub open spec fn scan_spec(
    t: Seq<u32>,
    obs: Seq<u32>,
    means: Seq<u32>,
    kerns: Seq<Seq<u64>>,
    depth: int,
    anchor: int,
    prob: u64,
    acc: Seq<u64>,
) -> Seq<u64>
    decreases obs.len() - depth, win_hi(t.len() as int, anchor, means[depth] as int, kerns[depth].len() as int / 2) - win_lo(anchor, means[depth] as int, kerns[depth].len() as int / 2) + 1,
{
    if !scan_args_ok(t, obs, means, kerns, depth, anchor) {
        acc
    } else {
        let mu = means[depth] as int;
        let limit = kerns[depth].len() as int / 2;
        if win_lo(anchor, mu, limit) >= win_hi(t.len() as int, anchor, mu, limit) {
            acc
        } else {
            scan_window(t, obs, means, kerns, depth, anchor, prob, win_lo(anchor, mu, limit), acc)
        }
    }
}

/// The accumulator after the scan has processed window positions
/// `i .. win_hi` at `depth`.  At the terminal depth each position adds the
/// drift-weighted likelihood to its configuration's entry; before it, each
/// position matching the observation anchors a deeper scan.
pub open spec fn scan_window(
    t: Seq<u32>,
    obs: Seq<u32>,
    means: Seq<u32>,
    kerns: Seq<Seq<u64>>,
    depth: int,
    anchor: int,
    prob: u64,
    i: int,
    acc: Seq<u64>,
) -> Seq<u64>
    decreases obs.len() - depth, win_hi(t.len() as int, anchor, means[depth] as int, kerns[depth].len() as int / 2) - i,
{
    if !scan_args_ok(t, obs, means, kerns, depth, anchor) {
        acc
    } else {
        let mu = means[depth] as int;
        let limit = kerns[depth].len() as int / 2;
        let hi = win_hi(t.len() as int, anchor, mu, limit);
        if i < win_lo(anchor, mu, limit) || i >= hi {
            acc
        } else {
            let idx = i - (anchor + mu) + limit;
            let w: u64 = if 0 <= idx < kerns[depth].len() {
                kerns[depth][idx]
            } else {
                0
            };
            let acc1 = if depth == obs.len() {
                if 0 <= t[i] < acc.len() {
                    acc.update(t[i] as int, sat_add64(acc[t[i] as int], mul_q(prob, w)))
                } else {
                    acc
                }
            } else if t[i] == obs[depth] {
                scan_spec(t, obs, means, kerns, depth + 1, i, mul_q(prob, w), acc)
            } else {
                acc
            };
            scan_window(t, obs, means, kerns, depth, anchor, prob, i + 1, acc1)
        }
    }
}

/// The un-normalised prior a table and a history induce: the scan from the
/// table's start with likelihood one over an all-zero accumulator.
pub open spec fn prior_spec(t: Seq<u32>, obs: Seq<u32>, means: Seq<u32>, kerns: Seq<Seq<u64>>) -> Seq<u64> {
    scan_spec(t, obs, means, kerns, 0, 0, WEIGHT_ONE, Seq::new(604584, |i: int| 0u64))
}

/// Runs one scan level: walks the landing window for `depth`, recursing on
/// observation matches and accumulating at the terminal depth.
fn scan_from(
    depth: usize,
    starting_index: usize,
    prob: u64,
    board_priors: &mut Vec<u64>,
    board_table: &BoardTable,
    history: &History,
)
    requires
        hist_wf(*history),
        board_table.wf(),
        depth <= history.observed_boards@.len(),
        starting_index <= board_table@.len(),
        old(board_priors)@.len() == BOARD_COUNT,
    ensures
        final(board_priors)@ == scan_spec(
            board_table@,
            history.observed_boards@,
            history.means@,
            kernels_view(history.kernels@),
            depth as int,
            starting_index as int,
            prob,
            old(board_priors)@,
        ),
        final(board_priors)@.len() == BOARD_COUNT,
    decreases history.observed_boards@.len() - depth,
{
    let ghost t = board_table@;
    let ghost obs = history.observed_boards@;
    let ghost means_v = history.means@;
    let ghost kerns = kernels_view(history.kernels@);
    let ghost acc0 = board_priors@;

    let n_steps: usize = history.observed_boards.len();
    let mu: u32 = history.means[depth];
    let kern: &DriftKernel = &history.kernels[depth];
    let wlen: usize = kern.weights.len();
    let limit: u64 = (wlen as u64) / 2;
    let anchor: u64 = starting_index as u64;
    let tlen: u64 = board_table.len() as u64;
    proof {
        assert(kerns[depth as int] == kern.weights@);
        assert(kern.weights@.len() % 2 == 0);
        assert(kern.weights@.len() <= 0x2_0000_0000);
        assert(anchor <= 0x1_0000_0000);
    }
    let mean_index: u64 = anchor + (mu as u64);
    let lower: u64 = if mean_index > limit && mean_index - limit > anchor + 1 {
        mean_index - limit
    } else {
        anchor + 1
    };
    let upper: u64 = if tlen <= mean_index + limit {
        tlen
    } else {
        mean_index + limit
    };
    let ghost mu_i = mu as int;
    let ghost limit_i = limit as int;
    proof {
        assert(limit_i == kerns[depth as int].len() as int / 2);
        assert(lower as int == win_lo(anchor as int, mu_i, limit_i));
        assert(upper as int == win_hi(t.len() as int, anchor as int, mu_i, limit_i));
        assert(scan_args_ok(t, obs, means_v, kerns, depth as int, anchor as int));
    }
    if lower >= upper {
        proof {
            assert(board_priors@ == scan_spec(
                t,
                obs,
                means_v,
                kerns,
                depth as int,
                starting_index as int,
                prob,
                acc0,
            ));
        }
        return;
    }
    let mut i: u64 = lower;
    while i < upper
        invariant
            lower <= i <= upper,
            hist_wf(*history),
            board_table.wf(),
            depth <= obs.len(),
            n_steps == obs.len(),
            t == board_table@,
            obs == history.observed_boards@,
            means_v == history.means@,
            kerns == kernels_view(history.kernels@),
            mu == means_v[depth as int],
            mu_i == mu as int,
            *kern == history.kernels@[depth as int],
            limit_i == limit as int,
            limit_i == kerns[depth as int].len() as int / 2,
            kern.weights@.len() == wlen,
            kern.weights@.len() == 2 * limit_i,
            anchor == starting_index as u64,
            starting_index <= t.len(),
            tlen == t.len(),
            mean_index == anchor + mu,
            lower as int == win_lo(anchor as int, mu_i, limit_i),
            upper as int == win_hi(t.len() as int, anchor as int, mu_i, limit_i),
            board_priors@.len() == BOARD_COUNT,
            scan_window(t, obs, means_v, kerns, depth as int, anchor as int, prob, i as int, board_priors@)
                == scan_window(t, obs, means_v, kerns, depth as int, anchor as int, prob, lower as int, acc0),
        decreases upper - i,
    {
        let ghost acc_before = board_priors@;
        let kern_off: u64 = (i + limit) - mean_index;
        proof {
            assert(kern_off as int == i as int - (anchor as int + mu_i) + limit_i);
            assert((i as int) < win_hi(t.len() as int, anchor as int, mu_i, limit_i));
            assert((kern_off as int) < 2 * limit_i);
            assert(kern.weights@.len() == 2 * limit_i);
        }
        let kern_idx: usize = kern_off as usize;
        proof {
            assert(0 <= (kern_idx as int) && (kern_idx as int) < kern.weights@.len());
        }
        let w: u64 = kern.weights[kern_idx];
        if depth == n_steps {
            let slot: usize = board_table.at(i as usize) as usize;
            proof {
                assert(t[i as int] < 604584);
            }
            let bump: u64 = mul_fixed(prob, w);
            let current: u64 = board_priors[slot];
            board_priors.set(slot, sat_add(current, bump));
            proof {
                assert(board_priors@ =~= acc_before.update(
                    t[i as int] as int,
                    sat_add64(acc_before[t[i as int] as int], mul_q(prob, w)),
                ));
            }
        } else {
            if board_table.at(i as usize) == history.observed_boards[depth] {
                scan_from(
                    depth + 1,
                    i as usize,
                    mul_fixed(prob, w),
                    board_priors,
                    board_table,
                    history,
                );
            }
        }
        proof {
            let hi_s = win_hi(t.len() as int, anchor as int, mu_i, limit_i);
            assert(scan_args_ok(t, obs, means_v, kerns, depth as int, anchor as int));
            assert(!((i as int) < win_lo(anchor as int, mu_i, limit_i) || (i as int) >= hi_s));
            let idx_s = i as int - (anchor as int + mu_i) + limit_i;
            assert(idx_s == kern_idx as int);
            assert(0 <= idx_s && idx_s < kerns[depth as int].len());
            assert(w == kerns[depth as int][idx_s]);
            assert((i as usize) as int == i as int);
            let acc1 = if depth as int == obs.len() {
                if 0 <= t[i as int] && (t[i as int] as int) < acc_before.len() {
                    acc_before.update(
                        t[i as int] as int,
                        sat_add64(acc_before[t[i as int] as int], mul_q(prob, w)),
                    )
                } else {
                    acc_before
                }
            } else if t[i as int] == obs[depth as int] {
                scan_spec(t, obs, means_v, kerns, depth as int + 1, i as int, mul_q(prob, w), acc_before)
            } else {
                acc_before
            };
            assert(board_priors@ == acc1);
            assert(scan_window(t, obs, means_v, kerns, depth as int, anchor as int, prob, i as int, acc_before)
                == scan_window(t, obs, means_v, kerns, depth as int, anchor as int, prob, i + 1, acc1));
        }
        i = i + 1;
    }
    proof {
        assert(scan_window(t, obs, means_v, kerns, depth as int, anchor as int, prob, upper as int, board_priors@)
            == board_priors@);
        assert(scan_spec(t, obs, means_v, kerns, depth as int, starting_index as int, prob, acc0)
            == scan_window(t, obs, means_v, kerns, depth as int, anchor as int, prob, lower as int, acc0));
    }
}

/// Computes the un-normalised per-configuration prior a history induces
/// over a board table.
pub fn compute_board_priors(board_table: &BoardTable, history: &History) -> (r: Vec<u64>)
    requires
        hist_wf(*history),
        board_table.wf(),
    ensures
        r@ == prior_spec(
            board_table@,
            history.observed_boards@,
            history.means@,
            kernels_view(history.kernels@),
        ),
        r@.len() == BOARD_COUNT,
{
    let mut board_priors: Vec<u64> = Vec::new();
    let mut j: usize = 0;
    while j < BOARD_COUNT
        invariant
            j <= BOARD_COUNT,
            board_priors@.len() == j,
            forall|k: int| 0 <= k < j ==> board_priors@[k] == 0,
        decreases BOARD_COUNT - j,
    {
        board_priors.push(0);
        j = j + 1;
    }
    proof {
        assert(board_priors@ =~= Seq::new(604584, |i: int| 0u64));
    }
    scan_from(0, 0, WEIGHT_ONE, &mut board_priors, board_table, history);
    board_priors
}

} // verus!
