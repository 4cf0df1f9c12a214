//! The observation history driving the drift prior.
//!
//! A history records, per step, which table position the hidden generator
//! walk was observed to reach, the expected advance to the next step, and a
//! discretised drift kernel: fixed-point likelihood weights for each signed
//! offset from the expected landing position.  A kernel of `2 * limit`
//! weights covers offsets `-limit .. limit`; weight `WEIGHT_ONE` stands for
//! likelihood one.  Histories are compared by structural equality of all
//! three sequences.

use vstd::prelude::*;

verus! {

/// Discretised drift likelihoods for one step, indexed by
/// `offset + limit` where `limit == weights.len() / 2`.
pub struct DriftKernel {
    pub weights: Vec<u64>,
}

/// One observed walk: the observed table positions, the per-step expected
/// advances, and the per-step drift kernels.  `means` and `kernels` carry
/// one extra trailing entry describing the still-unobserved next step.
pub struct History {
    pub observed_boards: Vec<u32>,
    pub means: Vec<u32>,
    pub kernels: Vec<DriftKernel>,
}

/// The mathematical content of a kernel sequence.
pub open spec fn kernels_view(ks: Seq<DriftKernel>) -> Seq<Seq<u64>> {
    ks.map_values(|k: DriftKernel| k.weights@)
}

/// The mathematical content of a history: the three sequences it holds.
pub open spec fn hist_view(h: History) -> (Seq<u32>, Seq<u32>, Seq<Seq<u64>>) {
    (h.observed_boards@, h.means@, kernels_view(h.kernels@))
}

/// Shape constraints on a history: one more mean and kernel than observed
/// steps, and kernels of even, machine-representable size.
pub open spec fn hist_wf(h: History) -> bool {
    &&& h.means@.len() == h.observed_boards@.len() + 1
    &&& h.kernels@.len() == h.observed_boards@.len() + 1
    &&& forall|k: int|
        0 <= k < h.kernels@.len() ==> (#[trigger] h.kernels@[k].weights@.len()) % 2 == 0
    &&& forall|k: int|
        0 <= k < h.kernels@.len() ==> (#[trigger] h.kernels@[k].weights@.len()) <= 0x2_0000_0000
}

/// Structural equality of two `u32` sequences.
fn eq_u32s(a: &Vec<u32>, b: &Vec<u32>) -> (r: bool)
    ensures
        r == (a@ == b@),
{
    if a.len() != b.len() {
        return false;
    }
    let mut i: usize = 0;
    while i < a.len()
        invariant
            i <= a.len(),
            a@.len() == b@.len(),
            forall|j: int| 0 <= j < i ==> a@[j] == b@[j],
        decreases a.len() - i,
    {
        if a[i] != b[i] {
            return false;
        }
        i = i + 1;
    }
    proof {
        assert(a@ =~= b@);
    }
    true
}

/// Structural equality of two `u64` sequences.
fn eq_u64s(a: &Vec<u64>, b: &Vec<u64>) -> (r: bool)
    ensures
        r == (a@ == b@),
{
    if a.len() != b.len() {
        return false;
    }
    let mut i: usize = 0;
    while i < a.len()
        invariant
            i <= a.len(),
            a@.len() == b@.len(),
            forall|j: int| 0 <= j < i ==> a@[j] == b@[j],
        decreases a.len() - i,
    {
        if a[i] != b[i] {
            return false;
        }
        i = i + 1;
    }
    proof {
        assert(a@ =~= b@);
    }
    true
}

/// Structural equality of two histories: all three sequences agree.
pub fn history_eq(a: &History, b: &History) -> (r: bool)
    ensures
        r == (hist_view(*a) == hist_view(*b)),
{
    if !eq_u32s(&a.observed_boards, &b.observed_boards) {
        return false;
    }
    if !eq_u32s(&a.means, &b.means) {
        return false;
    }
    if a.kernels.len() != b.kernels.len() {
        proof {
            assert(kernels_view(a.kernels@).len() != kernels_view(b.kernels@).len());
        }
        return false;
    }
    let mut i: usize = 0;
    while i < a.kernels.len()
        invariant
            i <= a.kernels@.len(),
            a.kernels@.len() == b.kernels@.len(),
            forall|j: int| 0 <= j < i ==> a.kernels@[j].weights@ == b.kernels@[j].weights@,
        decreases a.kernels.len() - i,
    {
        if !eq_u64s(&a.kernels[i].weights, &b.kernels[i].weights) {
            proof {
                assert(kernels_view(a.kernels@)[i as int] != kernels_view(b.kernels@)[i as int]);
            }
            return false;
        }
        i = i + 1;
    }
    proof {
        assert(kernels_view(a.kernels@) =~= kernels_view(b.kernels@));
    }
    true
}

/// Copies a history field for field.
pub fn clone_history(h: &History) -> (r: History)
    ensures
        hist_view(r) == hist_view(*h),
        hist_wf(*h) ==> hist_wf(r),
{
    let mut observed: Vec<u32> = Vec::new();
    let mut i: usize = 0;
    while i < h.observed_boards.len()
        invariant
            i <= h.observed_boards@.len(),
            observed@ == h.observed_boards@.subrange(0, i as int),
        decreases h.observed_boards.len() - i,
    {
        observed.push(h.observed_boards[i]);
        proof {
            assert(observed@ =~= h.observed_boards@.subrange(0, i + 1));
        }
        i = i + 1;
    }
    let mut means: Vec<u32> = Vec::new();
    let mut j: usize = 0;
    while j < h.means.len()
        invariant
            j <= h.means@.len(),
            means@ == h.means@.subrange(0, j as int),
        decreases h.means.len() - j,
    {
        means.push(h.means[j]);
        proof {
            assert(means@ =~= h.means@.subrange(0, j + 1));
        }
        j = j + 1;
    }
    let mut kernels: Vec<DriftKernel> = Vec::new();
    let mut k: usize = 0;
    while k < h.kernels.len()
        invariant
            k <= h.kernels@.len(),
            kernels@.len() == k,
            forall|t: int| 0 <= t < k ==> kernels@[t].weights@ == h.kernels@[t].weights@,
        decreases h.kernels.len() - k,
    {
        let mut weights: Vec<u64> = Vec::new();
        let mut w: usize = 0;
        let kern = &h.kernels[k];
        while w < kern.weights.len()
            invariant
                w <= kern.weights@.len(),
                *kern == h.kernels@[k as int],
                weights@ == kern.weights@.subrange(0, w as int),
            decreases kern.weights.len() - w,
        {
            weights.push(kern.weights[w]);
            proof {
                assert(weights@ =~= kern.weights@.subrange(0, w + 1));
            }
            w = w + 1;
        }
        proof {
            assert(weights@ =~= h.kernels@[k as int].weights@);
        }
        kernels.push(DriftKernel { weights });
        k = k + 1;
    }
    proof {
        assert(observed@ =~= h.observed_boards@);
        assert(means@ =~= h.means@);
        assert(kernels_view(kernels@) =~= kernels_view(h.kernels@));
    }
    History { observed_boards: observed, means, kernels }
}

} // verus!
