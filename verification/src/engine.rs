//! The inference engine: the immutable configuration table plus the
//! bounded prior cache, and the request operations over them.

use vstd::prelude::*;
use crate::aggregate::{accumulate, posterior, prior_view};
use crate::cache::{cache_ok_for, cache_view, cache_wf, prior_of, PriorCache, CACHE_CAPACITY};
use crate::history::{hist_view, hist_wf, History};
use crate::masks::{cells_in_range, make_mask, mask_of};
use crate::prior::BoardTable;
use crate::table::{all_boards, board_wf, build_boards, compatible, PossibleBoard};

verus! {

/// Evidence for one request: confirmed-occupied cells, confirmed-empty
/// cells, and the count of fully revealed objects (`-1` for unknown).
pub struct GameState {
    pub hits: Vec<u8>,
    pub misses: Vec<u8>,
    pub squids_gotten: i32,
}

/// Every evidence cell names a real grid cell.
pub open spec fn state_wf(s: GameState) -> bool {
    cells_in_range(s.hits@) && cells_in_range(s.misses@)
}

/// The indices, among the first `n` configurations, whose structural state
/// matches the hit mask with all three objects fully revealed.
pub open spec fn matches_prefix(boards: Seq<PossibleBoard>, hit_mask: u64, n: int) -> Seq<int>
    decreases n,
{
    if n <= 0 {
        Seq::empty()
    } else {
        matches_prefix(boards, hit_mask, n - 1) + if compatible(boards[n - 1], hit_mask, 0, 3) {
            seq![n - 1]
        } else {
            Seq::empty()
        }
    }
}

/// All structural matches of a hit mask over the whole table.
pub open spec fn match_indices_spec(boards: Seq<PossibleBoard>, hit_mask: u64) -> Seq<int> {
    matches_prefix(boards, hit_mask, boards.len() as int)
}

/// Every listed match is an index of the table prefix it came from.
pub proof fn lemma_matches_range(boards: Seq<PossibleBoard>, hit_mask: u64, n: int)
    requires
        0 <= n,
    ensures
        matches_prefix(boards, hit_mask, n).len() <= n,
        forall|k: int|
            0 <= k < matches_prefix(boards, hit_mask, n).len() ==> 0 <= (
            #[trigger] matches_prefix(boards, hit_mask, n)[k]) < n,
    decreases n,
{
    if n > 0 {
        lemma_matches_range(boards, hit_mask, n - 1);
    }
}

/// The prior mass carried by the first `k` matches.
pub open spec fn match_total(priors: Seq<u64>, ms: Seq<int>, k: int) -> int
    decreases k,
{
    if k <= 0 {
        0
    } else {
        match_total(priors, ms, k - 1) + priors[ms[k - 1]]
    }
}

/// The first match, from position `k` on, holding more than nine tenths of
/// the matched prior mass.
pub open spec fn first_confident(priors: Seq<u64>, ms: Seq<int>, total: int, k: int) -> Option<
    int,
>
    decreases ms.len() - k,
{
    if k < 0 || k >= ms.len() {
        Option::None
    } else if priors[ms[k]] * 10 > total * 9 {
        Option::Some(ms[k])
    } else {
        first_confident(priors, ms, total, k + 1)
    }
}

/// The configuration the evidence and the prior single out, if any: the
/// unique structural match, or — among several — the first holding over
/// ninety percent of the matched prior mass, provided any mass survives.
pub open spec fn disambiguate_spec(
    boards: Seq<PossibleBoard>,
    priors: Seq<u64>,
    hit_mask: u64,
) -> Option<u32> {
    let ms = match_indices_spec(boards, hit_mask);
    if ms.len() == 0 {
        Option::None
    } else if ms.len() == 1 {
        Option::Some(ms[0] as u32)
    } else {
        let total = match_total(priors, ms, ms.len() as int);
        if total == 0 {
            Option::None
        } else {
            match first_confident(priors, ms, total, 0) {
                Option::Some(i) => Option::Some(i as u32),
                Option::None => Option::None,
            }
        }
    }
}

/// The engine: the full configuration table, immutable after construction,
/// and the bounded cache of computed priors.
pub struct PossibleBoards {
    boards: Vec<PossibleBoard>,
    priors_cache: PriorCache,
}

impl PossibleBoards {
    /// The configuration table the engine holds.
    pub closed spec fn boards_view(&self) -> Seq<PossibleBoard> {
        self.boards@
    }

    /// The prior cache the engine holds.
    pub closed spec fn cache_state(&self) -> PriorCache {
        self.priors_cache
    }

    /// Engine soundness: the table is exactly the enumeration, every
    /// configuration is well formed, and the cache is sound.
    pub open spec fn wf(&self) -> bool {
        &&& self.boards_view() == all_boards()
        &&& self.boards_view().len() == 604584
        &&& forall|i: int|
            0 <= i < self.boards_view().len() ==> board_wf(#[trigger] self.boards_view()[i])
        &&& cache_wf(self.cache_state())
    }

    /// Every cached prior agrees with table `t`.
    pub open spec fn ok_for(&self, t: Seq<u32>) -> bool {
        cache_ok_for(self.cache_state(), t)
    }

    /// Builds the engine: enumerates the full configuration table and
    /// starts with an empty cache.  Fails if the enumeration does not
    /// produce exactly 604,584 configurations.
    pub fn new() -> (r: Option<PossibleBoards>)
        ensures
            r is Some <==> all_boards().len() == 604584,
            r is Some ==> r->Some_0.wf(),
            r is Some ==> cache_view(r->Some_0.cache_state()).len() == 0,
            r is Some ==> forall|t: Seq<u32>| r->Some_0.ok_for(t),
    {
        let boards = build_boards();
        if boards.len() != 604584 {
            return None;
        }
        Some(PossibleBoards { boards, priors_cache: PriorCache::empty() })
    }

    /// How many configurations the engine holds.
    pub fn num_boards(&self) -> (n: usize)
        requires
            self.wf(),
        ensures
            n == 604584,
    {
        self.boards.len()
    }

    /// The configuration at index `i` of the enumeration order.
    pub fn board(&self, i: usize) -> (b: PossibleBoard)
        requires
            self.wf(),
            i < 604584,
        ensures
            b == all_boards()[i as int],
    {
        self.boards[i]
    }

    /// Whether the cache currently holds an entry for this history.
    pub fn is_cached(&self, history: &History) -> (r: bool)
        ensures
            r == exists|j: int|
                0 <= j < cache_view(self.cache_state()).len() && (#[trigger] cache_view(
                    self.cache_state(),
                )[j].0) == hist_view(*history),
    {
        proof {
            assert(self.cache_state() == self.priors_cache);
        }
        self.priors_cache.contains_history(history)
    }

    /// Folds the evidence-compatible mass into the 64 per-cell masses and
    /// the surviving total, using the supplied priors if any, falling back
    /// to the generation weights when the priors leave nothing, and
    /// reporting an absent result when even those leave nothing.  A caller
    /// renormalizes by dividing each cell mass by the total.
    pub fn do_computation(&self, state: &GameState, board_priors: Option<&Vec<u64>>) -> (r:
        Option<(Vec<u128>, u128)>)
        requires
            self.wf(),
            state_wf(*state),
            board_priors is Some ==> board_priors->Some_0@.len() == 604584,
        ensures
            r is Some <==> posterior(
                all_boards(),
                prior_view(board_priors),
                mask_of(state.hits@),
                mask_of(state.misses@),
                state.squids_gotten,
            ) is Some,
            r is Some ==> r->Some_0.0@ == posterior(
                all_boards(),
                prior_view(board_priors),
                mask_of(state.hits@),
                mask_of(state.misses@),
                state.squids_gotten,
            )->Some_0.0 && r->Some_0.1 == posterior(
                all_boards(),
                prior_view(board_priors),
                mask_of(state.hits@),
                mask_of(state.misses@),
                state.squids_gotten,
            )->Some_0.1,
    {
        let hit_mask = make_mask(&state.hits);
        let miss_mask = make_mask(&state.misses);
        let ghost pv = prior_view(board_priors);
        proof {
            assert(self.boards@ == all_boards());
        }
        let (cells, total) = accumulate(
            &self.boards,
            board_priors,
            hit_mask,
            miss_mask,
            state.squids_gotten,
        );
        let ghost t0 = crate::aggregate::total_upto(
            all_boards(),
            pv,
            hit_mask,
            miss_mask,
            state.squids_gotten,
            all_boards().len() as int,
        );
        if total != 0 {
            proof {
                assert(cells@ =~= crate::aggregate::cell_vector(
                    all_boards(),
                    pv,
                    hit_mask,
                    miss_mask,
                    state.squids_gotten,
                ));
                crate::aggregate::lemma_total_bound(
                    all_boards(),
                    pv,
                    hit_mask,
                    miss_mask,
                    state.squids_gotten,
                    all_boards().len() as int,
                );
                assert(t0 != 0);
                assert(posterior(all_boards(), pv, hit_mask, miss_mask, state.squids_gotten)
                    is Some);
            }
            return Some((cells, total));
        }
        proof {
            assert(t0 == 0);
            if pv is Some {
                assert(posterior(all_boards(), pv, hit_mask, miss_mask, state.squids_gotten)
                    == posterior(
                    all_boards(),
                    Option::None,
                    hit_mask,
                    miss_mask,
                    state.squids_gotten,
                ));
            }
        }
        match board_priors {
            Option::Some(_) => {
                let (cells2, total2) = accumulate(
                    &self.boards,
                    None,
                    hit_mask,
                    miss_mask,
                    state.squids_gotten,
                );
                if total2 == 0 {
                    None
                } else {
                    proof {
                        assert(cells2@ =~= crate::aggregate::cell_vector(
                            all_boards(),
                            Option::None,
                            hit_mask,
                            miss_mask,
                            state.squids_gotten,
                        ));
                    }
                    Some((cells2, total2))
                }
            },
            Option::None => None,
        }
    }

    /// Returns the prior for this history over this table, from the cache
    /// when present (promoting it), computing and inserting it otherwise
    /// (evicting the least recently used entry at capacity).
    pub fn get_board_priors(&mut self, board_table: &BoardTable, history: &History) -> (r: Vec<
        u64,
    >)
        requires
            old(self).wf(),
            hist_wf(*history),
            board_table.wf(),
        ensures
            final(self).wf(),
            final(self).boards_view() == old(self).boards_view(),
            r@.len() == 604584,
            cache_view(final(self).cache_state()).len() >= 1,
            cache_view(final(self).cache_state())[0].0 == hist_view(*history),
            r@ == final(self).cache_state().entries@[0].priors@,
            forall|j: int|
                0 <= j < cache_view(old(self).cache_state()).len() && (#[trigger] cache_view(
                    old(self).cache_state(),
                )[j].0) == hist_view(*history) ==> cache_view(final(self).cache_state()) == seq![
                    cache_view(old(self).cache_state())[j],
                ] + cache_view(old(self).cache_state()).subrange(0, j) + cache_view(
                    old(self).cache_state(),
                ).subrange(j + 1, cache_view(old(self).cache_state()).len() as int),
            (forall|j: int|
                0 <= j < cache_view(old(self).cache_state()).len() ==> (#[trigger] cache_view(
                    old(self).cache_state(),
                )[j].0) != hist_view(*history)) ==> cache_view(final(self).cache_state()) == seq![
                (hist_view(*history), prior_of(board_table@, hist_view(*history))),
            ] + (if cache_view(old(self).cache_state()).len() == CACHE_CAPACITY {
                cache_view(old(self).cache_state()).subrange(0, CACHE_CAPACITY - 1)
            } else {
                cache_view(old(self).cache_state())
            }),
            (forall|j: int|
                0 <= j < cache_view(old(self).cache_state()).len() ==> (#[trigger] cache_view(
                    old(self).cache_state(),
                )[j].0) != hist_view(*history)) ==> r@ == prior_of(
                board_table@,
                hist_view(*history),
            ),
            old(self).ok_for(board_table@) ==> final(self).ok_for(board_table@) && r@ == prior_of(
                board_table@,
                hist_view(*history),
            ),
    {
        self.priors_cache.lookup_or_insert(board_table, history);
        self.priors_cache.front_clone()
    }

    /// Computes the posterior for the evidence, biased by the history's
    /// drift prior over the supplied table.
    pub fn do_computation_from_game_history(
        &mut self,
        board_table: &BoardTable,
        state: &GameState,
        history: &History,
    ) -> (r: Option<(Vec<u128>, u128)>)
        requires
            old(self).wf(),
            state_wf(*state),
            hist_wf(*history),
            board_table.wf(),
        ensures
            final(self).wf(),
            final(self).boards_view() == old(self).boards_view(),
            cache_view(final(self).cache_state()).len() >= 1,
            cache_view(final(self).cache_state())[0].0 == hist_view(*history),
            ({
                let p = posterior(
                    all_boards(),
                    Option::Some(final(self).cache_state().entries@[0].priors@),
                    mask_of(state.hits@),
                    mask_of(state.misses@),
                    state.squids_gotten,
                );
                &&& (r is Some <==> p is Some)
                &&& (r is Some ==> r->Some_0.0@ == p->Some_0.0 && r->Some_0.1 == p->Some_0.1)
            }),
            old(self).ok_for(board_table@) ==> {
                let p = posterior(
                    all_boards(),
                    Option::Some(prior_of(board_table@, hist_view(*history))),
                    mask_of(state.hits@),
                    mask_of(state.misses@),
                    state.squids_gotten,
                );
                &&& final(self).ok_for(board_table@)
                &&& (r is Some <==> p is Some)
                &&& (r is Some ==> r->Some_0.0@ == p->Some_0.0 && r->Some_0.1 == p->Some_0.1)
            },
    {
        let board_priors = self.get_board_priors(board_table, history);
        self.do_computation(state, Some(&board_priors))
    }

    /// Identifies the single configuration consistent with a fully
    /// revealed endgame, if the structural matches and the history's prior
    /// single one out.
    #[verifier::loop_isolation(false)]
    pub fn disambiguate_final_board(
        &mut self,
        board_table: &BoardTable,
        hits: &Vec<u8>,
        history: &History,
    ) -> (r: Option<u32>)
        requires
            old(self).wf(),
            cells_in_range(hits@),
            hist_wf(*history),
            board_table.wf(),
        ensures
            final(self).wf(),
            final(self).boards_view() == old(self).boards_view(),
            match_indices_spec(all_boards(), mask_of(hits@)).len() <= 1 ==> *final(self) == *old(
                self,
            ) && r == disambiguate_spec(all_boards(), Seq::empty(), mask_of(hits@)),
            match_indices_spec(all_boards(), mask_of(hits@)).len() >= 2 ==> cache_view(
                final(self).cache_state(),
            ).len() >= 1 && cache_view(final(self).cache_state())[0].0 == hist_view(*history) && r
                == disambiguate_spec(
                all_boards(),
                final(self).cache_state().entries@[0].priors@,
                mask_of(hits@),
            ),
            old(self).ok_for(board_table@) ==> final(self).ok_for(board_table@) && r
                == disambiguate_spec(
                all_boards(),
                prior_of(board_table@, hist_view(*history)),
                mask_of(hits@),
            ),
    {
        let ghost ms = match_indices_spec(all_boards(), mask_of(hits@));
        let hit_mask = make_mask(hits);
        let mut match_indices: Vec<usize> = Vec::new();
        let n: usize = self.boards.len();
        let mut i: usize = 0;
        while i < n
            invariant
                i <= n,
                n == self.boards@.len(),
                self.wf(),
                match_indices@.len() == matches_prefix(all_boards(), hit_mask, i as int).len(),
                forall|k: int|
                    0 <= k < match_indices@.len() ==> (#[trigger] match_indices@[k]) as int
                        == matches_prefix(all_boards(), hit_mask, i as int)[k],
                forall|k: int|
                    0 <= k < match_indices@.len() ==> (#[trigger] match_indices@[k]) < n,
            decreases n - i,
        {
            if self.boards[i].check_compatible(hit_mask, 0, 3) {
                match_indices.push(i);
            }
            i = i + 1;
        }
        proof {
            assert(ms == matches_prefix(all_boards(), hit_mask, n as int));
            lemma_matches_range(all_boards(), hit_mask, n as int);
        }
        if match_indices.len() == 0 {
            return None;
        }
        if match_indices.len() == 1 {
            let only = match_indices[0];
            return Some(only as u32);
        }
        self.priors_cache.lookup_or_insert(board_table, history);
        let board_priors = self.priors_cache.front_clone();
        let ghost pv = board_priors@;
        let m: usize = match_indices.len();
        let mut total: u128 = 0;
        let mut k: usize = 0;
        while k < m
            invariant
                k <= m,
                m == match_indices@.len(),
                board_priors@ == pv,
                pv.len() == 604584,
                m == ms.len(),
                forall|kk: int| 0 <= kk < m ==> (#[trigger] match_indices@[kk]) as int == ms[kk],
                forall|kk: int| 0 <= kk < m ==> (#[trigger] match_indices@[kk]) < 604584,
                total == match_total(pv, ms, k as int),
                total <= (k as int) * (u64::MAX as int),
            decreases m - k,
        {
            proof {
                assert((k as int) * (u64::MAX as int) + (u64::MAX as int) == (k + 1) * (
                u64::MAX as int)) by (nonlinear_arith);
                assert((k + 1) * (u64::MAX as int) <= 604584 * (u64::MAX as int))
                    by (nonlinear_arith)
                    requires
                        k + 1 <= 604584,
                ;
            }
            let idx = match_indices[k];
            total = total + (board_priors[idx] as u128);
            k = k + 1;
        }
        proof {
            assert(total <= 604584 * (u64::MAX as int));
        }
        if total == 0 {
            return None;
        }
        let mut k2: usize = 0;
        while k2 < m
            invariant
                k2 <= m,
                m == match_indices@.len(),
                board_priors@ == pv,
                pv.len() == 604584,
                m == ms.len(),
                forall|kk: int| 0 <= kk < m ==> (#[trigger] match_indices@[kk]) as int == ms[kk],
                forall|kk: int| 0 <= kk < m ==> (#[trigger] match_indices@[kk]) < 604584,
                total == match_total(pv, ms, m as int),
                total <= 604584 * (u64::MAX as int),
                total > 0,
                first_confident(pv, ms, total as int, 0) == first_confident(
                    pv,
                    ms,
                    total as int,
                    k2 as int,
                ),
            decreases m - k2,
        {
            let idx = match_indices[k2];
            if (board_priors[idx] as u128) * 10 > total * 9 {
                return Some(idx as u32);
            }
            k2 = k2 + 1;
        }
        None
    }
}

} // verus!
