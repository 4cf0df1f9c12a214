use sploosh::{BoardTable, DriftKernel, GameState, History, PossibleBoards, BOARD_COUNT};

const Q: u64 = 1u64 << 40;

fn engine() -> PossibleBoards {
    PossibleBoards::new().expect("enumeration must produce the full table")
}

/// A kernel of `2 * limit` equal weights of likelihood one.
fn flat_kernel(limit: usize) -> DriftKernel {
    DriftKernel { weights: vec![Q; 2 * limit] }
}

/// A history of the given observations with flat drift kernels.
fn flat_history(observed: Vec<u32>, means: Vec<u32>, limit: usize) -> History {
    let steps = observed.len() + 1;
    assert_eq!(means.len(), steps);
    let kernels = (0..steps).map(|_| flat_kernel(limit)).collect();
    History { observed_boards: observed, means, kernels }
}

#[test]
fn board_table_rejects_bad_entries() {
    assert!(BoardTable::new(vec![0, 1, 604583]).is_some());
    assert!(BoardTable::new(vec![0, 604584]).is_none());
}

#[test]
fn prior_scan_matches_hand_computation() {
    let mut eng = engine();
    let table = BoardTable::new(vec![5, 7, 9, 7, 11]).unwrap();
    let history = flat_history(vec![7], vec![2, 2], 2);
    let priors = eng.get_board_priors(&table, &history);
    assert_eq!(priors.len(), BOARD_COUNT);
    // Depth 0 lands on positions 1 and 3 (both read 7); the terminal step
    // then smears likelihood one over each forward window.
    assert_eq!(priors[5], 0);
    assert_eq!(priors[7], Q);
    assert_eq!(priors[9], Q);
    assert_eq!(priors[11], 2 * Q);
    for (i, &p) in priors.iter().enumerate() {
        if ![5usize, 7, 9, 11].contains(&i) {
            assert_eq!(p, 0, "unexpected mass at {i}");
        }
    }
}

#[test]
fn empty_window_leaves_prior_zero() {
    let mut eng = engine();
    let table = BoardTable::new(vec![0, 1, 2]).unwrap();
    // The expected advance overshoots the table: no landing position.
    let history = flat_history(vec![], vec![7], 1);
    let priors = eng.get_board_priors(&table, &history);
    assert!(priors.iter().all(|&p| p == 0));
}

#[test]
fn stale_prior_falls_back_to_baseline() {
    let mut eng = engine();
    let table = BoardTable::new(vec![1, 2, 3]).unwrap();
    // The observed position never occurs in the table, so the history
    // leaves zero mass everywhere and the baseline weights take over.
    let history = flat_history(vec![50], vec![1, 1], 1);
    let state = GameState {
        hits: vec![0],
        misses: vec![1, 2, 3, 4, 5, 6, 7],
        squids_gotten: -1,
    };
    let with_history = eng.do_computation_from_game_history(&table, &state, &history);
    let baseline = eng.do_computation(&state, None);
    assert!(baseline.is_some());
    assert_eq!(with_history, baseline);
}

#[test]
fn history_biases_posterior() {
    let mut eng = engine();
    // The history pins the walk at the table position reading 2, so that
    // only configuration 3 can be the next one.
    let table = BoardTable::new(vec![9, 2, 3]).unwrap();
    let history = flat_history(vec![2], vec![1, 1], 1);
    let state = GameState { hits: vec![], misses: vec![], squids_gotten: -1 };
    let (cells, total) = eng
        .do_computation_from_game_history(&table, &state, &history)
        .unwrap();
    // Only configuration 3 carries prior mass, so the posterior is that
    // configuration alone: its nine occupied cells at full mass.
    let b = eng.board(3);
    for c in 0..64u8 {
        if b.squids & (1u64 << c) != 0 {
            assert_eq!(cells[c as usize], total);
        } else {
            assert_eq!(cells[c as usize], 0);
        }
    }
}

#[test]
fn idempotent_with_history() {
    let mut eng = engine();
    let table = BoardTable::new(vec![5, 7, 9, 7, 11]).unwrap();
    let history = flat_history(vec![7], vec![2, 2], 2);
    let state = GameState { hits: vec![12], misses: vec![13], squids_gotten: -1 };
    let r1 = eng.do_computation_from_game_history(&table, &state, &history);
    let r2 = eng.do_computation_from_game_history(&table, &state, &history);
    assert_eq!(r1, r2);
}

#[test]
fn lru_eviction_boundary() {
    let mut eng = engine();
    let table = BoardTable::new(vec![0, 1, 2]).unwrap();
    let hist = |i: u32| flat_history(vec![], vec![i], 1);
    for i in 1..=16u32 {
        eng.get_board_priors(&table, &hist(i));
    }
    for i in 1..=16u32 {
        assert!(eng.is_cached(&hist(i)));
    }
    // Touch the oldest entry: a hit, promoted to the front.
    eng.get_board_priors(&table, &hist(1));
    // A seventeenth distinct history evicts the least recently used,
    // which is now history 2, not the promoted history 1.
    eng.get_board_priors(&table, &hist(17));
    assert!(eng.is_cached(&hist(1)));
    assert!(!eng.is_cached(&hist(2)));
    assert!(eng.is_cached(&hist(17)));
    // Asking for the evicted history again recomputes and re-inserts it,
    // evicting the next least recently used entry.
    let recomputed = eng.get_board_priors(&table, &hist(2));
    assert_eq!(recomputed.len(), BOARD_COUNT);
    assert!(eng.is_cached(&hist(2)));
    assert!(!eng.is_cached(&hist(3)));
}

#[test]
fn unique_disambiguation() {
    let mut eng = engine();
    // Three isolated runs: the nine hit cells allow exactly one partition
    // into runs of lengths 2, 3 and 4.
    let hits: Vec<u8> = vec![0, 1, 16, 17, 18, 32, 33, 34, 35];
    let hit_mask: u64 = hits.iter().fold(0u64, |m, &c| m | (1u64 << c));
    let mut expected = None;
    let mut structural_matches = 0usize;
    for i in 0..BOARD_COUNT {
        if eng.board(i).check_compatible(hit_mask, 0, 3) {
            structural_matches += 1;
            expected = Some(i as u32);
        }
    }
    assert_eq!(structural_matches, 1);
    // The result does not depend on the supplied table or history.
    let table = BoardTable::new(vec![]).unwrap();
    let history = flat_history(vec![], vec![0], 0);
    let got = eng.disambiguate_final_board(&table, &hits, &history);
    assert_eq!(got, expected);
    let other_table = BoardTable::new(vec![0, 1, 2, 3]).unwrap();
    let other_history = flat_history(vec![1], vec![1, 1], 2);
    let got2 = eng.disambiguate_final_board(&other_table, &hits, &other_history);
    assert_eq!(got2, expected);
}

#[test]
fn ambiguous_disambiguation_without_prior_mass() {
    let mut eng = engine();
    // The first five cells split into 2+3 two ways, so two configurations
    // match structurally; with no prior mass, no match can be asserted.
    let hits: Vec<u8> = vec![0, 1, 2, 3, 4, 16, 17, 18, 19];
    let hit_mask: u64 = hits.iter().fold(0u64, |m, &c| m | (1u64 << c));
    let mut structural_matches = 0usize;
    for i in 0..BOARD_COUNT {
        if eng.board(i).check_compatible(hit_mask, 0, 3) {
            structural_matches += 1;
        }
    }
    assert!(structural_matches > 1);
    let table = BoardTable::new(vec![]).unwrap();
    let history = flat_history(vec![], vec![0], 0);
    assert_eq!(eng.disambiguate_final_board(&table, &hits, &history), None);
}

#[test]
fn confident_disambiguation_follows_prior() {
    let mut eng = engine();
    // Two structural matches; the history then puts all prior mass on the
    // second one, which clears the ninety percent bar.
    let hits: Vec<u8> = vec![0, 1, 2, 3, 4, 16, 17, 18, 19];
    let hit_mask: u64 = hits.iter().fold(0u64, |m, &c| m | (1u64 << c));
    let mut matches = Vec::new();
    for i in 0..BOARD_COUNT {
        if eng.board(i).check_compatible(hit_mask, 0, 3) {
            matches.push(i as u32);
        }
    }
    assert!(matches.len() > 1);
    let favoured = matches[matches.len() - 1];
    // The terminal scan window covers exactly table position 1.
    let table = BoardTable::new(vec![0, favoured]).unwrap();
    let history = flat_history(vec![], vec![1], 1);
    let got = eng.disambiguate_final_board(&table, &hits, &history);
    assert_eq!(got, Some(favoured));
}

#[test]
fn disambiguation_with_no_match() {
    let mut eng = engine();
    // Two hit cells cannot contain all nine object cells.
    let hits: Vec<u8> = vec![0, 2];
    let table = BoardTable::new(vec![]).unwrap();
    let history = flat_history(vec![], vec![0], 0);
    assert_eq!(eng.disambiguate_final_board(&table, &hits, &history), None);
}
