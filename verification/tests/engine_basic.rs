use sploosh::{GameState, PossibleBoards, BOARD_COUNT};

const Q: u64 = 1u64 << 40;

fn engine() -> PossibleBoards {
    PossibleBoards::new().expect("enumeration must produce the full table")
}

fn bits_of(mask: u64) -> Vec<u8> {
    let mut cells = Vec::new();
    for c in 0..64u8 {
        if mask & (1u64 << c) != 0 {
            cells.push(c);
        }
    }
    cells
}

fn is_contiguous_run(mask: u64, len: usize) -> bool {
    let cells = bits_of(mask);
    if cells.len() != len {
        return false;
    }
    let horizontal = cells.windows(2).all(|w| w[1] == w[0] + 1) && cells[0] / 8 == cells[len - 1]
        / 8;
    let vertical = cells.windows(2).all(|w| w[1] == w[0] + 8);
    horizontal || vertical
}

#[test]
fn test() {
    let state = GameState { hits: vec![], misses: vec![], squids_gotten: -1 };
    engine().do_computation(&state, None).unwrap();
}

#[test]
fn enumeration_count_and_structure() {
    let eng = engine();
    assert_eq!(eng.num_boards(), BOARD_COUNT);
    let mut i = 0usize;
    while i < BOARD_COUNT {
        let b = eng.board(i);
        assert_eq!(b.squids, b.squid2 | b.squid3 | b.squid4);
        assert_eq!(b.squid2 & b.squid3, 0);
        assert_eq!((b.squid2 | b.squid3) & b.squid4, 0);
        assert!(is_contiguous_run(b.squid2, 2));
        assert!(is_contiguous_run(b.squid3, 3));
        assert!(is_contiguous_run(b.squid4, 4));
        assert_eq!(b.squids.count_ones(), 9);
        assert!(b.denom >= 1);
        assert_eq!(b.weight, Q / b.denom);
        i += 3271;
    }
}

#[test]
fn weight_conservation() {
    let eng = engine();
    let mut fixed_sum = 0.0f64;
    let mut exact_sum = 0.0f64;
    for i in 0..BOARD_COUNT {
        let b = eng.board(i);
        fixed_sum += b.weight as f64 / Q as f64;
        exact_sum += 1.0 / b.denom as f64;
    }
    assert!((exact_sum - 1.0).abs() < 1e-9, "exact reciprocal sum was {exact_sum}");
    assert!((fixed_sum - 1.0).abs() < 1e-4, "fixed-point weight sum was {fixed_sum}");
}

#[test]
fn scenario_empty_evidence_center_beats_corner() {
    let eng = engine();
    let state = GameState { hits: vec![], misses: vec![], squids_gotten: -1 };
    let (cells, total) = eng.do_computation(&state, None).unwrap();
    assert!(total > 0);
    // Cell (0,0) is covered by fewer placements than central cell (3,3).
    assert!(cells[0] < cells[27]);
    let sum: u128 = cells.iter().sum();
    assert_eq!(sum, 9 * total);
}

#[test]
fn scenario_single_hit_posterior() {
    let eng = engine();
    let state = GameState {
        hits: vec![0],
        misses: vec![1, 2, 3, 4, 5, 6, 7],
        squids_gotten: -1,
    };
    let (cells, total) = eng.do_computation(&state, None).unwrap();
    assert!(total > 0);
    // Every surviving configuration occupies the hit cell.
    assert_eq!(cells[0], total);
    // No surviving configuration occupies a confirmed miss.
    for c in 1..8 {
        assert_eq!(cells[c], 0);
    }
    let sum: u128 = cells.iter().sum();
    assert_eq!(sum, 9 * total);
    // The renormalized per-cell values are probabilities.
    for c in 0..64 {
        let p = cells[c] as f64 / total as f64;
        assert!((0.0..=1.0).contains(&p));
    }
}

#[test]
fn scenario_contradictory_evidence_is_absent() {
    let eng = engine();
    // Nine isolated hit cells: no contiguous object can cover any pair,
    // and the 55 remaining cells are all confirmed misses.
    let hits = vec![0u8, 2, 4, 6, 9, 11, 13, 15, 17];
    let mut misses = Vec::new();
    for c in 0..64u8 {
        if !hits.contains(&c) {
            misses.push(c);
        }
    }
    let state = GameState { hits, misses, squids_gotten: -1 };
    assert!(eng.do_computation(&state, None).is_none());
}

#[test]
fn squids_gotten_filter() {
    let eng = engine();
    let b = eng.board(0);
    // All cells of the length-2 object revealed, nothing else.
    let hits = bits_of(b.squid2);
    let state_right = GameState { hits: hits.clone(), misses: vec![], squids_gotten: 1 };
    let state_wrong = GameState { hits: hits.clone(), misses: vec![], squids_gotten: 3 };
    let b0 = eng.board(0);
    let hit_mask = hits.iter().fold(0u64, |m, &c| m | (1u64 << c));
    assert!(b0.check_compatible(hit_mask, 0, 1));
    assert!(!b0.check_compatible(hit_mask, 0, 3));
    // The unknown sentinel disables the completion check.
    assert!(b0.check_compatible(hit_mask, 0, -1));
    // Either way the posterior machinery stays consistent.
    let r_right = eng.do_computation(&state_right, None);
    assert!(r_right.is_some());
    let r_wrong = eng.do_computation(&state_wrong, None);
    assert!(r_wrong.is_none());
}

#[test]
fn idempotent_without_history() {
    let eng = engine();
    let state = GameState {
        hits: vec![0],
        misses: vec![1, 2, 3, 4, 5, 6, 7],
        squids_gotten: -1,
    };
    let r1 = eng.do_computation(&state, None);
    let r2 = eng.do_computation(&state, None);
    assert_eq!(r1, r2);
}
