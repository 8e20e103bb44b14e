use sudoku::codec::{decode_snapshot, encode_snapshot, DecodeError, Snapshot};
use sudoku::{Cell, Difficulty, GameState, Sudoku, MAX_CHECKS, MAX_HINTS};

fn solution() -> [u8; 81] {
    let mut g = [0u8; 81];
    for r in 0..9 {
        for c in 0..9 {
            g[r * 9 + c] = ((3 * (r % 3) + r / 3 + c) % 9 + 1) as u8;
        }
    }
    g
}

/// A session whose open cells are the given indices, loaded at time `now`.
fn session_with_open(open: &[usize], now: u64) -> Sudoku {
    let sol = solution();
    let mut grid = [Cell::new(0); 81];
    for i in 0..81 {
        grid[i] = if open.contains(&i) { Cell::new(0) } else { Cell::new(sol[i]) };
    }
    let snap = Snapshot {
        grid,
        solution: sol,
        difficulty: Difficulty::Medium,
        elapsed_secs: 0,
        checks: 0,
        hints: 0,
    };
    Sudoku::load_at(&encode_snapshot(&snap), now).unwrap()
}

#[test]
fn generate_session_is_fresh() {
    let s = Sudoku::generate(Difficulty::Hard);
    assert!(s.is_running());
    assert!(!s.is_paused());
    assert_eq!(s.checks(), 0);
    assert_eq!(s.hints(), 0);
    assert!(matches!(s.difficulty(), Difficulty::Hard));
    let empty = s.grid().iter().filter(|c| c.value == 0).count();
    assert!(empty < 60);
    for c in s.grid().iter() {
        assert_eq!(c.locked, c.value != 0);
        assert!(c.mark.is_none());
    }
}

#[test]
fn hole_counts_stay_below_level_bounds() {
    for (d, hi) in [
        (Difficulty::Easy, 50usize),
        (Difficulty::Medium, 55),
        (Difficulty::Expert, 65),
    ] {
        let s = Sudoku::generate(d);
        let empty = s.grid().iter().filter(|c| c.value == 0).count();
        assert!(empty < hi);
    }
}

#[test]
fn num_holes_in_level_ranges() {
    for _ in 0..50 {
        let n = Difficulty::Easy.num_holes();
        assert!((45..50).contains(&n));
        let n = Difficulty::Medium.num_holes();
        assert!((50..55).contains(&n));
        let n = Difficulty::Hard.num_holes();
        assert!((55..60).contains(&n));
        let n = Difficulty::Expert.num_holes();
        assert!((60..65).contains(&n));
    }
}

#[test]
fn num_holes_draws_vary() {
    let first = Difficulty::Hard.num_holes();
    let differs = (0..200).any(|_| Difficulty::Hard.num_holes() != first);
    assert!(differs);
}

#[test]
fn difficulty_names() {
    assert_eq!(Difficulty::Easy.as_str(), "Easy");
    assert_eq!(Difficulty::Medium.as_str(), "Medium");
    assert_eq!(Difficulty::Hard.as_str(), "Hard");
    assert_eq!(Difficulty::Expert.as_str(), "Expert");
}

#[test]
fn cell_marks() {
    let mut c = Cell::new(0);
    assert!(c.writable() && !c.checked() && !c.correct());
    c.check(false);
    assert!(c.checked() && !c.correct());
    c.check(true);
    assert!(c.checked() && c.correct());
    c.uncheck();
    assert!(!c.checked() && !c.correct());
    assert!(!Cell::new(4).writable());
}

#[test]
fn save_load_round_trip() {
    let mut s = session_with_open(&[0, 10, 20, 80], 1_000);
    s.update_cell_at(0, 0, 7, 2_000);
    s.check();
    s.hint_in_order(&vec![80]);
    s.pause_at(4_700);
    let bytes = s.save_at(9_999);
    assert_eq!(bytes.len(), 257);
    let t = Sudoku::load_at(&bytes, 50_000).unwrap();
    for y in 0..9 {
        for x in 0..9 {
            let (a, b) = (s.at(x, y), t.at(x, y));
            assert_eq!(a.value, b.value);
            assert_eq!(a.locked, b.locked);
            assert_eq!(a.mark, b.mark);
        }
    }
    assert_eq!(t.checks(), 1);
    assert_eq!(t.hints(), 1);
    assert!(matches!(t.difficulty(), Difficulty::Medium));
    assert!(t.is_running());
    // 3.7 s played, kept as 3 whole seconds.
    assert_eq!(t.elapsed_at(50_000), 3_000);
    assert_eq!(t.elapsed_at(51_500), 4_500);
    assert_eq!(t.save_at(50_000), s.save_at(0));
}

#[test]
fn load_rejects_malformed_bytes() {
    let good = session_with_open(&[3], 0).save_at(0);
    assert!(matches!(Sudoku::load_at(&good[..256], 0), Err(DecodeError::Length)));
    let mut bad = good.clone();
    bad[0] = 10;
    assert!(matches!(Sudoku::load_at(&bad, 0), Err(DecodeError::Digit)));
    let mut bad = good.clone();
    bad[1] = 2;
    assert!(matches!(Sudoku::load_at(&bad, 0), Err(DecodeError::Digit)));
    let mut bad = good.clone();
    bad[200] = 12;
    assert!(matches!(Sudoku::load_at(&bad, 0), Err(DecodeError::Digit)));
    let mut bad = good.clone();
    bad[243] = 4;
    assert!(matches!(Sudoku::load_at(&bad, 0), Err(DecodeError::Difficulty)));
    let mut bad = good.clone();
    bad[245] = 1;
    assert!(matches!(Sudoku::load_at(&bad, 0), Err(DecodeError::Difficulty)));
    assert!(decode_snapshot(&good).is_ok());
}

#[test]
fn snapshot_layout() {
    let sol = solution();
    let mut grid = [Cell::new(0); 81];
    grid[0] = Cell { value: 3, locked: false, mark: Some(true) };
    grid[1] = Cell { value: 2, locked: false, mark: Some(false) };
    grid[2] = Cell::new(9);
    let snap = Snapshot {
        grid,
        solution: sol,
        difficulty: Difficulty::Expert,
        elapsed_secs: 0x0102_0304_0506_0708,
        checks: 2,
        hints: 1,
    };
    let b = encode_snapshot(&snap);
    assert_eq!(&b[0..6], &[3, 7, 2, 5, 9, 0]);
    assert_eq!(b[6], 0);
    assert_eq!(b[7], 4);
    assert_eq!(b[162], sol[0]);
    assert_eq!(&b[243..247], &[3, 0, 0, 0]);
    assert_eq!(&b[247..255], &[8, 7, 6, 5, 4, 3, 2, 1]);
    assert_eq!(&b[255..257], &[2, 1]);
    let back = decode_snapshot(&b).unwrap();
    assert_eq!(back.elapsed_secs, 0x0102_0304_0506_0708);
    assert_eq!(back.grid[1].mark, Some(false));
    assert_eq!(back.grid[0].mark, Some(true));
    assert!(back.grid[2].locked);
}

#[test]
fn undo_on_empty_history_is_noop() {
    let mut s = session_with_open(&[5], 0);
    let before = s.save_at(0);
    assert_eq!(s.undo_last_move(), None);
    assert_eq!(s.save_at(0), before);
}

#[test]
fn undo_restores_previous_value() {
    let mut s = session_with_open(&[5, 6], 0);
    s.update_cell_at(5, 0, 3, 0);
    s.update_cell_at(5, 0, 4, 0);
    assert_eq!(s.at(5, 0).value, 4);
    assert_eq!(s.undo_last_move(), Some((5, 0)));
    assert_eq!(s.at(5, 0).value, 3);
    assert_eq!(s.undo_last_move(), Some((5, 0)));
    assert_eq!(s.at(5, 0).value, 0);
    assert_eq!(s.undo_last_move(), None);
}

#[test]
fn locked_cells_refuse_edits() {
    let mut s = session_with_open(&[5], 0);
    let v = s.at(0, 0).value;
    s.update_cell_at(0, 0, 0, 0);
    assert_eq!(s.at(0, 0).value, v);
    assert_eq!(s.undo_last_move(), None);
}

#[test]
fn win_detected_on_completing_move_only() {
    let sol = solution();
    let open = [4usize, 40, 76];
    let mut s = session_with_open(&open, 1_000);
    s.update_cell_at(4, 0, sol[4], 2_000);
    assert!(matches!(s.state(), GameState::Running));
    // A wrong digit does not win.
    s.update_cell_at(4, 4, if sol[40] == 1 { 2 } else { 1 }, 3_000);
    assert!(matches!(s.state(), GameState::Running));
    s.update_cell_at(4, 4, sol[40], 4_000);
    assert!(matches!(s.state(), GameState::Running));
    s.update_cell_at(4, 8, sol[76], 6_500);
    assert!(matches!(s.state(), GameState::Won));
    assert_eq!(s.elapsed_at(100_000), 5_500);
    // No edit after the win.
    s.update_cell_at(4, 8, 0, 7_000);
    assert_eq!(s.at(4, 8).value, sol[76]);
    assert!(matches!(s.state(), GameState::Won));
}

#[test]
fn check_budget_is_enforced() {
    let sol = solution();
    let mut s = session_with_open(&[0, 1, 2, 3, 4], 0);
    // Nothing filled: no check is used.
    s.check();
    assert_eq!(s.checks(), 0);
    for (k, x) in [0usize, 1, 2].iter().enumerate() {
        s.update_cell_at(*x, 0, sol[*x], 0);
        s.check();
        assert_eq!(s.checks() as usize, k + 1);
        assert!(s.at(*x, 0).correct());
    }
    assert_eq!(s.checks(), MAX_CHECKS);
    let wrong = if sol[3] == 1 { 2 } else { 1 };
    s.update_cell_at(3, 0, wrong, 0);
    s.check();
    assert_eq!(s.checks(), MAX_CHECKS);
    assert!(!s.at(3, 0).checked());
}

#[test]
fn check_marks_wrong_digits() {
    let sol = solution();
    let mut s = session_with_open(&[0, 1], 0);
    let wrong = if sol[0] == 1 { 2 } else { 1 };
    s.update_cell_at(0, 0, wrong, 0);
    s.update_cell_at(1, 0, sol[1], 0);
    s.check();
    assert!(s.at(0, 0).checked() && !s.at(0, 0).correct());
    assert!(s.at(1, 0).correct());
    // Already verified cells are not verified again: no check is used.
    s.check();
    assert_eq!(s.checks(), 1);
}

#[test]
fn hint_budget_is_enforced() {
    let sol = solution();
    let mut s = session_with_open(&[0, 1, 2, 3, 4, 5], 0);
    for k in 1..=3u8 {
        s.hint();
        assert_eq!(s.hints(), k);
    }
    assert_eq!(s.hints(), MAX_HINTS);
    let filled = (0..6).filter(|&x| s.at(x, 0).value != 0).count();
    assert_eq!(filled, 3);
    s.hint();
    assert_eq!(s.hints(), MAX_HINTS);
    let filled = (0..6).filter(|&x| s.at(x, 0).value != 0).count();
    assert_eq!(filled, 3);
    for x in 0..6 {
        let c = s.at(x, 0);
        if c.value != 0 {
            assert_eq!(c.value, sol[x]);
            assert!(c.correct());
        }
    }
}

#[test]
fn hint_in_order_takes_first_open_empty_cell() {
    let sol = solution();
    let mut s = session_with_open(&[7, 8], 0);
    s.hint_in_order(&vec![0, 200, 8, 7]);
    assert_eq!(s.at(8, 0).value, sol[8]);
    assert_eq!(s.at(7, 0).value, 0);
    assert_eq!(s.hints(), 1);
}

#[test]
fn hint_without_open_cell_uses_nothing() {
    let mut s = session_with_open(&[], 0);
    s.hint();
    assert_eq!(s.hints(), 0);
}

#[test]
fn complete_reveals_and_marks() {
    let sol = solution();
    let mut s = session_with_open(&[0, 1, 2], 0);
    let wrong = if sol[0] == 1 { 2 } else { 1 };
    s.update_cell_at(0, 0, wrong, 0);
    s.update_cell_at(1, 0, sol[1], 0);
    s.complete_at(2_000);
    assert!(matches!(s.state(), GameState::Solved));
    for x in 0..3 {
        assert_eq!(s.at(x, 0).value, sol[x]);
    }
    assert!(!s.at(0, 0).correct() && s.at(0, 0).checked());
    assert!(s.at(1, 0).correct());
    assert!(s.at(2, 0).correct());
    assert_eq!(s.elapsed_at(9_000), 2_000);
}

#[test]
fn pause_accumulates_time() {
    let mut s = session_with_open(&[0], 1_000);
    assert_eq!(s.elapsed_at(1_500), 500);
    s.pause_at(3_000);
    assert!(s.is_paused());
    assert_eq!(s.elapsed_at(10_000), 2_000);
    // Edits are refused while paused.
    s.update_cell_at(0, 0, 1, 10_000);
    assert_eq!(s.at(0, 0).value, 0);
    s.pause_at(11_000);
    assert!(s.is_paused());
    s.toggle_pause_at(20_000);
    assert!(s.is_running());
    assert_eq!(s.elapsed_at(21_000), 3_000);
    s.toggle_pause_at(22_000);
    assert_eq!(s.elapsed_at(99_000), 4_000);
}

#[test]
fn clear_board_empties_open_cells() {
    let mut s = session_with_open(&[0, 1], 0);
    let clue = s.at(2, 0).value;
    s.update_cell_at(0, 0, 5, 0);
    s.update_cell_at(1, 0, 6, 0);
    s.clear_board();
    assert_eq!(s.at(0, 0).value, 0);
    assert_eq!(s.at(1, 0).value, 0);
    assert_eq!(s.at(2, 0).value, clue);
    assert!(s.writable(0, 0) && !s.writable(2, 0));
}

#[test]
fn wall_clock_entry_points() {
    let mut s = Sudoku::generate(Difficulty::Easy);
    let _ = s.elapsed();
    s.pause();
    assert!(s.is_paused());
    s.toggle_pause();
    assert!(s.is_running());
    let bytes = s.save();
    let t = Sudoku::load(&bytes).unwrap();
    assert_eq!(t.save_at(0)[..247], bytes[..247]);
    s.complete();
    assert!(matches!(s.state(), GameState::Solved));
}
