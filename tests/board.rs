use sudoku::Board;

fn assert_solved(b: &Board) {
    for k in 0..9 {
        let mut row = [false; 10];
        let mut col = [false; 10];
        let mut bx = [false; 10];
        for j in 0..9 {
            let r = b.value(k, j) as usize;
            let c = b.value(j, k) as usize;
            let x = b.value((k / 3) * 3 + j / 3, (k % 3) * 3 + j % 3) as usize;
            assert!((1..=9).contains(&r) && (1..=9).contains(&c) && (1..=9).contains(&x));
            assert!(!row[r] && !col[c] && !bx[x]);
            row[r] = true;
            col[c] = true;
            bx[x] = true;
        }
    }
}

fn holes(b: &Board) -> usize {
    b.to_grid().iter().filter(|&&v| v == 0).count()
}

fn scenario_grid() -> [u8; 81] {
    let rows: [[u8; 9]; 9] = [
        [5, 3, 4, 6, 7, 8, 9, 1, 2],
        [6, 7, 2, 1, 9, 5, 3, 4, 8],
        [1, 9, 8, 3, 4, 2, 5, 6, 7],
        [8, 5, 9, 7, 6, 1, 4, 2, 3],
        [4, 2, 6, 8, 5, 3, 7, 9, 1],
        [7, 1, 3, 9, 2, 4, 8, 5, 6],
        [9, 6, 1, 5, 3, 7, 2, 8, 4],
        [2, 8, 7, 4, 1, 9, 6, 3, 5],
        [3, 4, 5, 2, 8, 6, 1, 7, 9],
    ];
    let mut g = [0u8; 81];
    for r in 0..9 {
        for c in 0..9 {
            g[r * 9 + c] = rows[r][c];
        }
    }
    g
}

#[test]
fn generated_boards_are_solved() {
    for _ in 0..5 {
        let b = Board::generate();
        assert_solved(&b);
        assert_eq!(holes(&b), 0);
    }
}

#[test]
fn full_board_counts_one_solution() {
    let b = Board::generate();
    assert_eq!(b.count_solutions(2), 1);
    assert_eq!(b.count_solutions(0), 1);
}

#[test]
fn empty_board_counts_up_to_limit() {
    let b = Board::from_grid([0u8; 81]);
    assert_eq!(b.count_solutions(2), 2);
    assert_eq!(b.count_solutions(1), 1);
    assert_eq!(b.count_solutions(0), 1);
    assert_eq!(b.count_solutions(5), 5);
}

#[test]
fn two_solution_board_counts_two() {
    // Rows 0 and 3 hold 6, 7 and 7, 6 in columns 3 and 4: emptying the four
    // cells leaves exactly two completions.
    let mut g = scenario_grid();
    for &(r, c) in &[(0usize, 3usize), (0, 4), (3, 3), (3, 4)] {
        g[r * 9 + c] = 0;
    }
    let b = Board::from_grid(g);
    assert_eq!(b.count_solutions(2), 2);
    assert_eq!(b.count_solutions(3), 2);
    assert_eq!(b.count_solutions(1), 1);
}

#[test]
fn one_hole_board_counts_one() {
    let mut g = scenario_grid();
    g[40] = 0;
    assert_eq!(Board::from_grid(g).count_solutions(2), 1);
}

#[test]
fn contradictory_board_counts_none() {
    let mut g = [0u8; 81];
    // Row 0 holds 1 to 8 and column 8 holds a 9 lower down: (0, 8) has no digit.
    for c in 0..8 {
        g[c] = (c + 1) as u8;
    }
    g[4 * 9 + 8] = 9;
    assert_eq!(Board::from_grid(g).count_solutions(2), 0);
}

#[test]
fn puzzle_has_unique_solution_and_bounded_holes() {
    let solution = Board::generate();
    for &n in &[0usize, 30, 59, 200] {
        let p = solution.generate_puzzle(n);
        assert_eq!(p.count_solutions(2), 1);
        assert!(holes(&p) <= n);
        for i in 0..81 {
            let v = p.to_grid()[i];
            assert!(v == 0 || v == solution.to_grid()[i]);
        }
    }
}

#[test]
fn puzzle_with_no_holes_is_the_solution() {
    let solution = Board::generate();
    let p = solution.generate_puzzle(0);
    assert_eq!(p.to_grid(), solution.to_grid());
}

#[test]
fn dug_puzzle_holes_are_many() {
    let solution = Board::generate();
    let p = solution.generate_puzzle(45);
    assert!(holes(&p) > 20);
}

#[test]
fn is_valid_concrete_scenario() {
    let mut g = scenario_grid();
    // Empty the rest of row 0 and of column 0 outside the top-left box.
    for c in 3..9 {
        g[c] = 0;
    }
    g[4 * 9 + 4] = 0;
    let b = Board::from_grid(g);
    // 5 already stands in row 0.
    for c in 3..9 {
        assert!(!b.is_valid(0, c, 5));
    }
    // Row 0 holds 5, 3, 4; box 1 of the band holds 1, 9, 5, 3, 4, 2.
    assert!(b.is_valid(0, 3, 6));
    assert!(!b.is_valid(0, 3, 1));
    assert!(!b.is_valid(0, 3, 9));
    // (4, 4) was 5; column 4 and its box and row hold every other digit.
    assert!(b.is_valid(4, 4, 5));
    for v in 1..=9u8 {
        if v != 5 {
            assert!(!b.is_valid(4, 4, v));
        }
    }
}

#[test]
fn value_reads_row_major() {
    let b = Board::from_grid(scenario_grid());
    assert_eq!(b.value(0, 0), 5);
    assert_eq!(b.value(0, 1), 3);
    assert_eq!(b.value(1, 0), 6);
    assert_eq!(b.value(8, 8), 9);
}

#[test]
fn generated_boards_vary() {
    let first = Board::generate().to_grid();
    let differs = (0..4).any(|_| Board::generate().to_grid() != first);
    assert!(differs);
}

#[test]
fn dug_puzzles_vary() {
    let solution = Board::generate();
    let first = solution.generate_puzzle(40).to_grid();
    let differs = (0..4).any(|_| solution.generate_puzzle(40).to_grid() != first);
    assert!(differs);
}

#[test]
fn dig_in_order_follows_the_order() {
    let solution = Board::from_grid(scenario_grid());
    let p = solution.dig_in_order(&vec![0, 200, 10, 20], 3);
    let g = p.to_grid();
    // Indices 0 and 10 are emptied; 200 is passed over but counts; 20 is not visited.
    assert_eq!(g[0], 0);
    assert_eq!(g[10], 0);
    assert_eq!(g[20], scenario_grid()[20]);
    assert_eq!(holes(&p), 2);
    assert_eq!(p.count_solutions(2), 1);
}

#[test]
fn dig_in_order_puts_back_ambiguous_cells() {
    // Emptying (0, 3), (0, 4) and (3, 3) keeps one solution; emptying (3, 4)
    // as well would allow two, so that cell gets its digit back.
    let solution = Board::from_grid(scenario_grid());
    let p = solution.dig_in_order(&vec![3, 4, 30, 31], 10);
    let g = p.to_grid();
    assert_eq!((g[3], g[4], g[30]), (0, 0, 0));
    assert_eq!(g[31], scenario_grid()[31]);
    assert_eq!(holes(&p), 3);
}

#[test]
fn one_hole_puzzle_always_has_one_hole() {
    let solution = Board::generate();
    assert_eq!(holes(&solution.generate_puzzle(1)), 1);
}
