//! The 9×9 grid of digits, its validity rule, the randomized generator of
//! solved grids, the digger of puzzles and the bounded solution counter.
use vstd::prelude::*;
use crate::entropy::shuffle;

verus! {

/// Side length of the grid.
pub const SIZE: usize = 9;

/// Side length of a box.
pub const SUBGRID_SIZE: usize = 3;

/// Number of cells in the grid.
pub const CELLS: usize = 81;

/// The digit at row `r`, column `c` of a row-major grid.
pub open spec fn at(g: Seq<u8>, r: int, c: int) -> u8 {
    g[r * 9 + c]
}

pub open spec fn in_grid(r: int, c: int) -> bool {
    0 <= r < 9 && 0 <= c < 9
}

/// Two cells share a row, a column or a box.
pub open spec fn same_unit(r1: int, c1: int, r2: int, c2: int) -> bool {
    r1 == r2 || c1 == c2 || (r1 / 3 == r2 / 3 && c1 / 3 == c2 / 3)
}

/// Two distinct cells that may not hold the same digit.
pub open spec fn peers(r1: int, c1: int, r2: int, c2: int) -> bool {
    (r1 != r2 || c1 != c2) && same_unit(r1, c1, r2, c2)
}

/// Every cell holds 0 (empty) or a digit 1 to 9.
pub open spec fn digits(g: Seq<u8>) -> bool {
    g.len() == 81 && forall|i: int| 0 <= i < 81 ==> #[trigger] g[i] <= 9
}

/// No filled cell repeats the digit of a peer.
pub open spec fn consistent(g: Seq<u8>) -> bool {
    g.len() == 81 && forall|r1: int, c1: int, r2: int, c2: int|
        in_grid(r1, c1) && in_grid(r2, c2) && #[trigger] peers(r1, c1, r2, c2) && at(g, r1, c1)
            != 0 ==> at(g, r1, c1) != at(g, r2, c2)
}

/// No cell is empty.
pub open spec fn filled(g: Seq<u8>) -> bool {
    g.len() == 81 && forall|i: int| 0 <= i < 81 ==> #[trigger] g[i] != 0
}

/// A solved grid: every row, column and box holds nine distinct digits 1 to 9.
pub open spec fn solved(g: Seq<u8>) -> bool {
    digits(g) && filled(g) && consistent(g)
}

/// `value` may go at (`row`, `col`): no cell of its row, column or box holds it.
pub open spec fn free_at(g: Seq<u8>, row: int, col: int, value: u8) -> bool {
    forall|r: int, c: int|
        in_grid(r, c) && #[trigger] same_unit(row, col, r, c) ==> at(g, r, c) != value
}

/// `s` keeps every filled cell of `g`.
pub open spec fn extends(s: Seq<u8>, g: Seq<u8>) -> bool {
    s.len() == g.len() && forall|i: int| 0 <= i < g.len() && g[i] != 0 ==> #[trigger] s[i] == g[i]
}

/// `s` is a solved grid that keeps every filled cell of `g`.
pub open spec fn is_solution(s: Seq<u8>, g: Seq<u8>) -> bool {
    solved(s) && extends(s, g)
}

/// `g` has exactly one solution, and it is `s`.
pub open spec fn unique_solution(g: Seq<u8>, s: Seq<u8>) -> bool {
    is_solution(s, g) && forall|t: Seq<u8>| #[trigger] is_solution(t, g) ==> t == s
}

/// The cell (`r`, `c`) comes before (`row`, `col`) in row-major order.
pub open spec fn before(r: int, c: int, row: int, col: int) -> bool {
    r < row || (r == row && c < col)
}

/// Every cell before (`row`, `col`) is filled.
pub open spec fn filled_before(g: Seq<u8>, row: int, col: int) -> bool {
    forall|r: int, c: int| in_grid(r, c) && before(r, c, row, col) ==> #[trigger] at(g, r, c) != 0
}

/// No grid occurs twice in `f`.
pub open spec fn distinct(f: Seq<Seq<u8>>) -> bool {
    forall|i: int, j: int| 0 <= i < f.len() && 0 <= j < f.len() && i != j ==> #[trigger] f[i] != #[trigger] f[j]
}

/// `f` lists solutions of `g`, none twice.
pub open spec fn enumerates(f: Seq<Seq<u8>>, g: Seq<u8>) -> bool {
    distinct(f) && forall|k: int| 0 <= k < f.len() ==> is_solution(#[trigger] f[k], g)
}

/// Every solution of `g` is in `f`.
pub open spec fn covers(f: Seq<Seq<u8>>, g: Seq<u8>) -> bool {
    forall|s: Seq<u8>| #[trigger] is_solution(s, g) ==> f.contains(s)
}

/// `g` has some solution.
pub open spec fn solvable(g: Seq<u8>) -> bool {
    exists|s: Seq<u8>| #[trigger] is_solution(s, g)
}

/// `g` has exactly one solution.
pub open spec fn uniquely_solvable(g: Seq<u8>) -> bool {
    exists|s: Seq<u8>| #[trigger] unique_solution(g, s)
}

/// The result of counting the solutions of `g` up to `limit`: `n` distinct
/// solutions were found, all of them when fewer than `limit`.
pub open spec fn counted(g: Seq<u8>, n: nat, limit: nat) -> bool {
    exists|f: Seq<Seq<u8>>| #[trigger] enumerates(f, g) && f.len() == n && (n < limit ==> covers(f, g))
}

/// Placing a free digit in an empty cell keeps the grid consistent.
proof fn lemma_place(g: Seq<u8>, row: int, col: int, value: u8)
    requires
        digits(g),
        consistent(g),
        in_grid(row, col),
        at(g, row, col) == 0,
        1 <= value <= 9,
        free_at(g, row, col, value),
    ensures
        digits(g.update(row * 9 + col, value)),
        consistent(g.update(row * 9 + col, value)),
{
    let h = g.update(row * 9 + col, value);
    assert forall|r1: int, c1: int, r2: int, c2: int|
        in_grid(r1, c1) && in_grid(r2, c2) && #[trigger] peers(r1, c1, r2, c2) && at(h, r1, c1) != 0
        implies at(h, r1, c1) != at(h, r2, c2) by {
        if r1 == row && c1 == col {
            assert(same_unit(row, col, r2, c2));
        } else if r2 == row && c2 == col {
            assert(same_unit(row, col, r1, c1));
        } else {
            assert(peers(r1, c1, r2, c2));
        }
    }
}

/// A solved grid is its own and only solution.
proof fn lemma_full_unique(g: Seq<u8>)
    requires
        solved(g),
    ensures
        unique_solution(g, g),
{
    assert forall|t: Seq<u8>| #[trigger] is_solution(t, g) implies t == g by {
        assert(t =~= g);
    }
}

/// A filled consistent grid is its own and only solution.
proof fn lemma_full(g: Seq<u8>)
    requires
        digits(g),
        consistent(g),
        filled_before(g, 8, 9),
    ensures
        solved(g),
        unique_solution(g, g),
        covers(seq![g], g),
{
    assert forall|i: int| 0 <= i < 81 implies #[trigger] g[i] != 0 by {
        assert(at(g, i / 9, i % 9) != 0);
    }
    assert forall|t: Seq<u8>| #[trigger] is_solution(t, g) implies t == g by {
        assert(t =~= g);
    }
    assert forall|t: Seq<u8>| #[trigger] is_solution(t, g) implies seq![g].contains(t) by {
        assert(seq![g][0] == g);
    }
}

/// Row `k` of a grid.
pub open spec fn row_digits(g: Seq<u8>, k: int) -> Seq<u8> {
    Seq::new(9, |c: int| at(g, k, c))
}

/// Column `k` of a grid.
pub open spec fn col_digits(g: Seq<u8>, k: int) -> Seq<u8> {
    Seq::new(9, |r: int| at(g, r, k))
}

/// Box `k` of a grid, boxes numbered row by row, cells row by row.
pub open spec fn box_digits(g: Seq<u8>, k: int) -> Seq<u8> {
    Seq::new(9, |j: int| at(g, (k / 3) * 3 + j / 3, (k % 3) * 3 + j % 3))
}

/// Nine digits 1 to 9, none twice: an arrangement of 1 to 9.
pub open spec fn permutation_of_digits(s: Seq<u8>) -> bool {
    s.len() == 9 && s.no_duplicates() && forall|i: int| 0 <= i < 9 ==> 1 <= #[trigger] s[i] <= 9
}

/// In a solved grid every row, column and box is an arrangement of 1 to 9.
pub proof fn lemma_solved_units(g: Seq<u8>, k: int)
    requires
        solved(g),
        0 <= k < 9,
    ensures
        permutation_of_digits(row_digits(g, k)),
        permutation_of_digits(col_digits(g, k)),
        permutation_of_digits(box_digits(g, k)),
{
    assert forall|r: int, c: int| in_grid(r, c) implies 1 <= #[trigger] at(g, r, c) <= 9 by {
        assert(g[r * 9 + c] != 0 && g[r * 9 + c] <= 9);
    }
    let row = row_digits(g, k);
    assert forall|i: int, j: int| 0 <= i < 9 && 0 <= j < 9 && i != j implies row[i] != row[j] by {
        assert(peers(k, i, k, j));
    }
    let col = col_digits(g, k);
    assert forall|i: int, j: int| 0 <= i < 9 && 0 <= j < 9 && i != j implies col[i] != col[j] by {
        assert(peers(i, k, j, k));
    }
    let bx = box_digits(g, k);
    let br = (k / 3) * 3;
    let bc = (k % 3) * 3;
    assert forall|i: int, j: int| 0 <= i < 9 && 0 <= j < 9 && i != j implies bx[i] != bx[j] by {
        assert(peers(br + i / 3, bc + i % 3, br + j / 3, bc + j % 3));
    }
    assert forall|i: int| 0 <= i < 9 implies 1 <= #[trigger] bx[i] <= 9 by {
        assert(in_grid(br + i / 3, bc + i % 3));
    }
}

/// On a puzzle with exactly one solution, a count with limit 2 finds exactly 1.
pub proof fn lemma_unique_counts_one(p: Seq<u8>, s: Seq<u8>, n: nat)
    requires
        unique_solution(p, s),
        counted(p, n, 2),
        n <= 2,
    ensures
        n == 1,
{
    let f = choose|f: Seq<Seq<u8>>| #[trigger] enumerates(f, p) && f.len() == n && (n < 2 ==> covers(f, p));
    if n == 0 {
        assert(is_solution(s, p));
        assert(f.contains(s));
    } else if n == 2 {
        assert(is_solution(f[0], p) && is_solution(f[1], p));
        assert(f[0] != f[1]);
    }
}

/// Filled cells lie only in the first `n` boxes of the main diagonal.
pub open spec fn seeded(g: Seq<u8>, n: int) -> bool {
    digits(g) && consistent(g) && forall|r: int, c: int|
        in_grid(r, c) && #[trigger] at(g, r, c) != 0 ==> r / 3 == c / 3 && r / 3 < n
}

/// The 3×3 block whose top-left cell is (`row`, `col`), cells row by row.
pub open spec fn block_digits(g: Seq<u8>, row: int, col: int) -> Seq<u8> {
    Seq::new(9, |j: int| at(g, row + j / 3, col + j % 3))
}

/// The cell (`r`, `c`) lies in the 3×3 block whose top-left cell is (`row`, `col`).
pub open spec fn in_block(r: int, c: int, row: int, col: int) -> bool {
    row <= r < row + 3 && col <= c < col + 3
}

/// Filling the next diagonal box of a seeded grid with an arrangement of the
/// digits keeps it seeded.
proof fn lemma_seed_box(g: Seq<u8>, h: Seq<u8>, row: int)
    requires
        row == 0 || row == 3 || row == 6,
        seeded(g, row / 3),
        h.len() == 81,
        permutation_of_digits(block_digits(h, row, row)),
        forall|r: int, c: int| in_grid(r, c) && !in_block(r, c, row, row) ==> #[trigger] at(h, r, c) == at(g, r, c),
    ensures
        seeded(h, row / 3 + 1),
{
    let blk = block_digits(h, row, row);
    assert forall|r: int, c: int| in_grid(r, c) && in_block(r, c, row, row) implies
        #[trigger] at(h, r, c) == blk[(r - row) * 3 + (c - row)] && at(g, r, c) == 0 by {
        let j = (r - row) * 3 + (c - row);
        assert(j / 3 == r - row && j % 3 == c - row);
        if at(g, r, c) != 0 {
            assert(r / 3 < row / 3);
        }
    }
    assert forall|i: int| 0 <= i < 81 implies #[trigger] h[i] <= 9 by {
        assert(at(h, i / 9, i % 9) == h[i]);
        assert(at(g, i / 9, i % 9) == g[i]);
    }
    assert forall|r1: int, c1: int, r2: int, c2: int|
        in_grid(r1, c1) && in_grid(r2, c2) && #[trigger] peers(r1, c1, r2, c2) && at(h, r1, c1) != 0
        implies at(h, r1, c1) != at(h, r2, c2) by {
        let in1 = in_block(r1, c1, row, row);
        let in2 = in_block(r2, c2, row, row);
        if in1 && in2 {
            let a = (r1 - row) * 3 + (c1 - row);
            let b = (r2 - row) * 3 + (c2 - row);
            assert(a != b);
            assert(blk[a] != blk[b]);
        } else if in1 {
            if at(h, r2, c2) != 0 {
                assert(at(g, r2, c2) != 0);
            }
        } else if in2 {
            assert(at(g, r1, c1) != 0);
        }
    }
    assert forall|r: int, c: int| in_grid(r, c) && #[trigger] at(h, r, c) != 0 implies r / 3 == c / 3 && r / 3 < row / 3 + 1 by {
        if !in_block(r, c, row, row) {
            assert(at(g, r, c) != 0);
        }
    }
}

/// The puzzle dug out of the solved grid `s` along `order`: the first `k`
/// indices of `order` are visited in turn, each visited cell is emptied, and
/// it gets its digit back unless the puzzle then has exactly one solution.
/// Indices past the grid are passed over.
pub open spec fn dig(s: Seq<u8>, order: Seq<usize>, k: nat) -> Seq<u8>
    decreases k,
{
    if k == 0 {
        s
    } else {
        let p = dig(s, order, (k - 1) as nat);
        let pos = order[k - 1] as int;
        if pos < 81 {
            let emptied = p.update(pos, 0);
            if uniquely_solvable(emptied) {
                emptied
            } else {
                p.update(pos, s[pos])
            }
        } else {
            p
        }
    }
}

/// Every cell index 0 to 80 exactly once.
pub open spec fn arrangement(order: Seq<usize>) -> bool {
    order.len() == 81 && order.no_duplicates() && forall|j: int| 0 <= j < 81 ==> #[trigger] order[j] < 81
}

/// A fixed solved grid: each row shifts the one above by three, and by one
/// more at each band.
pub open spec fn pattern(r: int, c: int) -> int {
    (3 * (r % 3) + r / 3 + c) % 9 + 1
}

proof fn lemma_pattern_distinct(r1: int, c1: int, r2: int, c2: int)
    requires
        in_grid(r1, c1),
        in_grid(r2, c2),
        peers(r1, c1, r2, c2),
    ensures
        pattern(r1, c1) != pattern(r2, c2),
{
    let (q1, m1, q2, m2) = (r1 / 3, r1 % 3, r2 / 3, r2 % 3);
    assert(r1 == 3 * q1 + m1 && 0 <= m1 < 3 && 0 <= q1 < 3);
    assert(r2 == 3 * q2 + m2 && 0 <= m2 < 3 && 0 <= q2 < 3);
    let a1 = 3 * m1 + q1;
    let a2 = 3 * m2 + q2;
    let x1 = a1 + c1;
    let x2 = a2 + c2;
    assert(0 <= x1 < 17 && 0 <= x2 < 17);
    assert(x1 % 9 == if x1 >= 9 { x1 - 9 } else { x1 });
    assert(x2 % 9 == if x2 >= 9 { x2 - 9 } else { x2 });
    assert(pattern(r1, c1) == x1 % 9 + 1);
    assert(pattern(r2, c2) == x2 % 9 + 1);
    if r1 != r2 && c1 != c2 {
        assert(q1 == q2 && c1 / 3 == c2 / 3);
        assert(m1 != m2);
    }
}

/// The digits 1 to 9 in a random order.
fn shuffled_digits() -> (r: Vec<u8>)
    ensures
        permutation_of_digits(r@),
        forall|d: u8| 1 <= d <= 9 ==> #[trigger] r@.contains(d),
{
    let mut numbers: Vec<u8> = vec![1, 2, 3, 4, 5, 6, 7, 8, 9];
    let ghost orig = numbers@;
    shuffle(&mut numbers);
    proof {
        broadcast use vstd::seq_lib::group_to_multiset_ensures;
        assert(orig.no_duplicates());
        assert(numbers@.len() == numbers@.to_multiset().len());
        assert(orig.len() == orig.to_multiset().len());
        orig.lemma_multiset_has_no_duplicates();
        numbers@.lemma_multiset_has_no_duplicates_conv();
        assert forall|i: int| 0 <= i < numbers@.len() implies 1 <= #[trigger] numbers@[i] <= 9 by {
            let x = numbers@[i];
            assert(numbers@.contains(x));
            assert(numbers@.to_multiset().count(x) > 0);
            assert(orig.to_multiset().count(x) > 0);
            assert(orig.contains(x));
        }
        assert forall|d: u8| 1 <= d <= 9 implies #[trigger] numbers@.contains(d) by {
            assert(orig[d - 1] == d);
            assert(orig.contains(d));
            assert(orig.to_multiset().count(d) > 0);
            assert(numbers@.to_multiset().count(d) > 0);
        }
    }
    numbers
}

/// The number of empty cells.
pub open spec fn holes(g: Seq<u8>) -> nat
    decreases g.len(),
{
    if g.len() == 0 {
        0
    } else {
        holes(g.drop_last()) + if g.last() == 0 {
            1nat
        } else {
            0nat
        }
    }
}

/// `p` is `s` with some cells emptied.
pub open spec fn dug_from(p: Seq<u8>, s: Seq<u8>) -> bool {
    p.len() == s.len() && forall|i: int| 0 <= i < s.len() ==> #[trigger] p[i] == s[i] || p[i] == 0
}

/// Writing one cell adds at most one hole, and none when the digit is not 0.
proof fn lemma_holes_update(g: Seq<u8>, i: int, v: u8)
    requires
        0 <= i < g.len(),
    ensures
        holes(g.update(i, v)) <= holes(g) + 1,
        v != 0 ==> holes(g.update(i, v)) <= holes(g),
    decreases g.len(),
{
    let h = g.update(i, v);
    if i == g.len() - 1 {
        assert(h.drop_last() =~= g.drop_last());
    } else {
        lemma_holes_update(g.drop_last(), i, v);
        assert(h.drop_last() =~= g.drop_last().update(i, v));
    }
}

/// A grid without empty cells has no holes.
proof fn lemma_no_holes(g: Seq<u8>)
    requires
        forall|i: int| 0 <= i < g.len() ==> #[trigger] g[i] != 0,
    ensures
        holes(g) == 0,
    decreases g.len(),
{
    if g.len() > 0 {
        lemma_no_holes(g.drop_last());
    }
}

/// A grid dug from a solved grid is consistent and solved by it.
proof fn lemma_dug(p: Seq<u8>, s: Seq<u8>)
    requires
        solved(s),
        dug_from(p, s),
    ensures
        digits(p),
        consistent(p),
        is_solution(s, p),
{
    assert forall|i: int| 0 <= i < 81 implies #[trigger] p[i] <= 9 by {
        assert(p[i] == s[i] || p[i] == 0);
    }
    assert forall|r1: int, c1: int, r2: int, c2: int|
        in_grid(r1, c1) && in_grid(r2, c2) && #[trigger] peers(r1, c1, r2, c2) && at(p, r1, c1) != 0
        implies at(p, r1, c1) != at(p, r2, c2) by {
        assert(p[r1 * 9 + c1] == s[r1 * 9 + c1] || p[r1 * 9 + c1] == 0);
        assert(p[r2 * 9 + c2] == s[r2 * 9 + c2] || p[r2 * 9 + c2] == 0);
    }
}

/// A 9×9 grid, row-major, 0 for an empty cell.
#[derive(Clone, Copy)]
pub struct Board {
    grid: [u8; 81],
}

impl View for Board {
    type V = Seq<u8>;

    closed spec fn view(&self) -> Seq<u8> {
        self.grid@
    }
}

impl Board {
    /// Digits 0 to 9 only, and no filled cell repeats a peer's digit.
    pub open spec fn wf(&self) -> bool {
        digits(self@) && consistent(self@)
    }

    /// A board with the given cells, row-major.
    pub fn from_grid(grid: [u8; 81]) -> (r: Board)
        ensures
            r@ == grid@,
    {
        Board { grid }
    }

    /// The cells, row-major.
    pub fn to_grid(&self) -> (r: [u8; 81])
        ensures
            r@ == self@,
    {
        self.grid
    }

    /// The digit at (`row`, `col`), 0 when empty.
    pub fn value(&self, row: usize, col: usize) -> (r: u8)
        requires
            row < 9,
            col < 9,
        ensures
            r == at(self@, row as int, col as int),
    {
        self.grid[row * 9 + col]
    }

    /// A fully solved grid: the three diagonal boxes are seeded at random,
    /// then the rest is filled by randomized backtracking.
    pub fn generate() -> (r: Board)
        ensures
            r.wf(),
            solved(r@),
    {
        let mut board = Board { grid: [0u8; 81] };
        assert(seeded(board@, 0));
        board.fill_diagonals();
        if board.fill_remaining(0, 0) {
            return board;
        }
        // Unreachable: the search succeeds whenever the seeded grid has a
        // completion, and three diagonal boxes always admit one. That last
        // fact is not proved here, so a fixed solved grid keeps the result
        // solved on this path.
        Board::pattern_board()
    }

    /// The solved grid of `pattern`.
    fn pattern_board() -> (r: Board)
        ensures
            solved(r@),
    {
        let mut board = Board { grid: [0u8; 81] };
        let mut i: usize = 0;
        while i < CELLS
            invariant
                i <= 81,
                board@.len() == 81,
                forall|j: int| 0 <= j < i ==> #[trigger] board@[j] == pattern(j / 9, j % 9),
            decreases 81 - i,
        {
            let r = i / SIZE;
            let c = i % SIZE;
            board.grid[i] = ((3 * (r % 3) + r / 3 + c) % 9 + 1) as u8;
            i += 1;
        }
        let ghost g = board@;
        assert forall|i: int| 0 <= i < 81 implies 1 <= #[trigger] g[i] <= 9 by {
            assert(g[i] == pattern(i / 9, i % 9));
        }
        assert forall|r1: int, c1: int, r2: int, c2: int|
            in_grid(r1, c1) && in_grid(r2, c2) && #[trigger] peers(r1, c1, r2, c2) && at(g, r1, c1) != 0
            implies at(g, r1, c1) != at(g, r2, c2) by {
            lemma_pattern_distinct(r1, c1, r2, c2);
            assert(g[r1 * 9 + c1] == pattern(r1, c1));
            assert(g[r2 * 9 + c2] == pattern(r2, c2));
        }
        board
    }

    /// Digs a puzzle out of this solved board: visits the cells in a random
    /// order, empties each of the first `num_holes` of them, and puts the
    /// digit back whenever the puzzle would no longer have exactly one
    /// solution.
    pub fn generate_puzzle(&self, num_holes: usize) -> (r: Board)
        requires
            solved(self@),
        ensures
            r.wf(),
            dug_from(r@, self@),
            unique_solution(r@, self@),
            holes(r@) <= num_holes,
            exists|order: Seq<usize>| #[trigger] arrangement(order) && r@ == dig(self@, order,
                if num_holes < 81 { num_holes as nat } else { 81 }),
    {
        let mut positions: Vec<usize> = Vec::new();
        let mut i: usize = 0;
        while i < CELLS
            invariant
                i <= 81,
                positions@.len() == i,
                forall|j: int| 0 <= j < i ==> #[trigger] positions@[j] == j,
            decreases 81 - i,
        {
            positions.push(i);
            i += 1;
        }
        let ghost orig = positions@;
        shuffle(&mut positions);
        proof {
            broadcast use vstd::seq_lib::group_to_multiset_ensures;
            assert(orig.no_duplicates());
            assert(positions@.len() == positions@.to_multiset().len());
            assert(orig.len() == orig.to_multiset().len());
            orig.lemma_multiset_has_no_duplicates();
            positions@.lemma_multiset_has_no_duplicates_conv();
            assert forall|j: int| 0 <= j < 81 implies #[trigger] positions@[j] < 81 by {
                let x = positions@[j];
                assert(positions@.contains(x));
                assert(positions@.to_multiset().count(x) > 0);
                assert(orig.to_multiset().count(x) > 0);
                assert(orig.contains(x));
            }
            assert(arrangement(positions@));
        }
        self.dig_in_order(&positions, num_holes)
    }

    /// Digs a puzzle out of this solved board along `order`: visits the first
    /// `num_holes` indices of `order`, empties each such cell, and puts the
    /// digit back whenever the puzzle would no longer have exactly one
    /// solution. Indices past the grid are passed over.
    pub fn dig_in_order(&self, order: &Vec<usize>, num_holes: usize) -> (r: Board)
        requires
            solved(self@),
        ensures
            r.wf(),
            dug_from(r@, self@),
            unique_solution(r@, self@),
            holes(r@) <= num_holes,
            r@ == dig(self@, order@, if num_holes < order@.len() { num_holes as nat } else { order@.len() }),
    {
        let ghost s = self@;
        let mut puzzle = *self;
        proof {
            lemma_full_unique(s);
            lemma_no_holes(s);
        }
        let mut k: usize = 0;
        while k < num_holes && k < order.len()
            invariant
                k <= num_holes,
                k <= order@.len(),
                solved(s),
                s == self@,
                dug_from(puzzle@, s),
                unique_solution(puzzle@, s),
                holes(puzzle@) <= k,
                puzzle@ == dig(s, order@, k as nat),
            decreases order@.len() - k,
        {
            let pos = order[k];
            let ghost prev = puzzle@;
            if pos < CELLS {
                let backup = self.grid[pos];
                puzzle.grid[pos] = 0;
                proof {
                    lemma_holes_update(prev, pos as int, 0);
                    lemma_dug(puzzle@, s);
                }
                let test_board = puzzle;
                if test_board.count_solutions(2) != 1 {
                    puzzle.grid[pos] = backup;
                    proof {
                        let restored = puzzle@;
                        assert(restored == prev.update(pos as int, s[pos as int]));
                        lemma_holes_update(prev, pos as int, s[pos as int]);
                        assert forall|t: Seq<u8>| #[trigger] is_solution(t, restored) implies t == s by {
                            assert forall|i: int| 0 <= i < prev.len() && prev[i] != 0 implies #[trigger] t[i] == prev[i] by {
                                assert(restored[i] == prev[i] || i == pos);
                            }
                            assert(is_solution(t, prev));
                        }
                        lemma_dug(restored, s);
                    }
                } else {
                    proof {
                        let emptied = puzzle@;
                        let u = choose|u: Seq<u8>| #[trigger] unique_solution(emptied, u);
                        assert(is_solution(s, emptied));
                    }
                }
            } else {
                proof {
                    lemma_holes_update(prev, 0, prev[0]);
                    assert(prev.update(0, prev[0]) =~= prev);
                }
            }
            k += 1;
        }
        proof {
            lemma_dug(puzzle@, s);
        }
        puzzle
    }

    /// Counts the solutions of the board, stopping at `limit` (at one when
    /// `limit` is zero). The board itself is left as it is.
    pub fn count_solutions(&self, limit: usize) -> (r: usize)
        requires
            self.wf(),
        ensures
            counted(self@, r as nat, limit as nat),
            limit >= 1 ==> r <= limit,
            limit == 0 ==> r <= 1,
            r >= 1 <==> solvable(self@),
            limit >= 2 ==> (r == 1 <==> uniquely_solvable(self@)),
    {
        let cap: usize = if limit == 0 {
            1
        } else {
            limit
        };
        let mut work = *self;
        let mut count: usize = 0;
        let (_, Ghost(f)) = work.solve_with_limit(0, 0, &mut count, cap);
        proof {
            let g = self@;
            assert(enumerates(f, g) && f.len() == count as nat && (count < limit ==> covers(f, g)));
            if count >= 1 {
                assert(is_solution(f[0], g));
            } else {
                assert forall|s: Seq<u8>| !is_solution(s, g) by {
                    if is_solution(s, g) {
                        assert(f.contains(s));
                    }
                }
            }
            if limit >= 2 {
                if count == 1 {
                    assert forall|t: Seq<u8>| #[trigger] is_solution(t, g) implies t == f[0] by {
                        assert(f.contains(t));
                    }
                    assert(unique_solution(g, f[0]));
                }
                if uniquely_solvable(g) && count >= 2 {
                    let s = choose|s: Seq<u8>| #[trigger] unique_solution(g, s);
                    assert(is_solution(f[0], g) && is_solution(f[1], g));
                    assert(f[0] != f[1]);
                }
            }
        }
        count
    }

    /// Whether `value` can go at (`row`, `col`) without repeating a digit of
    /// its row, its column or its box.
    pub fn is_valid(&self, row: usize, col: usize, value: u8) -> (r: bool)
        requires
            row < 9,
            col < 9,
        ensures
            r == free_at(self@, row as int, col as int, value),
    {
        let ghost g = self@;
        let mut i: usize = 0;
        while i < SIZE
            invariant
                i <= 9,
                row < 9,
                col < 9,
                g == self@,
                g.len() == 81,
                forall|k: int| 0 <= k < i ==> at(g, row as int, k) != value && at(g, k, col as int) != value,
            decreases 9 - i,
        {
            if self.grid[row * 9 + i] == value || self.grid[i * 9 + col] == value {
                assert(same_unit(row as int, col as int, row as int, i as int));
                assert(same_unit(row as int, col as int, i as int, col as int));
                return false;
            }
            i += 1;
        }
        let start_row = row / SUBGRID_SIZE * SUBGRID_SIZE;
        let start_col = col / SUBGRID_SIZE * SUBGRID_SIZE;
        let mut i: usize = 0;
        while i < SUBGRID_SIZE
            invariant
                i <= 3,
                row < 9,
                col < 9,
                g == self@,
                g.len() == 81,
                start_row == row / 3 * 3,
                start_col == col / 3 * 3,
                forall|k: int| 0 <= k < 9 ==> at(g, row as int, k) != value && at(g, k, col as int) != value,
                forall|r: int, c: int| start_row <= r < start_row + i && start_col <= c < start_col + 3 ==> #[trigger] at(g, r, c) != value,
            decreases 3 - i,
        {
            let mut j: usize = 0;
            while j < SUBGRID_SIZE
                invariant
                    i < 3,
                    j <= 3,
                    row < 9,
                    col < 9,
                    g == self@,
                    g.len() == 81,
                    start_row == row / 3 * 3,
                    start_col == col / 3 * 3,
                    forall|r: int, c: int| start_row <= r < start_row + i && start_col <= c < start_col + 3 ==> #[trigger] at(g, r, c) != value,
                    forall|c: int| start_col <= c < start_col + j ==> #[trigger] at(g, start_row + i, c) != value,
                decreases 3 - j,
            {
                if self.grid[(start_row + i) * 9 + start_col + j] == value {
                    assert(same_unit(row as int, col as int, start_row + i, start_col + j));
                    return false;
                }
                j += 1;
            }
            i += 1;
        }
        assert forall|r: int, c: int| in_grid(r, c) && #[trigger] same_unit(row as int, col as int, r, c) implies at(g, r, c) != value by {
        }
        true
    }

    /// Backtracking search from (`row`, `col`) on: tries every free digit at
    /// each empty cell and adds one to `count` for each completed grid,
    /// stopping (and returning `true`) once `count` reaches `limit`. The
    /// ghost result lists the solutions found.
    fn solve_with_limit(&mut self, row: usize, col: usize, count: &mut usize, limit: usize)
        -> (res: (bool, Ghost<Seq<Seq<u8>>>))
        requires
            row < 9,
            col <= 9,
            digits(old(self)@),
            consistent(old(self)@),
            filled_before(old(self)@, row as int, col as int),
            *old(count) < limit,
        ensures
            *final(count) == *old(count) + res.1@.len(),
            enumerates(res.1@, old(self)@),
            res.0 ==> *final(count) == limit,
            !res.0 ==> *final(count) < limit && final(self)@ == old(self)@ && covers(res.1@, old(self)@),
        decreases 9 - row, 10 - col,
    {
        if col == SIZE {
            if row == SIZE - 1 {
                proof {
                    lemma_full(self@);
                    assert(seq![self@][0] == self@);
                }
                *count += 1;
                let ghost one = seq![self@];
                let stop = *count >= limit;
                return (stop, Ghost(one));
            }
            return self.solve_with_limit(row + 1, 0, count, limit);
        }
        if self.grid[row * 9 + col] != 0 {
            return self.solve_with_limit(row, col + 1, count, limit);
        }
        let ghost g = self@;
        let ghost c0 = *count;
        let ghost pos = row * 9 + col;
        let ghost mut found: Seq<Seq<u8>> = Seq::empty();
        let mut num: u8 = 1;
        while num <= 9
            invariant
                1 <= num <= 10,
                row < 9,
                col < 9,
                pos == row * 9 + col,
                self@ == g,
                g == old(self)@,
                c0 == *old(count),
                digits(g),
                consistent(g),
                filled_before(g, row as int, col as int),
                at(g, row as int, col as int) == 0,
                *count == c0 + found.len(),
                *count < limit,
                enumerates(found, g),
                forall|k: int| 0 <= k < found.len() ==> #[trigger] found[k][pos] < num,
                forall|s: Seq<u8>| #[trigger] is_solution(s, g) && s[pos] < num ==> found.contains(s),
            decreases 10 - num,
        {
            if self.is_valid(row, col, num) {
                proof {
                    lemma_place(g, row as int, col as int, num);
                }
                self.grid[row * 9 + col] = num;
                let ghost h = self@;
                assert(h == g.update(pos, num));
                assert forall|r: int, c: int| in_grid(r, c) && before(r, c, row as int, col + 1) implies #[trigger] at(h, r, c) != 0 by {
                    if r != row || c != col {
                        assert(at(g, r, c) != 0);
                    }
                }
                let ghost cb = *count;
                let (stop, Ghost(f)) = self.solve_with_limit(row, col + 1, count, limit);
                assert(*count == cb + f.len());
                assert(cb == c0 + found.len());
                proof {
                    assert forall|k: int| 0 <= k < f.len() implies is_solution(#[trigger] f[k], g) && f[k][pos] == num by {
                        assert(is_solution(f[k], h));
                        assert(h[pos] == num);
                    }
                    let all = found + f;
                    assert forall|i: int, j: int| 0 <= i < all.len() && 0 <= j < all.len() && i != j
                        implies #[trigger] all[i] != #[trigger] all[j] by {
                        if i < found.len() && j >= found.len() {
                            assert(all[i][pos] < num && all[j] == f[j - found.len()]);
                        } else if j < found.len() && i >= found.len() {
                            assert(all[j][pos] < num && all[i] == f[i - found.len()]);
                        } else if i < found.len() {
                            assert(found[i] != found[j]);
                        } else {
                            assert(f[i - found.len()] != f[j - found.len()]);
                        }
                    }
                    assert forall|k: int| 0 <= k < all.len() implies is_solution(#[trigger] all[k], g) by {
                        if k >= found.len() {
                            assert(all[k] == f[k - found.len()]);
                        }
                    }
                }
                if stop {
                    let ghost all = found + f;
                    return (true, Ghost(all));
                }
                self.grid[row * 9 + col] = 0;
                proof {
                    assert(self@ =~= g);
                    let all = found + f;
                    assert forall|k: int| 0 <= k < all.len() implies #[trigger] all[k][pos] < num + 1 by {
                        if k >= found.len() {
                            assert(all[k] == f[k - found.len()]);
                        }
                    }
                    assert forall|s: Seq<u8>| #[trigger] is_solution(s, g) && s[pos] < num + 1 implies all.contains(s) by {
                        if s[pos] == num {
                            assert(is_solution(s, h));
                            let k = choose|k: int| 0 <= k < f.len() && f[k] == s;
                            assert(all[found.len() + k] == s);
                        } else {
                            let k = choose|k: int| 0 <= k < found.len() && found[k] == s;
                            assert(all[k] == s);
                        }
                    }
                    found = all;
                }
            } else {
                proof {
                    assert forall|s: Seq<u8>| #[trigger] is_solution(s, g) && s[pos] < num + 1 implies found.contains(s) by {
                        if s[pos] == num {
                            let (r, c) = choose|r: int, c: int| in_grid(r, c) && #[trigger] same_unit(row as int, col as int, r, c) && at(g, r, c) == num;
                            assert(at(s, r, c) == num);
                            assert(peers(row as int, col as int, r, c));
                        }
                    }
                }
            }
            num += 1;
        }
        proof {
            assert forall|s: Seq<u8>| #[trigger] is_solution(s, g) implies found.contains(s) by {
                assert(s[pos] <= 9);
            }
        }
        (false, Ghost(found))
    }

    /// Fills the 3×3 block whose top-left cell is (`row`, `col`) with the
    /// digits 1 to 9 in a random order; the other cells stay.
    fn fill_box(&mut self, row: usize, col: usize)
        requires
            row <= 6,
            col <= 6,
        ensures
            permutation_of_digits(block_digits(final(self)@, row as int, col as int)),
            forall|r: int, c: int| in_grid(r, c) && !in_block(r, c, row as int, col as int)
                ==> #[trigger] at(final(self)@, r, c) == at(old(self)@, r, c),
    {
        let numbers = shuffled_digits();
        let ghost g = self@;
        let mut k: usize = 0;
        while k < 9
            invariant
                k <= 9,
                row <= 6,
                col <= 6,
                g == old(self)@,
                permutation_of_digits(numbers@),
                self@.len() == 81,
                forall|r: int, c: int| #![trigger at(self@, r, c)]
                    in_grid(r, c) ==> if row <= r < row + 3 && col <= c < col + 3 && (r - row) * 3 + (c - col) < k {
                        at(self@, r, c) == numbers@[(r - row) * 3 + (c - col)]
                    } else {
                        at(self@, r, c) == at(g, r, c)
                    },
            decreases 9 - k,
        {
            let ghost prev = self@;
            let ghost (kr, kc) = ((k / 3) as int, (k % 3) as int);
            assert(k == kr * 3 + kc && 0 <= kc < 3 && 0 <= kr < 3);
            self.grid[(row + k / 3) * 9 + col + k % 3] = numbers[k];
            assert forall|r: int, c: int| #![trigger at(self@, r, c)]
                in_grid(r, c) implies if row <= r < row + 3 && col <= c < col + 3 && (r - row) * 3 + (c - col) < k + 1 {
                    at(self@, r, c) == numbers@[(r - row) * 3 + (c - col)]
                } else {
                    at(self@, r, c) == at(g, r, c)
                } by {
                if r == row + kr && c == col + kc {
                    assert(at(self@, r, c) == numbers@[k as int]);
                } else {
                    assert(r * 9 + c != (row + kr) * 9 + col + kc);
                    assert(at(self@, r, c) == at(prev, r, c));
                    if row <= r < row + 3 && col <= c < col + 3 {
                        assert((r - row) * 3 + (c - col) != k);
                    }
                }
            }
            k += 1;
        }
        let ghost h = self@;
        assert forall|j: int| 0 <= j < 9 implies #[trigger] block_digits(h, row as int, col as int)[j] == numbers@[j] by {
            assert(at(h, row + j / 3, col + j % 3) == numbers@[(j / 3) * 3 + j % 3]);
        }
        assert(block_digits(h, row as int, col as int) =~= numbers@);
    }

    /// Seeds the three boxes of the main diagonal, which share no row, column
    /// or box, each with a random order of the digits.
    fn fill_diagonals(&mut self)
        requires
            seeded(old(self)@, 0),
        ensures
            seeded(final(self)@, 3),
            permutation_of_digits(box_digits(final(self)@, 0)),
            permutation_of_digits(box_digits(final(self)@, 4)),
            permutation_of_digits(box_digits(final(self)@, 8)),
            forall|r: int, c: int| in_grid(r, c) && r / 3 != c / 3 ==> #[trigger] at(final(self)@, r, c) == at(old(self)@, r, c),
    {
        let ghost g = self@;
        let mut i: usize = 0;
        while i < SIZE
            invariant
                i <= 9,
                g == old(self)@,
                seeded(self@, (i as int + 2) / 3),
                i > 0 ==> permutation_of_digits(block_digits(self@, 0, 0)),
                i > 3 ==> permutation_of_digits(block_digits(self@, 3, 3)),
                i > 6 ==> permutation_of_digits(block_digits(self@, 6, 6)),
                forall|r: int, c: int| in_grid(r, c) && r / 3 != c / 3 ==> #[trigger] at(self@, r, c) == at(g, r, c),
            decreases 9 - i,
        {
            if i % SUBGRID_SIZE == 0 {
                let ghost prev = self@;
                self.fill_box(i, i);
                proof {
                    lemma_seed_box(prev, self@, i as int);
                    if i > 0 {
                        assert(block_digits(self@, 0, 0) =~= block_digits(prev, 0, 0));
                    }
                    if i > 3 {
                        assert(block_digits(self@, 3, 3) =~= block_digits(prev, 3, 3));
                    }
                    assert forall|r: int, c: int| in_grid(r, c) && r / 3 != c / 3 implies #[trigger] at(self@, r, c) == at(g, r, c) by {
                        assert(!in_block(r, c, i as int, i as int));
                        assert(at(prev, r, c) == at(g, r, c));
                    }
                }
            }
            i += 1;
        }
        assert(box_digits(self@, 0) =~= block_digits(self@, 0, 0));
        assert(box_digits(self@, 4) =~= block_digits(self@, 3, 3));
        assert(box_digits(self@, 8) =~= block_digits(self@, 6, 6));
    }

    /// Fills the empty cells from (`row`, `col`) on in row-major order, trying
    /// the digits in a fresh random order at each cell and backtracking when
    /// none fits. On failure the board is left as it was.
    fn fill_remaining(&mut self, row: usize, col: usize) -> (res: bool)
        requires
            row < 9,
            col <= 9,
            digits(old(self)@),
            consistent(old(self)@),
            filled_before(old(self)@, row as int, col as int),
        ensures
            res ==> is_solution(final(self)@, old(self)@),
            solvable(old(self)@) ==> res,
            !res ==> final(self)@ == old(self)@,
        decreases 9 - row, 10 - col,
    {
        if row == SIZE - 1 && col == SIZE {
            proof {
                lemma_full(self@);
            }
            return true;
        }
        if col == SIZE {
            return self.fill_remaining(row + 1, 0);
        }
        if self.grid[row * 9 + col] != 0 {
            return self.fill_remaining(row, col + 1);
        }
        let numbers = shuffled_digits();
        let ghost g = self@;
        let ghost pos = row * 9 + col;
        let mut k: usize = 0;
        while k < numbers.len()
            invariant
                k <= 9,
                row < 9,
                col < 9,
                pos == row * 9 + col,
                permutation_of_digits(numbers@),
                self@ == g,
                g == old(self)@,
                digits(g),
                consistent(g),
                filled_before(g, row as int, col as int),
                at(g, row as int, col as int) == 0,
                forall|d: u8| 1 <= d <= 9 ==> #[trigger] numbers@.contains(d),
                forall|s: Seq<u8>, j: int| #[trigger] is_solution(s, g) && 0 <= j < k ==> s[pos] != #[trigger] numbers@[j],
            decreases 9 - k,
        {
            let num = numbers[k];
            let ghost kk = k as int;
            if self.is_valid(row, col, num) {
                proof {
                    lemma_place(g, row as int, col as int, num);
                }
                self.grid[row * 9 + col] = num;
                let ghost h = self@;
                assert(h == g.update(pos, num));
                assert forall|r: int, c: int| in_grid(r, c) && before(r, c, row as int, col + 1) implies #[trigger] at(h, r, c) != 0 by {
                    if r != row || c != col {
                        assert(at(g, r, c) != 0);
                    }
                }
                if self.fill_remaining(row, col + 1) {
                    assert forall|i: int| 0 <= i < 81 && g[i] != 0 implies #[trigger] self@[i] == g[i] by {
                        assert(h[i] == g[i]);
                    }
                    return true;
                }
                self.grid[row * 9 + col] = 0;
                assert(self@ =~= g);
                assert forall|s: Seq<u8>| #[trigger] is_solution(s, g) implies s[pos] != num by {
                    if s[pos] == num {
                        assert(is_solution(s, h));
                    }
                }
            } else {
                assert forall|s: Seq<u8>| #[trigger] is_solution(s, g) implies s[pos] != num by {
                    if s[pos] == num {
                        let (r, c) = choose|r: int, c: int| in_grid(r, c) && #[trigger] same_unit(row as int, col as int, r, c) && at(g, r, c) == num;
                        assert(at(s, r, c) == num);
                        assert(peers(row as int, col as int, r, c));
                    }
                }
            }
            assert(numbers@[kk] == num);
            k += 1;
        }
        assert forall|s: Seq<u8>| !#[trigger] is_solution(s, g) by {
            if is_solution(s, g) {
                let d = s[pos];
                assert(1 <= d <= 9);
                assert(numbers@.contains(d));
                let j = choose|j: int| 0 <= j < numbers@.len() && numbers@[j] == d;
                assert(s[pos] != numbers@[j]);
            }
        }
        false
    }
}

} // verus!
