//! A player's session over one generated puzzle: editable cells, undo,
//! a budget of checks and of hints, a clock, and win detection.
use vstd::prelude::*;
use crate::board::{arrangement, dig, dug_from, holes, solved, unique_solution, Board};
use crate::codec::{
    decode, decode_error, decode_snapshot, encodable, encode, encode_snapshot, lemma_round_trip, DecodeError,
    Snapshot, SnapshotView,
};
use crate::entropy::{choose_in, clock_millis, shuffle};

verus! {

/// How many checks a session allows.
pub const MAX_CHECKS: u8 = 3;

/// How many hints a session allows.
pub const MAX_HINTS: u8 = 3;

/// One cell of the puzzle as the player sees it.
#[derive(Clone, Copy, Debug)]
pub struct Cell {
    /// The digit, 0 when empty.
    pub value: u8,
    /// A clue of the puzzle, which the player cannot change.
    pub locked: bool,
    /// `None` when not verified, else whether the digit was found correct.
    pub mark: Option<bool>,
}

impl Cell {
    pub open spec fn new_spec(value: u8) -> Cell {
        Cell { value, locked: value != 0, mark: None }
    }

    /// A cell of a fresh puzzle: a digit is a locked clue, 0 an open cell.
    pub fn new(value: u8) -> (r: Cell)
        ensures
            r == Cell::new_spec(value),
    {
        Cell { value, locked: value != 0, mark: None }
    }

    /// Forgets any verification of the cell.
    pub fn uncheck(&mut self)
        ensures
            *final(self) == (Cell { mark: None, ..*old(self) }),
    {
        self.mark = None;
    }

    /// Records a verification of the cell.
    pub fn check(&mut self, correct: bool)
        ensures
            *final(self) == (Cell { mark: Some(correct), ..*old(self) }),
    {
        self.mark = Some(correct);
    }

    /// Whether the player may change the cell.
    pub fn writable(&self) -> (r: bool)
        ensures
            r == !self.locked,
    {
        !self.locked
    }

    /// Whether the cell has been verified.
    pub fn checked(&self) -> (r: bool)
        ensures
            r == self.mark.is_some(),
    {
        self.mark.is_some()
    }

    /// Whether the cell has been verified and found correct.
    pub fn correct(&self) -> (r: bool)
        ensures
            r == (self.mark == Some(true)),
    {
        match self.mark {
            Some(c) => c,
            None => false,
        }
    }
}

/// Where a session stands.
#[derive(Clone, Copy, Debug, PartialEq, Eq, Structural)]
pub enum GameState {
    Running,
    Paused,
    /// Ended by revealing the solution.
    Solved,
    /// Ended by the player filling the grid correctly.
    Won,
}

/// How many cells a new puzzle tries to empty.
#[derive(Clone, Copy, Debug, PartialEq, Eq, Structural)]
pub enum Difficulty {
    Easy,
    Medium,
    Hard,
    Expert,
}

/// The half-open range from which the number of cells to empty is drawn.
pub open spec fn hole_range(d: Difficulty) -> (int, int) {
    match d {
        Difficulty::Easy => (45, 50),
        Difficulty::Medium => (50, 55),
        Difficulty::Hard => (55, 60),
        Difficulty::Expert => (60, 65),
    }
}

impl Difficulty {
    /// The name of the level.
    pub fn as_str(&self) -> (r: &'static str)
        ensures
            r@ == match *self {
                Difficulty::Easy => "Easy"@,
                Difficulty::Medium => "Medium"@,
                Difficulty::Hard => "Hard"@,
                Difficulty::Expert => "Expert"@,
            },
    {
        match self {
            Difficulty::Easy => "Easy",
            Difficulty::Medium => "Medium",
            Difficulty::Hard => "Hard",
            Difficulty::Expert => "Expert",
        }
    }

    /// A number of cells to empty, drawn at random from the level's range.
    pub fn num_holes(&self) -> (r: usize)
        ensures
            hole_range(*self).0 <= r < hole_range(*self).1,
    {
        match self {
            Difficulty::Easy => choose_in(45, 50),
            Difficulty::Medium => choose_in(50, 55),
            Difficulty::Hard => choose_in(55, 60),
            Difficulty::Expert => choose_in(60, 65),
        }
    }
}

/// A recorded edit: the cell at column `x`, row `y` held `old` before.
#[derive(Clone, Copy, Debug)]
pub struct Move {
    pub x: usize,
    pub y: usize,
    pub old: u8,
}

/// A session: the puzzle as the player fills it, its solution, and the
/// player-facing state around them.
pub struct Sudoku {
    grid: [Cell; 81],
    solution: [u8; 81],
    state: GameState,
    movements: Vec<Move>,
    start: u64,
    elapsed: u64,
    difficulty: Difficulty,
    checks: u8,
    hints: u8,
}

/// What a session holds, as the contracts see it. Times are milliseconds:
/// `start` is the clock reading when the session last started running, and
/// `elapsed` the time accumulated before it.
pub struct SudokuView {
    pub grid: Seq<Cell>,
    pub solution: Seq<u8>,
    pub state: GameState,
    pub moves: Seq<Move>,
    pub start: u64,
    pub elapsed: u64,
    pub difficulty: Difficulty,
    pub checks: u8,
    pub hints: u8,
}

impl View for Sudoku {
    type V = SudokuView;

    closed spec fn view(&self) -> SudokuView {
        SudokuView {
            grid: self.grid@,
            solution: self.solution@,
            state: self.state,
            moves: self.movements@,
            start: self.start,
            elapsed: self.elapsed,
            difficulty: self.difficulty,
            checks: self.checks,
            hints: self.hints,
        }
    }
}

/// Row-major index of column `x`, row `y`.
pub open spec fn idx(x: int, y: int) -> int {
    y * 9 + x
}

/// Every cell holds the digit of the solution.
pub open spec fn matches_solution(grid: Seq<Cell>, solution: Seq<u8>) -> bool {
    forall|i: int| 0 <= i < 81 ==> #[trigger] grid[i].value == solution[i]
}

/// The digits of the cells.
pub open spec fn values(grid: Seq<Cell>) -> Seq<u8> {
    Seq::new(grid.len(), |i: int| grid[i].value)
}

/// The time shown at clock reading `now`: while running, what has passed
/// since the start is added.
pub open spec fn elapsed_at(v: SudokuView, now: u64) -> u64 {
    if v.state == GameState::Running {
        let since = if now >= v.start { (now - v.start) as u64 } else { 0u64 };
        if v.elapsed + since <= u64::MAX { (v.elapsed + since) as u64 } else { u64::MAX }
    } else {
        v.elapsed
    }
}

/// A cell that `check` verifies: open, filled, and not verified yet.
pub open spec fn checkable(c: Cell) -> bool {
    !c.locked && c.value != 0 && c.mark is None
}

/// A cell that a hint may fill: open and empty.
pub open spec fn hintable(c: Cell) -> bool {
    !c.locked && c.value == 0
}

/// The cell after `check`.
pub open spec fn checked_cell(c: Cell, sol: u8) -> Cell {
    if checkable(c) { Cell { mark: Some(c.value == sol), ..c } } else { c }
}

/// The cell after `complete`.
pub open spec fn completed_cell(c: Cell, sol: u8) -> Cell {
    if c.locked { c } else { Cell { value: sol, locked: false, mark: Some(c.value == 0 || c.value == sol) } }
}

/// The cell after `clear_board`.
pub open spec fn cleared_cell(c: Cell) -> Cell {
    if c.locked { c } else { Cell { value: 0, ..c } }
}

/// The session after the player writes `value` at column `x`, row `y` when
/// the clock reads `now`: refused unless running and the cell is open;
/// otherwise recorded for undo, the mark cleared, and won when every cell
/// then holds the solution's digit.
pub open spec fn edited(v: SudokuView, x: usize, y: usize, value: u8, now: u64) -> SudokuView {
    let i = idx(x as int, y as int);
    if v.state == GameState::Running && !v.grid[i].locked {
        let grid = v.grid.update(i, Cell { value, locked: false, mark: None });
        let moves = v.moves.push(Move { x, y, old: v.grid[i].value });
        if matches_solution(grid, v.solution) {
            SudokuView { grid, moves, state: GameState::Won, elapsed: elapsed_at(v, now), ..v }
        } else {
            SudokuView { grid, moves, ..v }
        }
    } else {
        v
    }
}

/// A running session is won by exactly the edit after which every cell holds
/// the solution's digit; any other edit leaves it running, and a won session
/// takes no further edit.
pub proof fn lemma_win_on_completing_edit(v: SudokuView, x: usize, y: usize, value: u8, now: u64)
    requires
        v.wf(),
        x < 9,
        y < 9,
    ensures
        v.state == GameState::Running ==> (edited(v, x, y, value, now).state == GameState::Won <==> !v.grid[idx(
            x as int,
            y as int,
        )].locked && matches_solution(edited(v, x, y, value, now).grid, v.solution)),
        v.state == GameState::Running && edited(v, x, y, value, now).state != GameState::Won ==> edited(
            v,
            x,
            y,
            value,
            now,
        ).state == GameState::Running,
        v.state == GameState::Won ==> edited(v, x, y, value, now) == v,
{
}

/// What a session saves when the clock reads `now`: its time in whole seconds.
pub open spec fn saved(v: SudokuView, now: u64) -> SnapshotView {
    SnapshotView {
        grid: v.grid,
        solution: v.solution,
        difficulty: v.difficulty,
        elapsed_secs: elapsed_at(v, now) / 1000,
        checks: v.checks,
        hints: v.hints,
    }
}

/// The session that a snapshot resumes when the clock reads `now`.
pub open spec fn loaded(s: SnapshotView, now: u64) -> SudokuView {
    SudokuView {
        grid: s.grid,
        solution: s.solution,
        state: GameState::Running,
        moves: Seq::empty(),
        start: now,
        elapsed: if s.elapsed_secs * 1000 <= u64::MAX { (s.elapsed_secs * 1000) as u64 } else { u64::MAX },
        difficulty: s.difficulty,
        checks: s.checks,
        hints: s.hints,
    }
}

/// Loading what a session saves gives back its cells, its solution, its
/// level and its budgets exactly, and its time to the second.
pub proof fn lemma_save_load(v: SudokuView, now: u64, later: u64)
    requires
        v.wf(),
    ensures
        decode(encode(saved(v, now))) == Some(saved(v, now)),
        ({
            let w = loaded(decode(encode(saved(v, now))).unwrap(), later);
            &&& w.grid == v.grid
            &&& w.solution == v.solution
            &&& w.difficulty == v.difficulty
            &&& w.checks == v.checks
            &&& w.hints == v.hints
            &&& w.elapsed == elapsed_at(v, now) / 1000 * 1000
        }),
{
    lemma_round_trip(saved(v, now));
}

impl SudokuView {
    /// 81 cells and 81 solution digits, all digits up to 9, and every
    /// recorded move names a cell of the grid and a digit.
    pub open spec fn wf(&self) -> bool {
        &&& self.grid.len() == 81
        &&& self.solution.len() == 81
        &&& forall|i: int| 0 <= i < 81 ==> #[trigger] self.grid[i].value <= 9
        &&& forall|i: int| 0 <= i < 81 ==> #[trigger] self.solution[i] <= 9
        &&& forall|k: int| 0 <= k < self.moves.len() ==> #[trigger] self.moves[k].x < 9 && self.moves[k].y < 9 && self.moves[k].old <= 9
    }

    /// The view with the clock and the state untouched and the cells replaced.
    pub open spec fn with_grid(self, grid: Seq<Cell>) -> SudokuView {
        SudokuView { grid, ..self }
    }
}

impl Sudoku {
    pub open spec fn wf(&self) -> bool {
        self@.wf()
    }

    /// A new session on a fresh puzzle of the given level: a solved grid is
    /// generated, then dug; the clues are locked and the clock starts.
    pub fn generate(difficulty: Difficulty) -> (r: Sudoku)
        ensures
            r.wf(),
            r@.difficulty == difficulty,
            r@.state == GameState::Running,
            r@.moves.len() == 0,
            r@.elapsed == 0,
            r@.checks == 0,
            r@.hints == 0,
            solved(r@.solution),
            dug_from(values(r@.grid), r@.solution),
            unique_solution(values(r@.grid), r@.solution),
            holes(values(r@.grid)) < hole_range(difficulty).1,
            forall|i: int| 0 <= i < 81 ==> #[trigger] r@.grid[i] == Cell::new_spec(r@.grid[i].value),
            exists|order: Seq<usize>, n: nat|
                hole_range(difficulty).0 <= n < hole_range(difficulty).1 && #[trigger] arrangement(order)
                    && values(r@.grid) == #[trigger] dig(r@.solution, order, n),
    {
        let solution = Board::generate();
        let num_holes = difficulty.num_holes();
        let puzzle = solution.generate_puzzle(num_holes);
        let mut grid = [Cell { value: 0, locked: false, mark: None }; 81];
        let mut i: usize = 0;
        while i < 81
            invariant
                i <= 81,
                grid@.len() == 81,
                puzzle@.len() == 81,
                forall|j: int| 0 <= j < i ==> #[trigger] grid@[j] == Cell::new_spec(puzzle@[j]),
            decreases 81 - i,
        {
            grid[i] = Cell::new(puzzle.value(i / 9, i % 9));
            i += 1;
        }
        let r = Sudoku {
            grid,
            solution: solution.to_grid(),
            state: GameState::Running,
            movements: Vec::new(),
            start: clock_millis(),
            elapsed: 0,
            difficulty,
            checks: 0,
            hints: 0,
        };
        proof {
            assert(values(r@.grid) =~= puzzle@);
            let order = choose|order: Seq<usize>| #[trigger] arrangement(order) && puzzle@ == dig(solution@, order,
                if num_holes < 81 { num_holes as nat } else { 81 });
            assert(r@.solution == solution@);
            assert(values(r@.grid) == dig(r@.solution, order, num_holes as nat));
            assert forall|i: int| 0 <= i < 81 implies #[trigger] r@.grid[i].value <= 9 by {
                assert(puzzle@[i] == solution@[i] || puzzle@[i] == 0);
            }
        }
        r
    }

    /// Resumes a snapshot at clock reading `now`, running, with no edits to undo.
    fn from_save(save: Snapshot, now: u64) -> (r: Sudoku)
        requires
            encodable(save@),
        ensures
            r.wf(),
            r@ == loaded(save@, now),
    {
        let elapsed: u64 = if save.elapsed_secs <= u64::MAX / 1000 {
            save.elapsed_secs * 1000
        } else {
            u64::MAX
        };
        let r = Sudoku {
            grid: save.grid,
            solution: save.solution,
            state: GameState::Running,
            movements: Vec::new(),
            start: now,
            elapsed,
            difficulty: save.difficulty,
            checks: save.checks,
            hints: save.hints,
        };
        assert(r@.moves =~= Seq::<Move>::empty());
        r
    }

    /// The session that `bytes` hold, resumed at clock reading `now`, or why
    /// they hold none.
    pub fn load_at(bytes: &[u8], now: u64) -> (r: Result<Sudoku, DecodeError>)
        ensures
            match r {
                Ok(s) => s.wf() && decode(bytes@) is Some && s@ == loaded(decode(bytes@).unwrap(), now),
                Err(e) => decode(bytes@) is None && e == decode_error(bytes@),
            },
    {
        match decode_snapshot(bytes) {
            Ok(save) => {
                proof {
                    let b = bytes@;
                    assert forall|i: int| 0 <= i < 81 implies #[trigger] save@.grid[i].value <= 9 by {
                        assert(crate::codec::cell_ok(b, i));
                    }
                    assert forall|i: int| 0 <= i < 81 implies #[trigger] save@.solution[i] <= 9 by {
                        assert(b[162 + i] <= 9);
                    }
                }
                Ok(Sudoku::from_save(save, now))
            },
            Err(e) => Err(e),
        }
    }

    /// The session that `bytes` hold, resumed now (see `load_at`).
    pub fn load(bytes: &[u8]) -> (r: Result<Sudoku, DecodeError>)
        ensures
            match r {
                Ok(s) => s.wf() && decode(bytes@) is Some && exists|now: u64| #[trigger] loaded(decode(bytes@).unwrap(), now) == s@,
                Err(e) => decode(bytes@) is None && e == decode_error(bytes@),
            },
    {
        Sudoku::load_at(bytes, clock_millis())
    }

    /// The snapshot of the session when the clock reads `now`.
    pub fn save_at(&self, now: u64) -> (r: Vec<u8>)
        ensures
            r@ == encode(saved(self@, now)),
    {
        let save = Snapshot {
            grid: self.grid,
            solution: self.solution,
            difficulty: self.difficulty,
            elapsed_secs: self.elapsed_at(now) / 1000,
            checks: self.checks,
            hints: self.hints,
        };
        encode_snapshot(&save)
    }

    /// The snapshot of the session now (see `save_at`).
    pub fn save(&self) -> (r: Vec<u8>)
        ensures
            exists|now: u64| r@ == #[trigger] encode(saved(self@, now)),
    {
        self.save_at(clock_millis())
    }

    /// The cells, row-major.
    pub fn grid(&self) -> (r: &[Cell; 81])
        ensures
            r@ == self@.grid,
    {
        &self.grid
    }

    pub fn difficulty(&self) -> (r: Difficulty)
        ensures
            r == self@.difficulty,
    {
        self.difficulty
    }

    /// The number of hints used.
    pub fn hints(&self) -> (r: u8)
        ensures
            r == self@.hints,
    {
        self.hints
    }

    /// The number of checks used.
    pub fn checks(&self) -> (r: u8)
        ensures
            r == self@.checks,
    {
        self.checks
    }

    pub fn state(&self) -> (r: GameState)
        ensures
            r == self@.state,
    {
        self.state
    }

    pub fn is_paused(&self) -> (r: bool)
        ensures
            r == (self@.state == GameState::Paused),
    {
        self.state == GameState::Paused
    }

    pub fn is_running(&self) -> (r: bool)
        ensures
            r == (self@.state == GameState::Running),
    {
        self.state == GameState::Running
    }

    /// Milliseconds played, at clock reading `now`.
    pub fn elapsed_at(&self, now: u64) -> (r: u64)
        ensures
            r == elapsed_at(self@, now),
    {
        match self.state {
            GameState::Running => self.elapsed.saturating_add(now.saturating_sub(self.start)),
            _ => self.elapsed,
        }
    }

    /// Milliseconds played so far.
    pub fn elapsed(&self) -> (r: u64)
        ensures
            exists|now: u64| r == elapsed_at(self@, now),
    {
        self.elapsed_at(clock_millis())
    }

    /// The cell at column `x`, row `y`.
    pub fn at(&self, x: usize, y: usize) -> (r: Cell)
        requires
            x < 9,
            y < 9,
        ensures
            r == self@.grid[idx(x as int, y as int)],
    {
        self.grid[y * 9 + x]
    }

    /// Whether the player may change the cell at column `x`, row `y`.
    pub fn writable(&self, x: usize, y: usize) -> (r: bool)
        requires
            x < 9,
            y < 9,
        ensures
            r == !self@.grid[idx(x as int, y as int)].locked,
    {
        !self.grid[y * 9 + x].locked
    }

    /// Whether every cell holds the digit of the solution.
    fn is_solved(&self) -> (r: bool)
        ensures
            r == matches_solution(self@.grid, self@.solution),
    {
        let mut i: usize = 0;
        while i < 81
            invariant
                i <= 81,
                forall|j: int| 0 <= j < i ==> #[trigger] self.grid@[j].value == self.solution@[j],
            decreases 81 - i,
        {
            if self.grid[i].value != self.solution[i] {
                return false;
            }
            i += 1;
        }
        true
    }

    /// Reveals the solution, at clock reading `now`: every open cell takes the
    /// solution's digit and is marked correct when it was empty or already
    /// right, incorrect otherwise; the session ends as solved.
    pub fn complete_at(&mut self, now: u64)
        requires
            old(self).wf(),
        ensures
            final(self).wf(),
            old(self)@.state != GameState::Running ==> final(self)@ == old(self)@,
            old(self)@.state == GameState::Running ==> final(self)@ == (SudokuView {
                grid: Seq::new(81, |i: int| completed_cell(old(self)@.grid[i], old(self)@.solution[i])),
                state: GameState::Solved,
                elapsed: elapsed_at(old(self)@, now),
                ..old(self)@
            }),
    {
        if !self.is_running() {
            return;
        }
        let ghost g = self@.grid;
        let mut i: usize = 0;
        while i < 81
            invariant
                i <= 81,
                self.solution == old(self).solution,
                self.state == old(self).state,
                self@.grid.len() == 81,
                g == old(self)@.grid,
                forall|j: int| 0 <= j < i ==> #[trigger] self@.grid[j] == completed_cell(g[j], self.solution@[j]),
                forall|j: int| i <= j < 81 ==> #[trigger] self@.grid[j] == g[j],
                self.movements == old(self).movements,
                self.start == old(self).start,
                self.elapsed == old(self).elapsed,
                self.difficulty == old(self).difficulty,
                self.checks == old(self).checks,
                self.hints == old(self).hints,
            decreases 81 - i,
        {
            let cell = self.grid[i];
            if !cell.locked {
                let solution = self.solution[i];
                let is_correct = cell.value == 0 || cell.value == solution;
                self.grid[i] = Cell { value: solution, locked: false, mark: Some(is_correct) };
            }
            i += 1;
        }
        self.elapsed = self.elapsed_at(now);
        self.state = GameState::Solved;
        assert(self@.grid =~= Seq::new(81, |i: int| completed_cell(g[i], self.solution@[i])));
    }

    /// Reveals the solution now (see `complete_at`).
    pub fn complete(&mut self)
        requires
            old(self).wf(),
        ensures
            final(self).wf(),
            old(self)@.state != GameState::Running ==> final(self)@ == old(self)@,
            old(self)@.state == GameState::Running ==> exists|now: u64| #![trigger elapsed_at(old(self)@, now)] final(self)@ == (SudokuView {
                grid: Seq::new(81, |i: int| completed_cell(old(self)@.grid[i], old(self)@.solution[i])),
                state: GameState::Solved,
                elapsed: elapsed_at(old(self)@, now),
                ..old(self)@
            }),
    {
        let now = clock_millis();
        self.complete_at(now);
    }

    /// Verifies the player's digits: while running and within the budget,
    /// marks every open, filled, not yet verified cell correct or incorrect.
    /// Uses one check, unless no cell was eligible.
    pub fn check(&mut self)
        requires
            old(self).wf(),
        ensures
            final(self).wf(),
            !(old(self)@.state == GameState::Running && old(self)@.checks < MAX_CHECKS) ==> final(self)@ == old(self)@,
            old(self)@.state == GameState::Running && old(self)@.checks < MAX_CHECKS ==> final(self)@ == (SudokuView {
                grid: Seq::new(81, |i: int| checked_cell(old(self)@.grid[i], old(self)@.solution[i])),
                checks: if exists|i: int| 0 <= i < 81 && #[trigger] checkable(old(self)@.grid[i]) {
                    (old(self)@.checks + 1) as u8
                } else {
                    old(self)@.checks
                },
                ..old(self)@
            }),
    {
        if !self.can_check() {
            return;
        }
        let ghost g = self@.grid;
        let mut checked = false;
        let mut i: usize = 0;
        while i < 81
            invariant
                i <= 81,
                self.solution == old(self).solution,
                self.state == old(self).state,
                self@.grid.len() == 81,
                g == old(self)@.grid,
                forall|j: int| 0 <= j < i ==> #[trigger] self@.grid[j] == checked_cell(g[j], self.solution@[j]),
                forall|j: int| i <= j < 81 ==> #[trigger] self@.grid[j] == g[j],
                checked == exists|j: int| 0 <= j < i && #[trigger] checkable(g[j]),
                self.movements == old(self).movements,
                self.start == old(self).start,
                self.elapsed == old(self).elapsed,
                self.difficulty == old(self).difficulty,
                self.checks == old(self).checks,
                self.checks < MAX_CHECKS,
                self.hints == old(self).hints,
            decreases 81 - i,
        {
            let cell = self.grid[i];
            if !cell.locked && cell.value != 0 && cell.mark.is_none() {
                self.grid[i] = Cell { mark: Some(cell.value == self.solution[i]), ..cell };
                checked = true;
            }
            i += 1;
        }
        if checked {
            self.checks += 1;
        }
        assert(self@.grid =~= Seq::new(81, |i: int| checked_cell(g[i], self.solution@[i])));
    }

    /// A hint along `order`, a list of cell indices: while running and within
    /// the budget, the first open empty cell in `order` takes the solution's
    /// digit, marked correct, and one hint is used. Indices past the grid are
    /// passed over; with no such cell nothing changes.
    pub fn hint_in_order(&mut self, order: &Vec<usize>)
        requires
            old(self).wf(),
        ensures
            final(self).wf(),
            !(old(self)@.state == GameState::Running && old(self)@.hints < MAX_HINTS) ==> final(self)@ == old(self)@,
            old(self)@.state == GameState::Running && old(self)@.hints < MAX_HINTS ==> {
                let v = old(self)@;
                let open = |k: int| order@[k] < 81 && hintable(v.grid[order@[k] as int]);
                if exists|k: int| 0 <= k < order@.len() && #[trigger] open(k) {
                    exists|k: int| #![trigger order@[k]]
                        0 <= k < order@.len() && open(k) && (forall|j: int| 0 <= j < k ==> !#[trigger] open(j))
                        && final(self)@ == (SudokuView {
                            grid: v.grid.update(order@[k] as int, Cell { value: v.solution[order@[k] as int], locked: false, mark: Some(true) }),
                            hints: (v.hints + 1) as u8,
                            ..v
                        })
                } else {
                    final(self)@ == v
                }
            },
    {
        if !self.can_hint() {
            return;
        }
        let ghost v = self@;
        let ghost open = |k: int| order@[k] < 81 && hintable(v.grid[order@[k] as int]);
        let mut k: usize = 0;
        while k < order.len()
            invariant
                k <= order@.len(),
                self@ == v,
                v == old(self)@,
                v.grid.len() == 81,
                v.hints < MAX_HINTS,
                v.state == GameState::Running,
                v.wf(),
                open == (|k: int| order@[k] < 81 && hintable(v.grid[order@[k] as int])),
                forall|j: int| 0 <= j < k ==> !#[trigger] open(j),
            decreases order@.len() - k,
        {
            let pos = order[k];
            if pos < 81 {
                let cell = self.grid[pos];
                if !cell.locked && cell.value == 0 {
                    self.grid[pos] = Cell { value: self.solution[pos], locked: false, mark: Some(true) };
                    self.hints += 1;
                    assert(open(k as int));
                    assert(self@.grid == v.grid.update(pos as int, Cell { value: v.solution[pos as int], locked: false, mark: Some(true) }));
                    assert(v.solution[pos as int] <= 9);
                    assert forall|i: int| 0 <= i < 81 implies #[trigger] self@.grid[i].value <= 9 by {
                        if i != pos {
                            assert(self@.grid[i] == v.grid[i]);
                        }
                    }
                    assert(self@.solution == v.solution);
                    assert(self@.moves == v.moves);
                    assert(self@.grid.len() == 81);
                    assert(self@.wf());
                    return;
                }
            }
            assert(!open(k as int));
            k += 1;
        }
        assert(forall|j: int| 0 <= j < order@.len() ==> !#[trigger] open(j));
    }

    /// A hint on a cell chosen at random: while running and within the
    /// budget, one open empty cell takes the solution's digit, marked
    /// correct, and one hint is used; with no such cell nothing changes.
    pub fn hint(&mut self)
        requires
            old(self).wf(),
        ensures
            final(self).wf(),
            !(old(self)@.state == GameState::Running && old(self)@.hints < MAX_HINTS) ==> final(self)@ == old(self)@,
            old(self)@.state == GameState::Running && old(self)@.hints < MAX_HINTS ==> {
                let v = old(self)@;
                if exists|i: int| 0 <= i < 81 && #[trigger] hintable(v.grid[i]) {
                    exists|i: int| #![trigger v.grid[i]]
                        0 <= i < 81 && hintable(v.grid[i]) && final(self)@ == (SudokuView {
                            grid: v.grid.update(i, Cell { value: v.solution[i], locked: false, mark: Some(true) }),
                            hints: (v.hints + 1) as u8,
                            ..v
                        })
                } else {
                    final(self)@ == v
                }
            },
    {
        let mut positions: Vec<usize> = Vec::new();
        let mut i: usize = 0;
        while i < 81
            invariant
                i <= 81,
                positions@.len() == i,
                forall|j: int| 0 <= j < i ==> #[trigger] positions@[j] == j,
            decreases 81 - i,
        {
            positions.push(i);
            i += 1;
        }
        let ghost orig = positions@;
        shuffle(&mut positions);
        let ghost v = self@;
        proof {
            broadcast use vstd::seq_lib::group_to_multiset_ensures;
            if exists|i: int| 0 <= i < 81 && #[trigger] hintable(v.grid[i]) {
                let i = choose|i: int| 0 <= i < 81 && #[trigger] hintable(v.grid[i]);
                assert(orig[i] == i);
                assert(orig.contains(i as usize));
                assert(orig.to_multiset().count(i as usize) > 0);
                assert(positions@.to_multiset().count(i as usize) > 0);
                assert(positions@.contains(i as usize));
                let k = choose|k: int| 0 <= k < positions@.len() && positions@[k] == i as usize;
                assert(positions@[k] < 81 && hintable(v.grid[positions@[k] as int]));
            }
        }
        self.hint_in_order(&positions);
        proof {
            if v.state == GameState::Running && v.hints < MAX_HINTS {
                let open = |k: int| positions@[k] < 81 && hintable(v.grid[positions@[k] as int]);
                if exists|k: int| 0 <= k < positions@.len() && #[trigger] open(k) {
                    let k = choose|k: int| #![trigger positions@[k]]
                        0 <= k < positions@.len() && open(k) && (forall|j: int| 0 <= j < k ==> !#[trigger] open(j))
                        && self@ == (SudokuView {
                            grid: v.grid.update(positions@[k] as int, Cell { value: v.solution[positions@[k] as int], locked: false, mark: Some(true) }),
                            hints: (v.hints + 1) as u8,
                            ..v
                        });
                    let i = positions@[k] as int;
                    assert(hintable(v.grid[i]));
                } else {
                    assert forall|i: int| 0 <= i < 81 implies !#[trigger] hintable(v.grid[i]) by {
                        if hintable(v.grid[i]) {
                            assert(orig[i] == i);
                            assert(orig.contains(i as usize));
                            assert(orig.to_multiset().count(i as usize) > 0);
                            assert(positions@.to_multiset().count(i as usize) > 0);
                            assert(positions@.contains(i as usize));
                            let k = choose|k: int| 0 <= k < positions@.len() && positions@[k] == i as usize;
                            assert(open(k));
                        }
                    }
                }
            }
        }
    }

    /// Pauses a running session at clock reading `now`; otherwise nothing.
    pub fn pause_at(&mut self, now: u64)
        requires
            old(self).wf(),
        ensures
            final(self).wf(),
            old(self)@.state == GameState::Running ==> final(self)@ == (SudokuView {
                state: GameState::Paused,
                elapsed: elapsed_at(old(self)@, now),
                ..old(self)@
            }),
            old(self)@.state != GameState::Running ==> final(self)@ == old(self)@,
    {
        if self.is_running() {
            self.toggle_pause_at(now);
        }
    }

    /// Pauses a running session now (see `pause_at`).
    pub fn pause(&mut self)
        requires
            old(self).wf(),
        ensures
            final(self).wf(),
            old(self)@.state == GameState::Running ==> exists|now: u64| #![trigger elapsed_at(old(self)@, now)]
                final(self)@ == (SudokuView {
                    state: GameState::Paused,
                    elapsed: elapsed_at(old(self)@, now),
                    ..old(self)@
                }),
            old(self)@.state != GameState::Running ==> final(self)@ == old(self)@,
    {
        let now = clock_millis();
        self.pause_at(now);
    }

    /// At clock reading `now`: a running session pauses, adding the time since
    /// its start; a paused one runs again from `now`; an ended one stays.
    pub fn toggle_pause_at(&mut self, now: u64)
        requires
            old(self).wf(),
        ensures
            final(self).wf(),
            old(self)@.state == GameState::Running ==> final(self)@ == (SudokuView {
                state: GameState::Paused,
                elapsed: elapsed_at(old(self)@, now),
                ..old(self)@
            }),
            old(self)@.state == GameState::Paused ==> final(self)@ == (SudokuView {
                state: GameState::Running,
                start: now,
                ..old(self)@
            }),
            old(self)@.state == GameState::Solved || old(self)@.state == GameState::Won ==> final(self)@ == old(self)@,
    {
        match self.state {
            GameState::Paused => {
                self.start = now;
                self.state = GameState::Running;
            },
            GameState::Running => {
                self.elapsed = self.elapsed_at(now);
                self.state = GameState::Paused;
            },
            _ => {},
        }
    }

    /// Pauses or resumes now (see `toggle_pause_at`).
    pub fn toggle_pause(&mut self)
        requires
            old(self).wf(),
        ensures
            final(self).wf(),
            exists|now: u64| #![trigger elapsed_at(old(self)@, now)]
                (old(self)@.state == GameState::Running ==> final(self)@ == (SudokuView {
                    state: GameState::Paused,
                    elapsed: elapsed_at(old(self)@, now),
                    ..old(self)@
                })) && (old(self)@.state == GameState::Paused ==> final(self)@ == (SudokuView {
                    state: GameState::Running,
                    start: now,
                    ..old(self)@
                })),
            old(self)@.state == GameState::Solved || old(self)@.state == GameState::Won ==> final(self)@ == old(self)@,
    {
        let now = clock_millis();
        self.toggle_pause_at(now);
    }

    /// Takes back the last edit of a running session: the cell gets its
    /// earlier digit back, its mark left as it is, and its coordinates
    /// `(x, y)` are returned. With no edit recorded, or when not running,
    /// nothing changes and `None` is returned.
    pub fn undo_last_move(&mut self) -> (r: Option<(usize, usize)>)
        requires
            old(self).wf(),
        ensures
            final(self).wf(),
            old(self)@.state != GameState::Running || old(self)@.moves.len() == 0 ==> r is None && final(self)@ == old(self)@,
            old(self)@.state == GameState::Running && old(self)@.moves.len() > 0 ==> {
                let v = old(self)@;
                let m = v.moves.last();
                let i = idx(m.x as int, m.y as int);
                r == Some((m.x, m.y)) && final(self)@ == (SudokuView {
                    grid: v.grid.update(i, Cell { value: m.old, ..v.grid[i] }),
                    moves: v.moves.drop_last(),
                    ..v
                })
            },
    {
        if !self.is_running() {
            return None;
        }
        let mv = match self.movements.pop() {
            Some(mv) => mv,
            None => return None,
        };
        proof {
            assert(old(self)@.moves[old(self)@.moves.len() - 1] == mv);
        }
        let i = mv.y * 9 + mv.x;
        let cell = self.grid[i];
        self.grid[i] = Cell { value: mv.old, ..cell };
        Some((mv.x, mv.y))
    }

    /// The player writes `value` at column `x`, row `y`, at clock reading
    /// `now`. Refused (nothing changes) unless the session runs and the cell
    /// is open. Otherwise the edit is recorded for undo, the cell's mark is
    /// cleared, and when every cell then holds the solution's digit the
    /// session is won and its clock stops.
    pub fn update_cell_at(&mut self, x: usize, y: usize, value: u8, now: u64)
        requires
            old(self).wf(),
            value <= 9,
            x < 9,
            y < 9,
        ensures
            final(self).wf(),
            final(self)@ == edited(old(self)@, x, y, value, now),
    {
        if !self.is_running() || !self.writable(x, y) {
            return;
        }
        let i = y * 9 + x;
        let old_value = self.grid[i].value;
        self.grid[i] = Cell { value, locked: false, mark: None };
        self.movements.push(Move { x, y, old: old_value });
        proof {
            let v = old(self)@;
            assert forall|j: int| 0 <= j < 81 implies #[trigger] self@.grid[j].value <= 9 by {
                if j != i {
                    assert(self@.grid[j] == v.grid[j]);
                }
            }
            assert forall|k: int| 0 <= k < self@.moves.len() implies #[trigger] self@.moves[k].x < 9
                && self@.moves[k].y < 9 && self@.moves[k].old <= 9 by {
                if k < v.moves.len() {
                    assert(self@.moves[k] == v.moves[k]);
                }
            }
        }
        if self.is_solved() {
            self.elapsed = self.elapsed_at(now);
            self.state = GameState::Won;
        }
    }

    /// The player writes `value` at column `x`, row `y` now (see
    /// `update_cell_at`).
    pub fn update_cell(&mut self, x: usize, y: usize, value: u8)
        requires
            old(self).wf(),
            value <= 9,
            x < 9,
            y < 9,
        ensures
            final(self).wf(),
            exists|now: u64| final(self)@ == #[trigger] edited(old(self)@, x, y, value, now),
    {
        let now = clock_millis();
        self.update_cell_at(x, y, value, now);
    }

    /// Empties every open cell of a running session; clues, marks and the
    /// budgets stay.
    pub fn clear_board(&mut self)
        requires
            old(self).wf(),
        ensures
            final(self).wf(),
            old(self)@.state != GameState::Running ==> final(self)@ == old(self)@,
            old(self)@.state == GameState::Running ==> final(self)@ == old(self)@.with_grid(
                Seq::new(81, |i: int| cleared_cell(old(self)@.grid[i])),
            ),
    {
        if !self.is_running() {
            return;
        }
        let ghost g = self@.grid;
        let mut i: usize = 0;
        while i < 81
            invariant
                i <= 81,
                self.solution == old(self).solution,
                self.state == old(self).state,
                self@.grid.len() == 81,
                g == old(self)@.grid,
                forall|j: int| 0 <= j < i ==> #[trigger] self@.grid[j] == cleared_cell(g[j]),
                forall|j: int| i <= j < 81 ==> #[trigger] self@.grid[j] == g[j],
                self.movements == old(self).movements,
                self.start == old(self).start,
                self.elapsed == old(self).elapsed,
                self.difficulty == old(self).difficulty,
                self.checks == old(self).checks,
                self.hints == old(self).hints,
            decreases 81 - i,
        {
            let cell = self.grid[i];
            if !cell.locked {
                self.grid[i] = Cell { value: 0, ..cell };
            }
            i += 1;
        }
        assert(self@.grid =~= Seq::new(81, |i: int| cleared_cell(g[i])));
    }

    fn can_check(&self) -> (r: bool)
        ensures
            r == (self@.state == GameState::Running && self@.checks < MAX_CHECKS),
    {
        self.is_running() && self.checks < MAX_CHECKS
    }

    fn can_hint(&self) -> (r: bool)
        ensures
            r == (self@.state == GameState::Running && self@.hints < MAX_HINTS),
    {
        self.is_running() && self.hints < MAX_HINTS
    }
}

} // verus!
