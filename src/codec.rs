//! The byte snapshot of a session: each cell as its digit and a flag byte,
//! the solution, the level as a four-byte index, the seconds played as a
//! little-endian `u64`, then the checks and hints used. 257 bytes in all.
use vstd::prelude::*;
use crate::session::{Cell, Difficulty};

verus! {

/// Length of a snapshot.
pub const SNAPSHOT_LEN: usize = 257;

const FLAG_CHECKED: u8 = 1;
const FLAG_CORRECT: u8 = 2;
const FLAG_WRITABLE: u8 = 4;

/// What a snapshot holds.
pub struct Snapshot {
    pub grid: [Cell; 81],
    pub solution: [u8; 81],
    pub difficulty: Difficulty,
    pub elapsed_secs: u64,
    pub checks: u8,
    pub hints: u8,
}

/// What a snapshot holds, as the contracts see it.
pub struct SnapshotView {
    pub grid: Seq<Cell>,
    pub solution: Seq<u8>,
    pub difficulty: Difficulty,
    pub elapsed_secs: u64,
    pub checks: u8,
    pub hints: u8,
}

impl View for Snapshot {
    type V = SnapshotView;

    open spec fn view(&self) -> SnapshotView {
        SnapshotView {
            grid: self.grid@,
            solution: self.solution@,
            difficulty: self.difficulty,
            elapsed_secs: self.elapsed_secs,
            checks: self.checks,
            hints: self.hints,
        }
    }
}

/// Why `b` holds no snapshot, when it holds none.
pub open spec fn decode_error(b: Seq<u8>) -> DecodeError {
    if b.len() != 257 {
        DecodeError::Length
    } else if !cells_ok(b) || !solution_ok(b) {
        DecodeError::Digit
    } else {
        DecodeError::Difficulty
    }
}

/// Why bytes are no snapshot.
#[derive(Clone, Copy, Debug, PartialEq, Eq, Structural)]
pub enum DecodeError {
    /// Not 257 bytes long.
    Length,
    /// A digit of the grid or of the solution is over 9, or a cell's flag
    /// byte is not one that a cell can have.
    Digit,
    /// The level index is not one of the four levels.
    Difficulty,
}

/// The flag byte of a cell: verified, found correct, open to the player.
pub open spec fn cell_flags(c: Cell) -> u8 {
    ((if c.mark is Some { 1int } else { 0 }) + (if c.mark == Some(true) { 2int } else { 0 }) + (if !c.locked { 4int } else { 0 })) as u8
}

/// The flag bytes that some cell has: "correct" comes only with "verified".
pub open spec fn flags_ok(f: u8) -> bool {
    f == 0 || f == 1 || f == 3 || f == 4 || f == 5 || f == 7
}

/// The cell of a digit and a flag byte.
pub open spec fn cell_of(value: u8, f: u8) -> Cell {
    Cell {
        value,
        locked: f < 4,
        mark: if f % 4 == 0 { None } else { Some(f % 4 == 3) },
    }
}

pub open spec fn difficulty_index(d: Difficulty) -> u8 {
    match d {
        Difficulty::Easy => 0,
        Difficulty::Medium => 1,
        Difficulty::Hard => 2,
        Difficulty::Expert => 3,
    }
}

pub open spec fn difficulty_of(i: u8) -> Difficulty {
    if i == 0 {
        Difficulty::Easy
    } else if i == 1 {
        Difficulty::Medium
    } else if i == 2 {
        Difficulty::Hard
    } else {
        Difficulty::Expert
    }
}

/// The eight little-endian bytes of `x`.
pub open spec fn u64_bytes(x: u64) -> Seq<u8> {
    seq![
        (x & 0xff) as u8,
        ((x >> 8u64) & 0xff) as u8,
        ((x >> 16u64) & 0xff) as u8,
        ((x >> 24u64) & 0xff) as u8,
        ((x >> 32u64) & 0xff) as u8,
        ((x >> 40u64) & 0xff) as u8,
        ((x >> 48u64) & 0xff) as u8,
        ((x >> 56u64) & 0xff) as u8,
    ]
}

/// The `u64` of the eight little-endian bytes of `b` from `o` on.
pub open spec fn u64_at(b: Seq<u8>, o: int) -> u64 {
    (b[o] as u64) | ((b[o + 1] as u64) << 8u64) | ((b[o + 2] as u64) << 16u64) | ((b[o + 3] as u64) << 24u64)
        | ((b[o + 4] as u64) << 32u64) | ((b[o + 5] as u64) << 40u64) | ((b[o + 6] as u64) << 48u64)
        | ((b[o + 7] as u64) << 56u64)
}

/// A snapshot that can be written: 81 cells and 81 solution digits, all
/// digits up to 9.
pub open spec fn encodable(s: SnapshotView) -> bool {
    &&& s.grid.len() == 81
    &&& s.solution.len() == 81
    &&& forall|i: int| 0 <= i < 81 ==> #[trigger] s.grid[i].value <= 9
    &&& forall|i: int| 0 <= i < 81 ==> #[trigger] s.solution[i] <= 9
}

/// The bytes of a snapshot.
pub open spec fn encode(s: SnapshotView) -> Seq<u8> {
    Seq::new(162, |j: int| if j % 2 == 0 { s.grid[j / 2].value } else { cell_flags(s.grid[j / 2]) })
        + s.solution
        + seq![difficulty_index(s.difficulty), 0u8, 0u8, 0u8]
        + u64_bytes(s.elapsed_secs)
        + seq![s.checks, s.hints]
}

/// Cell `i` of the bytes has a digit up to 9 and a flag byte that a cell can have.
pub open spec fn cell_ok(b: Seq<u8>, i: int) -> bool {
    b[2 * i] <= 9 && flags_ok(b[2 * i + 1])
}

/// The cells of the bytes are well formed.
pub open spec fn cells_ok(b: Seq<u8>) -> bool {
    forall|i: int| 0 <= i < 81 ==> #[trigger] cell_ok(b, i)
}

/// The solution bytes are digits up to 9.
pub open spec fn solution_ok(b: Seq<u8>) -> bool {
    forall|i: int| 162 <= i < 243 ==> #[trigger] b[i] <= 9
}

/// The level bytes name a level.
pub open spec fn difficulty_ok(b: Seq<u8>) -> bool {
    b[243] < 4 && b[244] == 0 && b[245] == 0 && b[246] == 0
}

/// The snapshot that bytes hold, if they hold one.
pub open spec fn decode(b: Seq<u8>) -> Option<SnapshotView> {
    if b.len() == 257 && cells_ok(b) && solution_ok(b) && difficulty_ok(b) {
        Some(
            SnapshotView {
                grid: Seq::new(81, |i: int| cell_of(b[2 * i], b[2 * i + 1])),
                solution: b.subrange(162, 243),
                difficulty: difficulty_of(b[243]),
                elapsed_secs: u64_at(b, 247),
                checks: b[255],
                hints: b[256],
            },
        )
    } else {
        None
    }
}

proof fn lemma_cell_round_trip(c: Cell)
    ensures
        flags_ok(cell_flags(c)),
        cell_of(c.value, cell_flags(c)) == c,
{
    match c.mark {
        Some(true) => {},
        Some(false) => {},
        None => {},
    }
}

proof fn lemma_u64_round_trip(x: u64)
    ensures
        u64_at(u64_bytes(x), 0) == x,
{
    let b = u64_bytes(x);
    assert(((x & 0xff) as u8 as u64) | ((((x >> 8u64) & 0xff) as u8 as u64) << 8u64) | ((((x >> 16u64) & 0xff) as u8 as u64) << 16u64)
        | ((((x >> 24u64) & 0xff) as u8 as u64) << 24u64) | ((((x >> 32u64) & 0xff) as u8 as u64) << 32u64)
        | ((((x >> 40u64) & 0xff) as u8 as u64) << 40u64) | ((((x >> 48u64) & 0xff) as u8 as u64) << 48u64)
        | ((((x >> 56u64) & 0xff) as u8 as u64) << 56u64) == x) by (bit_vector);
}

/// Decoding the bytes of a snapshot gives the snapshot back.
pub proof fn lemma_round_trip(s: SnapshotView)
    requires
        encodable(s),
    ensures
        decode(encode(s)) == Some(s),
{
    let b = encode(s);
    assert(b.len() == 257);
    assert forall|i: int| 0 <= i < 81 implies #[trigger] b[2 * i] == s.grid[i].value && b[2 * i + 1] == cell_flags(s.grid[i]) by {
        assert((2 * i) % 2 == 0 && (2 * i) / 2 == i);
        assert((2 * i + 1) % 2 == 1 && (2 * i + 1) / 2 == i);
    }
    assert forall|i: int| 0 <= i < 81 implies #[trigger] cell_ok(b, i) && cell_of(b[2 * i], b[2 * i + 1]) == s.grid[i] by {
        lemma_cell_round_trip(s.grid[i]);
    }
    assert forall|i: int| 0 <= i < 81 implies cell_of(b[2 * i], b[2 * i + 1]) == #[trigger] s.grid[i] by {
        assert(cell_ok(b, i));
    }
    assert(cells_ok(b));
    assert forall|i: int| 162 <= i < 243 implies #[trigger] b[i] <= 9 by {
        assert(b[i] == s.solution[i - 162]);
    }
    assert(b.subrange(162, 243) =~= s.solution);
    assert(b.subrange(247, 255) =~= u64_bytes(s.elapsed_secs));
    lemma_u64_round_trip(s.elapsed_secs);
    assert(u64_at(b, 247) == u64_at(u64_bytes(s.elapsed_secs), 0));
    let t = decode(b).unwrap();
    assert(t.grid =~= s.grid);
}

fn flags_of(c: Cell) -> (r: u8)
    ensures
        r == cell_flags(c),
{
    let mut f: u8 = 0;
    if c.mark.is_some() {
        f = f + FLAG_CHECKED;
    }
    if c.mark == Some(true) {
        f = f + FLAG_CORRECT;
    }
    if !c.locked {
        f = f + FLAG_WRITABLE;
    }
    f
}

/// The bytes of a snapshot.
pub fn encode_snapshot(s: &Snapshot) -> (r: Vec<u8>)
    ensures
        r@ == encode(s@),
{
    let mut out: Vec<u8> = Vec::new();
    let mut i: usize = 0;
    while i < 81
        invariant
            i <= 81,
            out@.len() == 2 * i,
            forall|j: int| 0 <= j < 2 * i ==> #[trigger] out@[j] == (if j % 2 == 0 { s.grid@[j / 2].value } else { cell_flags(s.grid@[j / 2]) }),
        decreases 81 - i,
    {
        let c = s.grid[i];
        out.push(c.value);
        out.push(flags_of(c));
        i += 1;
    }
    let mut i: usize = 0;
    while i < 81
        invariant
            i <= 81,
            out@.len() == 162 + i,
            forall|j: int| 0 <= j < 162 ==> #[trigger] out@[j] == (if j % 2 == 0 { s.grid@[j / 2].value } else { cell_flags(s.grid@[j / 2]) }),
            forall|j: int| 162 <= j < 162 + i ==> #[trigger] out@[j] == s.solution@[j - 162],
        decreases 81 - i,
    {
        out.push(s.solution[i]);
        i += 1;
    }
    let d: u8 = match s.difficulty {
        Difficulty::Easy => 0,
        Difficulty::Medium => 1,
        Difficulty::Hard => 2,
        Difficulty::Expert => 3,
    };
    out.push(d);
    out.push(0);
    out.push(0);
    out.push(0);
    let x = s.elapsed_secs;
    out.push((x & 0xff) as u8);
    out.push(((x >> 8u64) & 0xff) as u8);
    out.push(((x >> 16u64) & 0xff) as u8);
    out.push(((x >> 24u64) & 0xff) as u8);
    out.push(((x >> 32u64) & 0xff) as u8);
    out.push(((x >> 40u64) & 0xff) as u8);
    out.push(((x >> 48u64) & 0xff) as u8);
    out.push(((x >> 56u64) & 0xff) as u8);
    out.push(s.checks);
    out.push(s.hints);
    assert(out@ =~= encode(s@));
    out
}

/// The snapshot that `bytes` hold, or why they hold none: a wrong length
/// first, then a bad cell, then a bad level.
pub fn decode_snapshot(bytes: &[u8]) -> (r: Result<Snapshot, DecodeError>)
    ensures
        match r {
            Ok(s) => decode(bytes@) == Some(s@),
            Err(e) => decode(bytes@) is None && e == decode_error(bytes@),
        },
{
    if bytes.len() != SNAPSHOT_LEN {
        return Err(DecodeError::Length);
    }
    let mut grid = [Cell { value: 0, locked: true, mark: None }; 81];
    let mut i: usize = 0;
    while i < 81
        invariant
            i <= 81,
            bytes@.len() == 257,
            grid@.len() == 81,
            forall|j: int| 0 <= j < i ==> #[trigger] cell_ok(bytes@, j),
            forall|j: int| 0 <= j < i ==> #[trigger] grid@[j] == cell_of(bytes@[2 * j], bytes@[2 * j + 1]),
        decreases 81 - i,
    {
        let value = bytes[2 * i];
        let f = bytes[2 * i + 1];
        if value > 9 || !(f == 0 || f == 1 || f == 3 || f == 4 || f == 5 || f == 7) {
            assert(!cell_ok(bytes@, i as int));
            assert(!cells_ok(bytes@)) by {
                if cells_ok(bytes@) {
                    assert(cell_ok(bytes@, i as int));
                }
            }
            assert(decode(bytes@) is None);
            return Err(DecodeError::Digit);
        }
        let low = f % 4;
        let mark = if low == 0 {
            None
        } else {
            Some(low == 3)
        };
        grid[i] = Cell { value, locked: f < 4, mark };
        i += 1;
    }
    let mut solution = [0u8; 81];
    let mut i: usize = 0;
    while i < 81
        invariant
            i <= 81,
            bytes@.len() == 257,
            solution@.len() == 81,
            cells_ok(bytes@),
            forall|j: int| 0 <= j < i ==> #[trigger] solution@[j] == bytes@[162 + j],
            forall|j: int| 162 <= j < 162 + i ==> #[trigger] bytes@[j] <= 9,
        decreases 81 - i,
    {
        if bytes[162 + i] > 9 {
            return Err(DecodeError::Digit);
        }
        solution[i] = bytes[162 + i];
        i += 1;
    }
    if !(bytes[243] < 4 && bytes[244] == 0 && bytes[245] == 0 && bytes[246] == 0) {
        return Err(DecodeError::Difficulty);
    }
    let difficulty = if bytes[243] == 0 {
        Difficulty::Easy
    } else if bytes[243] == 1 {
        Difficulty::Medium
    } else if bytes[243] == 2 {
        Difficulty::Hard
    } else {
        Difficulty::Expert
    };
    let elapsed_secs = (bytes[247] as u64) | ((bytes[248] as u64) << 8u64) | ((bytes[249] as u64) << 16u64) | ((bytes[250] as u64)
        << 24u64) | ((bytes[251] as u64) << 32u64) | ((bytes[252] as u64) << 40u64) | ((bytes[253] as u64) << 48u64) | ((bytes[254] as u64)
        << 56u64);
    let s = Snapshot { grid, solution, difficulty, elapsed_secs, checks: bytes[255], hints: bytes[256] };
    assert(s@.grid =~= Seq::new(81, |i: int| cell_of(bytes@[2 * i], bytes@[2 * i + 1])));
    assert(s@.solution =~= bytes@.subrange(162, 243));
    Ok(s)
}

} // verus!
