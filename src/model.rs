use vstd::multiset::Multiset;
use vstd::prelude::*;

verus! {

/// Number of cells on the board (a 4 x 4 grid).
pub const CELLS: usize = 16;

/// One cell of the board.
#[derive(Clone, Copy, PartialEq, Eq, Structural, Debug)]
pub struct Tile {
    /// 0 for an empty cell, otherwise the tile's value, a power of two.
    pub power: u32,
    /// Set once this tile has absorbed another one during the current shift.
    pub merged_this_turn: bool,
}

impl Tile {
    pub fn init(power: u32) -> (r: Tile)
        ensures
            r == (Tile { power, merged_this_turn: false }),
    {
        Tile { power, merged_this_turn: false }
    }
}

/// The edge toward which a shift moves the tiles.
#[derive(Clone, Copy, PartialEq, Eq, Structural, Debug)]
pub enum Direction {
    Left,
    Right,
    Up,
    Down,
}

/// Flat index of the cell in column `x` and row `y`.
pub open spec fn index_of(x: int, y: int) -> int {
    y * 4 + x
}

/// The cell of line `line` at distance `k` from the edge that `d` points to.
/// For horizontal shifts a line is a row, for vertical shifts a column.
pub open spec fn cell(d: Direction, line: int, k: int) -> int {
    match d {
        Direction::Left => index_of(k, line),
        Direction::Right => index_of(3 - k, line),
        Direction::Up => index_of(line, k),
        Direction::Down => index_of(line, 3 - k),
    }
}

pub open spec fn in_grid(line: int, k: int) -> bool {
    0 <= line < 4 && 0 <= k < 4
}

pub open spec fn is_power_of_two(n: nat) -> bool
    decreases n,
{
    if n <= 1 {
        n == 1
    } else {
        n % 2 == 0 && is_power_of_two(n / 2)
    }
}

/// A cell holds 0 or 2^n with n >= 1.
pub open spec fn valid_power(p: u32) -> bool {
    p == 0 || (p >= 2 && is_power_of_two(p as nat))
}

/// Sum of all tile values.
pub open spec fn power_sum(b: Seq<Tile>) -> int
    decreases b.len(),
{
    if b.len() == 0 {
        0
    } else {
        power_sum(b.drop_last()) + b.last().power
    }
}

/// Sum of the values of the tiles that carry the merge flag.
pub open spec fn merged_sum(b: Seq<Tile>) -> int
    decreases b.len(),
{
    if b.len() == 0 {
        0
    } else {
        merged_sum(b.drop_last()) + if b.last().merged_this_turn {
            b.last().power as int
        } else {
            0
        }
    }
}

/// Number of occupied cells.
pub open spec fn occupied(b: Seq<Tile>) -> int
    decreases b.len(),
{
    if b.len() == 0 {
        0
    } else {
        occupied(b.drop_last()) + if b.last().power != 0 {
            1int
        } else {
            0
        }
    }
}

pub open spec fn nonzero(p: u32) -> Multiset<u32> {
    if p == 0 {
        Multiset::empty()
    } else {
        Multiset::singleton(p)
    }
}

/// The multiset of the values of the occupied cells.
pub open spec fn tile_values(b: Seq<Tile>) -> Multiset<u32>
    decreases b.len(),
{
    if b.len() == 0 {
        Multiset::empty()
    } else {
        tile_values(b.drop_last()).add(nonzero(b.last().power))
    }
}

/// Where the scan that starts at position `q` of a line and walks toward the
/// edge stops: at the first occupied cell, or at the edge itself.
pub open spec fn stop_at(b: Seq<Tile>, d: Direction, line: int, q: int) -> int
    decreases q,
{
    if q > 0 && b[cell(d, line, q)].power == 0 {
        stop_at(b, d, line, q - 1)
    } else {
        q
    }
}

pub open spec fn blocker(b: Seq<Tile>, d: Direction, line: int, p: int) -> int {
    stop_at(b, d, line, p - 1)
}

/// Whether the tile at position `p` merges into its blocker: both hold the
/// same value and the blocker has not merged yet during this shift.
pub open spec fn can_merge(b: Seq<Tile>, d: Direction, line: int, p: int) -> bool {
    let s = b[cell(d, line, p)];
    let t = b[cell(d, line, blocker(b, d, line, p))];
    t.power != 0 && t.power == s.power && !t.merged_this_turn
}

/// What the tile at position `p` of a line does: 0 it stays, 1 it slides,
/// 2 it merges into the blocker. A tile that cannot merge into its blocker
/// slides up against it.
pub open spec fn step_kind(b: Seq<Tile>, d: Direction, line: int, p: int) -> int {
    let s = b[cell(d, line, p)];
    let q = blocker(b, d, line, p);
    let t = b[cell(d, line, q)];
    if s.power == 0 {
        0
    } else if t.power == 0 {
        1
    } else if can_merge(b, d, line, p) {
        2
    } else if q + 1 != p {
        1
    } else {
        0
    }
}

/// Position the tile at `p` moves to when it slides or merges: the blocker's
/// cell when that is empty or the tile merges there, else the cell next to it.
pub open spec fn step_dest(b: Seq<Tile>, d: Direction, line: int, p: int) -> int {
    let q = blocker(b, d, line, p);
    let t = b[cell(d, line, q)];
    if t.power == 0 || can_merge(b, d, line, p) {
        q
    } else {
        q + 1
    }
}

/// The board after the tile at position `p` of line `line` has been handled.
pub open spec fn step(b: Seq<Tile>, d: Direction, line: int, p: int) -> Seq<Tile> {
    let src = cell(d, line, p);
    let dst = cell(d, line, step_dest(b, d, line, p));
    let s = b[src];
    let t = b[dst];
    let kind = step_kind(b, d, line, p);
    if kind == 1 {
        b.update(dst, Tile { power: s.power, merged_this_turn: t.merged_this_turn }).update(
            src,
            Tile { power: 0, merged_this_turn: s.merged_this_turn },
        )
    } else if kind == 2 {
        b.update(dst, Tile { power: (t.power + s.power) as u32, merged_this_turn: true }).update(
            src,
            Tile { power: 0, merged_this_turn: s.merged_this_turn },
        )
    } else {
        b
    }
}

/// Score that handling the tile at position `p` earns: the merged value.
pub open spec fn step_gain(b: Seq<Tile>, d: Direction, line: int, p: int) -> int {
    if step_kind(b, d, line, p) == 2 {
        2 * b[cell(d, line, p)].power
    } else {
        0
    }
}

/// The shift handles the sources one at a time: the three sources of line 0,
/// nearest to the edge first, then those of line 1, and so on.
pub open spec fn line_of(n: int) -> int {
    n / 3
}

pub open spec fn pos_of(n: int) -> int {
    n % 3 + 1
}

/// The board after the first `n` sources have been handled.
pub open spec fn sweep(b: Seq<Tile>, d: Direction, n: nat) -> Seq<Tile>
    decreases n,
{
    if n == 0 {
        b
    } else {
        let prev = sweep(b, d, (n - 1) as nat);
        step(prev, d, line_of(n - 1), pos_of(n - 1))
    }
}

/// Score earned by the first `n` sources.
pub open spec fn sweep_gain(b: Seq<Tile>, d: Direction, n: nat) -> int
    decreases n,
{
    if n == 0 {
        0
    } else {
        let prev = sweep(b, d, (n - 1) as nat);
        sweep_gain(b, d, (n - 1) as nat) + step_gain(prev, d, line_of(n - 1), pos_of(n - 1))
    }
}

/// Whether one of the first `n` sources moved or merged.
pub open spec fn sweep_changed(b: Seq<Tile>, d: Direction, n: nat) -> bool
    decreases n,
{
    if n == 0 {
        false
    } else {
        let prev = sweep(b, d, (n - 1) as nat);
        sweep_changed(b, d, (n - 1) as nat) || step_kind(prev, d, line_of(n - 1), pos_of(n - 1))
            != 0
    }
}

/// Every merge flag cleared, every value kept.
pub open spec fn cleared(b: Seq<Tile>) -> Seq<Tile> {
    Seq::new(b.len(), |i: int| Tile { power: b[i].power, merged_this_turn: false })
}

/// The board after a whole shift toward `d`.
pub open spec fn shifted(b: Seq<Tile>, d: Direction) -> Seq<Tile> {
    cleared(sweep(b, d, 12))
}

/// Score earned by a whole shift toward `d`.
pub open spec fn shift_gain(b: Seq<Tile>, d: Direction) -> int {
    sweep_gain(b, d, 12)
}

/// Whether a shift toward `d` moves or merges at least one tile.
pub open spec fn shift_changed(b: Seq<Tile>, d: Direction) -> bool {
    sweep_changed(b, d, 12)
}

/// A board as it stands between commands.
pub open spec fn board_ok(b: Seq<Tile>) -> bool {
    &&& b.len() == CELLS
    &&& forall|i: int| 0 <= i < CELLS ==> valid_power(#[trigger] b[i].power)
    &&& forall|i: int| 0 <= i < CELLS ==> !(#[trigger] b[i].merged_this_turn)
    &&& power_sum(b) <= u32::MAX
}

/// No cell is empty and no two orthogonal neighbours hold the same value.
pub open spec fn is_stuck(b: Seq<Tile>) -> bool {
    &&& forall|i: int| 0 <= i < CELLS ==> #[trigger] b[i].power != 0
    &&& forall|x: int, y: int|
        0 <= x < 3 && 0 <= y < 4 ==> #[trigger] b[index_of(x, y)].power != b[index_of(x + 1, y)].power
    &&& forall|x: int, y: int|
        0 <= x < 4 && 0 <= y < 3 ==> #[trigger] b[index_of(x, y)].power != b[index_of(x, y + 1)].power
}

/// Value of a freshly spawned tile for the draw `roll`: 4 one time in ten, else 2.
pub open spec fn initial_power_of(roll: u32) -> u32 {
    if roll % 10 == 0 {
        4
    } else {
        2
    }
}

/// Indices of the empty cells among the first `n`, in increasing order.
pub open spec fn empty_cells(b: Seq<Tile>, n: int) -> Seq<usize>
    decreases n,
{
    if n <= 0 {
        Seq::empty()
    } else if b[n - 1].power == 0 {
        empty_cells(b, n - 1).push((n - 1) as usize)
    } else {
        empty_cells(b, n - 1)
    }
}

pub open spec fn has_empty(b: Seq<Tile>) -> bool {
    exists|i: int| 0 <= i < CELLS && #[trigger] b[i].power == 0
}

/// The board after a tile of value `power` was placed on the cell that `pick`
/// selects among the empty ones; a full board stays as it is.
pub open spec fn spawned(b: Seq<Tile>, pick: u32, power: u32) -> Seq<Tile> {
    let e = empty_cells(b, CELLS as int);
    if e.len() == 0 {
        b
    } else {
        b.update(e[(pick as int) % (e.len() as int)] as int, Tile { power, merged_this_turn: false })
    }
}

/// A board of empty cells but two, holding `p1` at `i1` and `p2` at `i2`.
pub open spec fn two_tiles(i1: int, p1: u32, i2: int, p2: u32) -> Seq<Tile> {
    Seq::new(
        CELLS as nat,
        |i: int|
            if i == i1 {
                Tile { power: p1, merged_this_turn: false }
            } else if i == i2 {
                Tile { power: p2, merged_this_turn: false }
            } else {
                Tile { power: 0, merged_this_turn: false }
            },
    )
}

/// The `j`-th of the three coordinates in 0..4 that differ from `a`.
pub open spec fn other_coord(a: int, j: int) -> int {
    if j < a {
        j
    } else {
        j + 1
    }
}

/// The opening board for the draws: `first` places the first tile, `second`
/// the second one in a column and a row other than the first one's, and the
/// rolls give their values.
pub open spec fn opening_board(first: u32, second: u32, roll1: u32, roll2: u32) -> Seq<Tile> {
    let x1 = first % 4;
    let y1 = (first / 4) % 4;
    let k = second % 9;
    let x2 = other_coord(x1 as int, (k % 3) as int);
    let y2 = other_coord(y1 as int, (k / 3) as int);
    two_tiles(
        index_of(x1 as int, y1 as int),
        initial_power_of(roll1),
        index_of(x2, y2),
        initial_power_of(roll2),
    )
}

/// A board as a new game starts it: two tiles of value 2 or 4, in distinct
/// columns and distinct rows.
pub open spec fn is_opening(b: Seq<Tile>) -> bool {
    exists|x1: int, y1: int, x2: int, y2: int, p1: u32, p2: u32|
        0 <= x1 < 4 && 0 <= y1 < 4 && 0 <= x2 < 4 && 0 <= y2 < 4 && x1 != x2 && y1 != y2 && (p1
            == 2 || p1 == 4) && (p2 == 2 || p2 == 4) && b == #[trigger] two_tiles(
            index_of(x1, y1),
            p1,
            index_of(x2, y2),
            p2,
        )
}

/// The values along the row of cells `a, b, c, d`, left to right, with the
/// empty cells left out.
pub open spec fn packed4(a: u32, b: u32, c: u32, d: u32) -> Seq<u32> {
    nonzero_seq(a) + nonzero_seq(b) + nonzero_seq(c) + nonzero_seq(d)
}

pub open spec fn nonzero_seq(p: u32) -> Seq<u32> {
    if p == 0 {
        Seq::empty()
    } else {
        seq![p]
    }
}

/// No two tiles of the row `a, b, c, d` with only empty cells between them
/// hold the same value.
pub open spec fn mergeless4(a: u32, b: u32, c: u32, d: u32) -> bool {
    &&& (a != 0 && b != 0 ==> a != b)
    &&& (b != 0 && c != 0 ==> b != c)
    &&& (c != 0 && d != 0 ==> c != d)
    &&& (a != 0 && b == 0 && c != 0 ==> a != c)
    &&& (b != 0 && c == 0 && d != 0 ==> b != d)
    &&& (a != 0 && b == 0 && c == 0 && d != 0 ==> a != d)
}

/// The tile values of row `y`, left to right.
pub open spec fn row_packed(b: Seq<Tile>, y: int) -> Seq<u32> {
    packed4(
        b[index_of(0, y)].power,
        b[index_of(1, y)].power,
        b[index_of(2, y)].power,
        b[index_of(3, y)].power,
    )
}

/// No shift along row `y` can merge two of its tiles.
pub open spec fn row_mergeless(b: Seq<Tile>, y: int) -> bool {
    mergeless4(
        b[index_of(0, y)].power,
        b[index_of(1, y)].power,
        b[index_of(2, y)].power,
        b[index_of(3, y)].power,
    )
}

} // verus!
