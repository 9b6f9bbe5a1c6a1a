use vstd::prelude::*;
use crate::model::{
    empty_cells, has_empty, initial_power_of, is_opening, opening_board, spawned, two_tiles,
    board_ok, cell, cleared, index_of, is_stuck, power_sum, shift_changed, shift_gain, shifted,
    step, step_gain, step_kind, stop_at, sweep, sweep_changed, sweep_gain, Direction, Tile, CELLS,
};
use crate::laws::{lemma_changed_iff_board_differs, lemma_shift_conserves, lemma_shift_packs};
use crate::proofs::{
    lemma_cell, lemma_cleared, lemma_empty_cells, lemma_prefix_sum, lemma_spawn, lemma_stop, lemma_sweep,
    lemma_two_tiles,
};

verus! {

/// The whole state of one game.
pub struct GameState {
    pub score_current: u32,
    /// Best score of the earlier games of this process.
    pub score_best: u32,
    /// The cells, row by row: column `x` of row `y` is at `y * 4 + x`.
    pub field: Vec<Tile>,
    /// Whether the most recent shift moved or merged a tile.
    pub changed_this_turn: bool,
}

/// Relies on rand::random: a u32 drawn from the thread-local generator.
/// Nothing is assumed of its value.
#[verifier::external_body]
fn random_u32() -> (r: u32) {
    rand::random::<u32>()
}

/// Value of a new tile for the draw `roll`: 4 when `roll` is a multiple of
/// ten, else 2.
pub fn initial_power(roll: u32) -> (r: u32)
    ensures
        r == initial_power_of(roll),
{
    if roll % 10 == 0 {
        4
    } else {
        2
    }
}

/// Draws the value of a new tile.
fn get_initial_pow() -> (r: u32)
    ensures
        r == 2 || r == 4,
{
    initial_power(random_u32())
}

/// Index of the cell of line `line` at distance `k` from the edge `d` points to.
fn cell_index(d: Direction, line: usize, k: usize) -> (r: usize)
    requires
        line < 4,
        k < 4,
    ensures
        r == cell(d, line as int, k as int),
        r < CELLS,
{
    match d {
        Direction::Left => line * 4 + k,
        Direction::Right => line * 4 + (3 - k),
        Direction::Up => k * 4 + line,
        Direction::Down => (3 - k) * 4 + line,
    }
}

impl GameState {
    /// The state as it stands between commands.
    pub open spec fn wf(&self) -> bool {
        board_ok(self.field@)
    }

    /// A new game for the given draws, as `opening_board` describes it.
    pub fn start(first: u32, second: u32, roll1: u32, roll2: u32) -> (r: GameState)
        ensures
            r.field@ == opening_board(first, second, roll1, roll2),
            is_opening(r.field@),
            r.wf(),
            r.score_current == 0,
            r.score_best == 0,
            !r.changed_this_turn,
    {
        let x1 = first % 4;
        let y1 = (first / 4) % 4;
        let k = second % 9;
        let x2 = if k % 3 < x1 {
            k % 3
        } else {
            k % 3 + 1
        };
        let y2 = if k / 3 < y1 {
            k / 3
        } else {
            k / 3 + 1
        };
        let i1 = (y1 * 4 + x1) as usize;
        let i2 = (y2 * 4 + x2) as usize;
        let p1 = initial_power(roll1);
        let p2 = initial_power(roll2);
        let ghost board = two_tiles(i1 as int, p1, i2 as int, p2);
        let mut field: Vec<Tile> = Vec::new();
        let mut i: usize = 0;
        while i < CELLS
            invariant
                i <= CELLS,
                board.len() == CELLS,
                board == two_tiles(i1 as int, p1, i2 as int, p2),
                field@ == board.subrange(0, i as int),
            decreases CELLS - i,
        {
            if i == i1 {
                field.push(Tile::init(p1));
            } else if i == i2 {
                field.push(Tile::init(p2));
            } else {
                field.push(Tile::init(0));
            }
            assert(field@ =~= board.subrange(0, i + 1));
            i = i + 1;
        }
        proof {
            assert(field@ =~= board);
            lemma_two_tiles(i1 as int, p1, i2 as int, p2);
            assert(field@ == two_tiles(
                index_of(x1 as int, y1 as int),
                p1,
                index_of(x2 as int, y2 as int),
                p2,
            ));
        }
        GameState { score_current: 0, score_best: 0, field, changed_this_turn: false }
    }

    /// A new game: two tiles of value 2 or 4 (4 one time in ten) on random
    /// cells in distinct columns and distinct rows.
    pub fn init() -> (r: GameState)
        ensures
            is_opening(r.field@),
            r.wf(),
            r.score_current == 0,
            r.score_best == 0,
            !r.changed_this_turn,
    {
        let first = random_u32();
        let second = random_u32();
        let roll1 = random_u32();
        let roll2 = random_u32();
        GameState::start(first, second, roll1, roll2)
    }

    /// A new game that keeps the best score seen so far.
    pub fn restart(&self) -> (r: GameState)
        ensures
            r.score_best == if self.score_best < self.score_current {
                self.score_current
            } else {
                self.score_best
            },
            r.score_current == 0,
            !r.changed_this_turn,
            is_opening(r.field@),
            r.wf(),
    {
        let mut empty_state = GameState::init();
        if self.score_best < self.score_current {
            empty_state.score_best = self.score_current;
        } else {
            empty_state.score_best = self.score_best;
        }
        empty_state
    }

    /// Sum of the values on the board.
    pub fn total_power(&self) -> (r: u32)
        requires
            self.wf(),
        ensures
            r == power_sum(self.field@),
    {
        let mut sum: u32 = 0;
        let mut i: usize = 0;
        while i < CELLS
            invariant
                i <= CELLS,
                self.wf(),
                sum == power_sum(self.field@.subrange(0, i as int)),
            decreases CELLS - i,
        {
            proof {
                let pre = self.field@.subrange(0, i as int + 1);
                assert(pre.drop_last() =~= self.field@.subrange(0, i as int));
                lemma_prefix_sum(self.field@, i as int + 1);
            }
            sum = sum + self.field[i].power;
            i = i + 1;
        }
        assert(self.field@.subrange(0, CELLS as int) =~= self.field@);
        sum
    }

    /// Places a tile of value `initial_power(roll)` on the empty cell that
    /// `pick` selects: the `pick % m`-th of the `m` empty cells in index order.
    /// A full board is left as it is.
    pub fn place_tile(&mut self, pick: u32, roll: u32)
        requires
            old(self).wf(),
            power_sum(old(self).field@) + 4 <= u32::MAX,
        ensures
            final(self).field@ == spawned(old(self).field@, pick, initial_power_of(roll)),
            final(self).wf(),
            final(self).score_current == old(self).score_current,
            final(self).score_best == old(self).score_best,
            final(self).changed_this_turn == old(self).changed_this_turn,
    {
        let ghost b = self.field@;
        proof {
            lemma_empty_cells(b, CELLS as int);
            lemma_spawn(b, pick, initial_power_of(roll));
        }
        let mut empty: Vec<usize> = Vec::new();
        let mut i: usize = 0;
        while i < CELLS
            invariant
                i <= CELLS,
                self.field@ == b,
                b.len() == CELLS,
                empty@ == empty_cells(b, i as int),
            decreases CELLS - i,
        {
            if self.field[i].power == 0 {
                empty.push(i);
            }
            i = i + 1;
        }
        if empty.len() == 0 {
            return ;
        }
        let at = empty[(pick as usize) % empty.len()];
        self.field.set(at, Tile::init(initial_power(roll)));
    }

    /// Places a fresh tile on a random empty cell; a full board is left as
    /// it is.
    pub fn add_tile(&mut self)
        requires
            old(self).wf(),
            power_sum(old(self).field@) + 4 <= u32::MAX,
        ensures
            final(self).wf(),
            !has_empty(old(self).field@) ==> final(self).field@ == old(self).field@,
            has_empty(old(self).field@) ==> exists|i: int, p: u32|
                0 <= i < CELLS && old(self).field@[i].power == 0 && (p == 2 || p == 4)
                    && final(self).field@ == #[trigger] old(self).field@.update(
                    i,
                    Tile { power: p, merged_this_turn: false },
                ),
            final(self).score_current == old(self).score_current,
            final(self).score_best == old(self).score_best,
            final(self).changed_this_turn == old(self).changed_this_turn,
    {
        let pick = random_u32();
        let roll = random_u32();
        proof {
            lemma_spawn(self.field@, pick, initial_power_of(roll));
        }
        self.place_tile(pick, roll);
    }

    /// Handles the tile at position `p` of line `line`: it slides toward the
    /// edge, merges into the tile that blocks it, or stays.
    fn handle_tile(&mut self, d: Direction, line: usize, p: usize)
        requires
            old(self).field.len() == CELLS,
            line < 4,
            1 <= p < 4,
            old(self).score_current + step_gain(old(self).field@, d, line as int, p as int)
                <= u32::MAX,
        ensures
            final(self).field@ == step(old(self).field@, d, line as int, p as int),
            final(self).score_current == old(self).score_current + step_gain(
                old(self).field@,
                d,
                line as int,
                p as int,
            ),
            final(self).changed_this_turn == (old(self).changed_this_turn || step_kind(
                old(self).field@,
                d,
                line as int,
                p as int,
            ) != 0),
            final(self).score_best == old(self).score_best,
    {
        let ghost b = self.field@;
        proof {
            lemma_cell(d);
            lemma_stop(b, d, line as int, p - 1);
        }
        let src = cell_index(d, line, p);
        let s = self.field[src];
        if s.power == 0 {
            return ;
        }
        let mut q: usize = p - 1;
        while q > 0 && self.field[cell_index(d, line, q)].power == 0
            invariant
                q < p,
                line < 4,
                p < 4,
                self.field@ == b,
                b.len() == CELLS,
                stop_at(b, d, line as int, q as int) == stop_at(b, d, line as int, p - 1),
            decreases q,
        {
            q = q - 1;
        }
        let dst = cell_index(d, line, q);
        let t = self.field[dst];
        if t.power == 0 {
            self.field.set(dst, Tile { power: s.power, merged_this_turn: t.merged_this_turn });
            self.field.set(src, Tile { power: 0, merged_this_turn: s.merged_this_turn });
            self.changed_this_turn = true;
        } else if t.power == s.power && !t.merged_this_turn {
            let merged = t.power + s.power;
            self.field.set(dst, Tile { power: merged, merged_this_turn: true });
            self.field.set(src, Tile { power: 0, merged_this_turn: s.merged_this_turn });
            self.score_current = self.score_current + merged;
            self.changed_this_turn = true;
        } else if q + 1 != p {
            let next = cell_index(d, line, q + 1);
            let u = self.field[next];
            self.field.set(next, Tile { power: s.power, merged_this_turn: u.merged_this_turn });
            self.field.set(src, Tile { power: 0, merged_this_turn: s.merged_this_turn });
            self.changed_this_turn = true;
        }
    }

    /// Slides and merges every tile toward the edge `d` points to, then
    /// clears every merge flag. Each merge adds the merged value to the
    /// score; the score and the values on the board must leave room for that
    /// in a `u32`.
    pub fn shift(&mut self, d: Direction)
        requires
            old(self).wf(),
            old(self).score_current + power_sum(old(self).field@) <= u32::MAX,
        ensures
            final(self).field@ == shifted(old(self).field@, d),
            final(self).score_current == old(self).score_current + shift_gain(old(self).field@, d),
            final(self).changed_this_turn == shift_changed(old(self).field@, d),
            forall|l: int, k1: int, k2: int|
                0 <= l < 4 && 0 <= k1 < k2 < 4 && #[trigger] final(self).field@[cell(d, l, k2)].power
                    != 0 ==> #[trigger] final(self).field@[cell(d, l, k1)].power != 0,
            final(self).changed_this_turn <==> exists|i: int|
                0 <= i < CELLS && #[trigger] final(self).field@[i].power != old(self).field@[i].power,
            final(self).score_best == old(self).score_best,
            final(self).wf(),
            forall|i: int| 0 <= i < CELLS ==> !(#[trigger] final(self).field@[i].merged_this_turn),
    {
        proof {
            lemma_changed_iff_board_differs(self.field@, d);
            lemma_shift_packs(self.field@, d);
        }
        self.changed_this_turn = false;
        let ghost b0 = self.field@;
        let ghost score0 = self.score_current;
        let mut n: usize = 0;
        while n < 12
            invariant
                n <= 12,
                board_ok(b0),
                score0 + power_sum(b0) <= u32::MAX,
                self.field@ == sweep(b0, d, n as nat),
                self.score_current == score0 + sweep_gain(b0, d, n as nat),
                self.changed_this_turn == sweep_changed(b0, d, n as nat),
                self.score_best == old(self).score_best,
            decreases 12 - n,
        {
            proof {
                lemma_sweep(b0, d, n as nat);
                lemma_sweep(b0, d, (n + 1) as nat);
            }
            self.handle_tile(d, n / 3, n % 3 + 1);
            n = n + 1;
        }
        proof {
            lemma_sweep(b0, d, 12);
            lemma_cleared(sweep(b0, d, 12));
        }
        self.clear_merge_flags();
        proof {
            assert forall|l: int, k1: int, k2: int|
                0 <= l < 4 && 0 <= k1 < k2 < 4 && #[trigger] self.field@[cell(d, l, k2)].power != 0
                    implies #[trigger] self.field@[cell(d, l, k1)].power != 0 by {
                assert(shifted(b0, d)[cell(d, l, k2)].power != 0);
            }
            if self.changed_this_turn {
                let i = choose|i: int|
                    0 <= i < CELLS && #[trigger] shifted(b0, d)[i].power != b0[i].power;
                assert(self.field@[i].power != b0[i].power);
            } else {
                assert forall|i: int| 0 <= i < CELLS implies #[trigger] self.field@[i].power
                    == b0[i].power by {
                    assert(shifted(b0, d)[i].power == b0[i].power);
                }
            }
        }
    }

    /// Shift toward column 0.
    pub fn shift_left(&mut self)
        requires
            old(self).wf(),
            old(self).score_current + power_sum(old(self).field@) <= u32::MAX,
        ensures
            final(self).field@ == shifted(old(self).field@, Direction::Left),
            final(self).score_current == old(self).score_current + shift_gain(
                old(self).field@,
                Direction::Left,
            ),
            final(self).changed_this_turn == shift_changed(old(self).field@, Direction::Left),
            forall|l: int, k1: int, k2: int|
                0 <= l < 4 && 0 <= k1 < k2 < 4 && #[trigger] final(self).field@[cell(Direction::Left, l, k2)].power
                    != 0 ==> #[trigger] final(self).field@[cell(Direction::Left, l, k1)].power != 0,
            final(self).changed_this_turn <==> exists|i: int|
                0 <= i < CELLS && #[trigger] final(self).field@[i].power != old(self).field@[i].power,
            final(self).score_best == old(self).score_best,
            final(self).wf(),
            forall|i: int| 0 <= i < CELLS ==> !(#[trigger] final(self).field@[i].merged_this_turn),
    {
        self.shift(Direction::Left);
    }

    /// Shift toward column 3.
    pub fn shift_right(&mut self)
        requires
            old(self).wf(),
            old(self).score_current + power_sum(old(self).field@) <= u32::MAX,
        ensures
            final(self).field@ == shifted(old(self).field@, Direction::Right),
            final(self).score_current == old(self).score_current + shift_gain(
                old(self).field@,
                Direction::Right,
            ),
            final(self).changed_this_turn == shift_changed(old(self).field@, Direction::Right),
            forall|l: int, k1: int, k2: int|
                0 <= l < 4 && 0 <= k1 < k2 < 4 && #[trigger] final(self).field@[cell(Direction::Right, l, k2)].power
                    != 0 ==> #[trigger] final(self).field@[cell(Direction::Right, l, k1)].power != 0,
            final(self).changed_this_turn <==> exists|i: int|
                0 <= i < CELLS && #[trigger] final(self).field@[i].power != old(self).field@[i].power,
            final(self).score_best == old(self).score_best,
            final(self).wf(),
            forall|i: int| 0 <= i < CELLS ==> !(#[trigger] final(self).field@[i].merged_this_turn),
    {
        self.shift(Direction::Right);
    }

    /// Shift toward row 0.
    pub fn shift_up(&mut self)
        requires
            old(self).wf(),
            old(self).score_current + power_sum(old(self).field@) <= u32::MAX,
        ensures
            final(self).field@ == shifted(old(self).field@, Direction::Up),
            final(self).score_current == old(self).score_current + shift_gain(
                old(self).field@,
                Direction::Up,
            ),
            final(self).changed_this_turn == shift_changed(old(self).field@, Direction::Up),
            forall|l: int, k1: int, k2: int|
                0 <= l < 4 && 0 <= k1 < k2 < 4 && #[trigger] final(self).field@[cell(Direction::Up, l, k2)].power
                    != 0 ==> #[trigger] final(self).field@[cell(Direction::Up, l, k1)].power != 0,
            final(self).changed_this_turn <==> exists|i: int|
                0 <= i < CELLS && #[trigger] final(self).field@[i].power != old(self).field@[i].power,
            final(self).score_best == old(self).score_best,
            final(self).wf(),
            forall|i: int| 0 <= i < CELLS ==> !(#[trigger] final(self).field@[i].merged_this_turn),
    {
        self.shift(Direction::Up);
    }

    /// Shift toward row 3.
    pub fn shift_down(&mut self)
        requires
            old(self).wf(),
            old(self).score_current + power_sum(old(self).field@) <= u32::MAX,
        ensures
            final(self).field@ == shifted(old(self).field@, Direction::Down),
            final(self).score_current == old(self).score_current + shift_gain(
                old(self).field@,
                Direction::Down,
            ),
            final(self).changed_this_turn == shift_changed(old(self).field@, Direction::Down),
            forall|l: int, k1: int, k2: int|
                0 <= l < 4 && 0 <= k1 < k2 < 4 && #[trigger] final(self).field@[cell(Direction::Down, l, k2)].power
                    != 0 ==> #[trigger] final(self).field@[cell(Direction::Down, l, k1)].power != 0,
            final(self).changed_this_turn <==> exists|i: int|
                0 <= i < CELLS && #[trigger] final(self).field@[i].power != old(self).field@[i].power,
            final(self).score_best == old(self).score_best,
            final(self).wf(),
            forall|i: int| 0 <= i < CELLS ==> !(#[trigger] final(self).field@[i].merged_this_turn),
    {
        self.shift(Direction::Down);
    }

    fn clear_merge_flags(&mut self)
        ensures
            final(self).field@ == cleared(old(self).field@),
            final(self).score_current == old(self).score_current,
            final(self).score_best == old(self).score_best,
            final(self).changed_this_turn == old(self).changed_this_turn,
    {
        let ghost b = self.field@;
        let mut i: usize = 0;
        while i < self.field.len()
            invariant
                self.field.len() == b.len(),
                i <= b.len(),
                forall|j: int|
                    0 <= j < i ==> #[trigger] self.field@[j] == (Tile {
                        power: b[j].power,
                        merged_this_turn: false,
                    }),
                forall|j: int| i <= j < b.len() ==> #[trigger] self.field@[j] == b[j],
                self.score_current == old(self).score_current,
                self.score_best == old(self).score_best,
                self.changed_this_turn == old(self).changed_this_turn,
            decreases b.len() - i,
        {
            let t = self.field[i];
            self.field.set(i, Tile { power: t.power, merged_this_turn: false });
            i = i + 1;
        }
        assert(self.field@ =~= cleared(b));
    }

    /// One directional command: shift toward `d`; if that changed the board,
    /// spawn a tile and clear the change flag; then, if no move is left, start
    /// a new game that keeps the best score.
    pub fn take_turn(&mut self, d: Direction)
        requires
            old(self).wf(),
            old(self).score_current + power_sum(old(self).field@) + 4 <= u32::MAX,
        ensures
            final(self).wf(),
            !final(self).changed_this_turn,
            ({
                let s = shifted(old(self).field@, d);
                let score = old(self).score_current + shift_gain(old(self).field@, d);
                let changed = shift_changed(old(self).field@, d);
                exists|mid: Seq<Tile>|
                    {
                        &&& #[trigger] board_ok(mid)
                        &&& !changed ==> mid == s
                        &&& changed && !has_empty(s) ==> mid == s
                        &&& changed && has_empty(s) ==> exists|i: int, p: u32|
                            0 <= i < CELLS && s[i].power == 0 && (p == 2 || p == 4) && mid
                                == #[trigger] s.update(i, Tile { power: p, merged_this_turn: false })
                        &&& !is_stuck(mid) ==> final(self).field@ == mid
                            && final(self).score_current == score
                            && final(self).score_best == old(self).score_best
                        &&& is_stuck(mid) ==> is_opening(final(self).field@)
                            && final(self).score_current == 0
                            && final(self).score_best == if old(self).score_best < score {
                                score
                            } else {
                                old(self).score_best as int
                            }
                    }
            }),
    {
        proof {
            lemma_shift_conserves(self.field@, d);
        }
        self.shift(d);
        if self.changed_this_turn {
            self.add_tile();
            self.clear_changed_flag();
        }
        let ghost mid = self.field@;
        if self.no_more_turns() {
            *self = self.restart();
        }
        assert(board_ok(mid));
    }

    pub fn clear_changed_flag(&mut self)
        ensures
            final(self).changed_this_turn == false,
            final(self).field@ == old(self).field@,
            final(self).score_current == old(self).score_current,
            final(self).score_best == old(self).score_best,
    {
        self.changed_this_turn = false;
    }

    /// True iff no cell is empty and no two orthogonal neighbours hold the
    /// same value, so that no shift can change the board any more.
    pub fn no_more_turns(&self) -> (r: bool)
        requires
            self.field.len() == CELLS,
        ensures
            r == is_stuck(self.field@),
            (exists|i: int| 0 <= i < CELLS && #[trigger] self.field@[i].power == 0) ==> !r,
    {
        let b = &self.field;
        assert(b@ == self.field@);
        let mut i: usize = 0;
        while i < CELLS
            invariant
                i <= CELLS,
                b.len() == CELLS,
                b@ == self.field@,
                forall|j: int| 0 <= j < i ==> #[trigger] b@[j].power != 0,
            decreases CELLS - i,
        {
            if b[i].power == 0 {
                assert(self.field@[i as int].power == 0);
                assert(!is_stuck(self.field@));
                return false;
            }
            i = i + 1;
        }
        let mut y: usize = 0;
        while y < 4
            invariant
                y <= 4,
                b.len() == CELLS,
                b@ == self.field@,
                forall|j: int| 0 <= j < CELLS ==> #[trigger] b@[j].power != 0,
                forall|x2: int, y2: int|
                    0 <= x2 < 3 && 0 <= y2 < y ==> #[trigger] b@[index_of(x2, y2)].power != b@[index_of(
                        x2 + 1,
                        y2,
                    )].power,
                forall|x2: int, y2: int|
                    0 <= x2 < 4 && 0 <= y2 < y && y2 < 3 ==> #[trigger] b@[index_of(x2, y2)].power
                        != b@[index_of(x2, y2 + 1)].power,
            decreases 4 - y,
        {
            let mut x: usize = 0;
            while x < 4
                invariant
                    x <= 4,
                    y < 4,
                    b.len() == CELLS,
                    b@ == self.field@,
                    forall|j: int| 0 <= j < CELLS ==> #[trigger] b@[j].power != 0,
                    forall|x2: int, y2: int|
                        0 <= x2 < 3 && 0 <= y2 < y ==> #[trigger] b@[index_of(x2, y2)].power
                            != b@[index_of(x2 + 1, y2)].power,
                    forall|x2: int, y2: int|
                        0 <= x2 < 4 && 0 <= y2 < y && y2 < 3 ==> #[trigger] b@[index_of(x2, y2)].power
                            != b@[index_of(x2, y2 + 1)].power,
                    forall|x2: int|
                        0 <= x2 < x && x2 < 3 ==> #[trigger] b@[index_of(x2, y as int)].power
                            != b@[index_of(x2 + 1, y as int)].power,
                    forall|x2: int|
                        0 <= x2 < x && y < 3 ==> #[trigger] b@[index_of(x2, y as int)].power
                            != b@[index_of(x2, y + 1)].power,
                decreases 4 - x,
            {
                let v = b[y * 4 + x].power;
                assert(b@[index_of(x as int, y as int)].power == v);
                if x < 3 && v == b[y * 4 + x + 1].power {
                    assert(b@[index_of(x + 1, y as int)].power == v);
                    assert(!is_stuck(self.field@));
                    return false;
                }
                if y < 3 && v == b[(y + 1) * 4 + x].power {
                    assert(b@[index_of(x as int, y + 1)].power == v);
                    assert(!is_stuck(self.field@));
                    return false;
                }
                x = x + 1;
            }
            y = y + 1;
        }
        true
    }
}

} // verus!
