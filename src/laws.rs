use vstd::prelude::*;
use crate::model::{
    blocker, board_ok, cell, cleared, in_grid, index_of, line_of, occupied, pos_of, power_sum,
    mergeless4, packed4, row_mergeless, row_packed, shift_gain, shifted, step, step_dest, step_kind, shift_changed, sweep, sweep_changed, sweep_gain, tile_values, Direction,
    Tile, CELLS,
};
use crate::proofs::{
    lemma_cell, lemma_cleared, lemma_stop, lemma_sums, lemma_sweep, sweep_inv};

verus! {

/// A shift keeps the total value on the board. It either keeps the multiset
/// of tile values as it was (the tiles only slid), or leaves strictly fewer
/// tiles (some merged).
pub proof fn lemma_shift_conserves(b: Seq<Tile>, d: Direction)
    requires
        board_ok(b),
    ensures
        power_sum(shifted(b, d)) == power_sum(b),
        occupied(shifted(b, d)) <= occupied(b),
        tile_values(shifted(b, d)) == tile_values(b) || occupied(shifted(b, d)) < occupied(b),
{
    lemma_sweep(b, d, 12);
    lemma_cleared(sweep(b, d, 12));
}

/// A shift leaves a well-formed board.
pub proof fn lemma_shifted_ok(b: Seq<Tile>, d: Direction)
    requires
        board_ok(b),
    ensures
        board_ok(shifted(b, d)),
{
    lemma_sweep(b, d, 12);
    lemma_cleared(sweep(b, d, 12));
}

pub open spec fn horizontal(d: Direction) -> bool {
    d == Direction::Left || d == Direction::Right
}

pub open spec fn rows_mergeless(b: Seq<Tile>) -> bool {
    forall|y: int| 0 <= y < 4 ==> #[trigger] row_mergeless(b, y)
}

pub open spec fn row_values(b: Seq<Tile>, y: int) -> Seq<u32> {
    seq![
        b[index_of(0, y)].power,
        b[index_of(1, y)].power,
        b[index_of(2, y)].power,
        b[index_of(3, y)].power,
    ]
}

pub open spec fn between_empty(v: Seq<u32>, i: int, j: int) -> bool {
    forall|x: int| (i < x < j || j < x < i) ==> #[trigger] v[x] == 0
}

/// In a row that cannot merge, two tiles with only empty cells between them
/// differ.
proof fn lemma_row_no_merge(v: Seq<u32>, i: int, j: int)
    requires
        v.len() == 4,
        mergeless4(v[0], v[1], v[2], v[3]),
        0 <= i < j < 4,
        v[i] != 0,
        v[j] != 0,
        between_empty(v, i, j),
    ensures
        v[i] != v[j],
{
    if j - i >= 2 {
        assert(v[i + 1] == 0);
    }
    if j - i == 3 {
        assert(v[i + 2] == 0);
    }
}

/// Sliding a tile of a row across empty cells keeps the row's values in
/// order, and a row that cannot merge still cannot.
proof fn lemma_row_slide(v: Seq<u32>, xs: int, xd: int)
    requires
        v.len() == 4,
        mergeless4(v[0], v[1], v[2], v[3]),
        0 <= xs < 4,
        0 <= xd < 4,
        xs != xd,
        v[xd] == 0,
        between_empty(v, xs, xd),
    ensures
        ({
            let w = v.update(xd, v[xs]).update(xs, 0);
            &&& packed4(w[0], w[1], w[2], w[3]) == packed4(v[0], v[1], v[2], v[3])
            &&& mergeless4(w[0], w[1], w[2], w[3])
        }),
{
    let w = v.update(xd, v[xs]).update(xs, 0);
    assert(v[1] == 0 || !(xs < 1 < xd || xd < 1 < xs));
    assert(v[2] == 0 || !(xs < 2 < xd || xd < 2 < xs));
    assert(packed4(w[0], w[1], w[2], w[3]) =~= packed4(v[0], v[1], v[2], v[3]));
}

pub open spec fn x_of(d: Direction, k: int) -> int {
    if d == Direction::Left {
        k
    } else {
        3 - k
    }
}

/// A step of a horizontal shift leaves the rows other than its own alone.
proof fn lemma_step_other_row(b: Seq<Tile>, d: Direction, l: int, p: int, y: int)
    requires
        horizontal(d),
        b.len() == CELLS,
        0 <= l < 4,
        1 <= p < 4,
        0 <= y < 4,
        y != l,
    ensures
        row_values(step(b, d, l, p), y) == row_values(b, y),
{
    lemma_cell(d);
    lemma_stop(b, d, l, p - 1);
    let b2 = step(b, d, l, p);
    let dq = step_dest(b, d, l, p);
    if step_kind(b, d, l, p) != 0 {
        assert(0 <= dq < 4);
        assert(cell(d, l, dq) == index_of(x_of(d, dq), l));
        assert(cell(d, l, p) == index_of(x_of(d, p), l));
    }
    assert(b2[index_of(0, y)] == b[index_of(0, y)]);
    assert(b2[index_of(1, y)] == b[index_of(1, y)]);
    assert(b2[index_of(2, y)] == b[index_of(2, y)]);
    assert(b2[index_of(3, y)] == b[index_of(3, y)]);
    assert(row_values(b2, y) =~= row_values(b, y));
}

/// One step of a horizontal shift on a board whose rows cannot merge: the
/// tile only slides, and every row keeps its values in order.
#[verifier::rlimit(50)]
proof fn lemma_row_step(b: Seq<Tile>, d: Direction, n: int, g: int)
    requires
        horizontal(d),
        sweep_inv(b, d, n, g),
        0 <= n < 12,
        rows_mergeless(b),
    ensures
        ({
            let b2 = step(b, d, line_of(n), pos_of(n));
            &&& step_kind(b, d, line_of(n), pos_of(n)) != 2
            &&& rows_mergeless(b2)
            &&& forall|y: int| 0 <= y < 4 ==> #[trigger] row_packed(b2, y) == row_packed(b, y)
        }),
{
    let l = line_of(n);
    let p = pos_of(n);
    assert(0 <= l < 4 && 1 <= p < 4);
    lemma_cell(d);
    lemma_stop(b, d, l, p - 1);
    let q = blocker(b, d, l, p);
    let kind = step_kind(b, d, l, p);
    let b2 = step(b, d, l, p);
    let v = row_values(b, l);
    assert(row_mergeless(b, l));
    assert(in_grid(l, p) && in_grid(l, q));
    assert forall|k: int| 0 <= k < 4 implies #[trigger] cell(d, l, k) == index_of(x_of(d, k), l)
        && v[x_of(d, k)] == b[cell(d, l, k)].power by {}
    let xs = x_of(d, p);
    let xq = x_of(d, q);
    assert forall|x: int| (xq < x < xs || xs < x < xq) implies #[trigger] v[x] == 0 by {
        let k = x_of(d, x);
        assert(x_of(d, k) == x);
        assert(q < k <= p - 1);
        assert(b[cell(d, l, k)].power == 0);
        assert(v[x] == b[cell(d, l, k)].power);
    }
    if kind == 2 || (kind == 0 && v[xs] != 0 && v[xq] != 0 && v[xq] == v[xs]) {
        if xq < xs {
            lemma_row_no_merge(v, xq, xs);
        } else {
            lemma_row_no_merge(v, xs, xq);
        }
    }
    if kind == 1 {
        let dq = step_dest(b, d, l, p);
        let xd = x_of(d, dq);
        assert(v[xd] == 0);
        assert forall|x: int| (xd < x < xs || xs < x < xd) implies #[trigger] v[x] == 0 by {
            let k = x_of(d, x);
            assert(x_of(d, k) == x);
            assert(q < k <= p - 1);
            assert(b[cell(d, l, k)].power == 0);
            assert(v[x] == b[cell(d, l, k)].power);
        }
        lemma_row_slide(v, xs, xd);
        let w = v.update(xd, v[xs]).update(xs, 0);
        assert(row_values(b2, l) =~= w);
        assert(row_values(b2, l)[0] == b2[index_of(0, l)].power);
        assert(row_values(b2, l)[1] == b2[index_of(1, l)].power);
        assert(row_values(b2, l)[2] == b2[index_of(2, l)].power);
        assert(row_values(b2, l)[3] == b2[index_of(3, l)].power);
        assert(row_packed(b2, l) == packed4(w[0], w[1], w[2], w[3]));
        assert(row_mergeless(b2, l) == mergeless4(w[0], w[1], w[2], w[3]));
        assert(row_packed(b, l) == packed4(v[0], v[1], v[2], v[3]));
    } else {
        assert(b2 == b);
    }
    assert(row_packed(b2, l) == row_packed(b, l) && row_mergeless(b2, l));
    assert forall|y: int| 0 <= y < 4 implies #[trigger] row_packed(b2, y) == row_packed(b, y)
        && row_mergeless(b2, y) by {
        if y != l {
            lemma_step_other_row(b, d, l, p, y);
            assert(row_mergeless(b, y));
        }
    }
    assert forall|y: int| 0 <= y < 4 implies #[trigger] row_mergeless(b2, y) by {
        assert(row_packed(b2, y) == row_packed(b, y) && row_mergeless(b2, y));
    }
}

/// A horizontal shift on a board whose rows cannot merge keeps every row's
/// values in order.
pub proof fn lemma_horizontal_keeps_rows(b: Seq<Tile>, d: Direction)
    requires
        board_ok(b),
        horizontal(d),
        rows_mergeless(b),
    ensures
        board_ok(shifted(b, d)),
        rows_mergeless(shifted(b, d)),
        forall|y: int| 0 <= y < 4 ==> #[trigger] row_packed(shifted(b, d), y) == row_packed(b, y),
        shift_gain(b, d) == 0,
{
    lemma_shifted_ok(b, d);
    lemma_sweep_rows(b, d, 12);
    let s = sweep(b, d, 12);
    assert forall|y: int| 0 <= y < 4 implies #[trigger] row_packed(shifted(b, d), y) == row_packed(
        b,
        y,
    ) && row_mergeless(shifted(b, d), y) by {
        assert(row_packed(s, y) == row_packed(b, y));
        assert(row_mergeless(s, y));
        assert(cleared(s)[index_of(0, y)].power == s[index_of(0, y)].power);
        assert(cleared(s)[index_of(1, y)].power == s[index_of(1, y)].power);
        assert(cleared(s)[index_of(2, y)].power == s[index_of(2, y)].power);
        assert(cleared(s)[index_of(3, y)].power == s[index_of(3, y)].power);
    }
    assert forall|y: int| 0 <= y < 4 implies #[trigger] row_mergeless(shifted(b, d), y) by {
        assert(row_packed(shifted(b, d), y) == row_packed(b, y) && row_mergeless(shifted(b, d), y));
    }
}

proof fn lemma_sweep_rows(b: Seq<Tile>, d: Direction, n: nat)
    requires
        board_ok(b),
        horizontal(d),
        rows_mergeless(b),
        n <= 12,
    ensures
        rows_mergeless(sweep(b, d, n)),
        forall|y: int| 0 <= y < 4 ==> #[trigger] row_packed(sweep(b, d, n), y) == row_packed(b, y),
        sweep_gain(b, d, n) == 0,
    decreases n,
{
    if n > 0 {
        let m = (n - 1) as nat;
        lemma_sweep_rows(b, d, m);
        lemma_sweep(b, d, m);
        lemma_row_step(sweep(b, d, m), d, m as int, sweep_gain(b, d, m));
        let s = sweep(b, d, n);
        assert forall|y: int| 0 <= y < 4 implies #[trigger] row_packed(s, y) == row_packed(b, y) by {
            assert(row_packed(s, y) == row_packed(sweep(b, d, m), y));
        }
    }
}

/// Shifting left and then right a board on which no row can merge keeps the
/// order of the values along every row, and neither shift scores.
pub proof fn lemma_left_right_keeps_rows(b: Seq<Tile>)
    requires
        board_ok(b),
        rows_mergeless(b),
    ensures
        forall|y: int|
            0 <= y < 4 ==> #[trigger] row_packed(shifted(shifted(b, Direction::Left), Direction::Right), y)
                == row_packed(b, y),
        shift_gain(b, Direction::Left) == 0,
        shift_gain(shifted(b, Direction::Left), Direction::Right) == 0,
{
    lemma_horizontal_keeps_rows(b, Direction::Left);
    let b1 = shifted(b, Direction::Left);
    lemma_horizontal_keeps_rows(b1, Direction::Right);
    assert forall|y: int| 0 <= y < 4 implies #[trigger] row_packed(shifted(b1, Direction::Right), y)
        == row_packed(b, y) by {
        assert(row_packed(shifted(b1, Direction::Right), y) == row_packed(b1, y));
    }
}

/// Distance of cell `i` from the edge that `d` points to.
pub open spec fn dist(d: Direction, i: int) -> int {
    match d {
        Direction::Left => i % 4,
        Direction::Right => 3 - i % 4,
        Direction::Up => i / 4,
        Direction::Down => 3 - i / 4,
    }
}

/// Sum of each value times its cell's distance from the edge `d` points to:
/// every slide and every merge toward that edge lowers it.
pub open spec fn potential(b: Seq<Tile>, d: Direction) -> int
    decreases b.len(),
{
    if b.len() == 0 {
        0
    } else {
        potential(b.drop_last(), d) + b.last().power * dist(d, b.len() - 1)
    }
}

pub open spec fn same_powers(a: Seq<Tile>, b: Seq<Tile>) -> bool {
    a.len() == b.len() && forall|i: int| 0 <= i < a.len() ==> #[trigger] a[i].power == b[i].power
}

proof fn lemma_potential_update(b: Seq<Tile>, d: Direction, i: int, t: Tile)
    requires
        0 <= i < b.len(),
    ensures
        potential(b.update(i, t), d) == potential(b, d) - b[i].power * dist(d, i) + t.power * dist(
            d,
            i,
        ),
    decreases b.len(),
{
    let u = b.update(i, t);
    if i == b.len() - 1 {
        assert(u.drop_last() =~= b.drop_last());
    } else {
        lemma_potential_update(b.drop_last(), d, i, t);
        assert(u.drop_last() =~= b.drop_last().update(i, t));
    }
}

proof fn lemma_potential_same(a: Seq<Tile>, b: Seq<Tile>, d: Direction)
    requires
        same_powers(a, b),
    ensures
        potential(a, d) == potential(b, d),
    decreases a.len(),
{
    if a.len() > 0 {
        assert(same_powers(a.drop_last(), b.drop_last()));
        lemma_potential_same(a.drop_last(), b.drop_last(), d);
        assert(a.last().power == b[b.len() - 1].power);
    }
}

/// A step that moves a tile lowers the potential; one that does not keeps
/// the board.
#[verifier::rlimit(60)]
proof fn lemma_step_potential(b: Seq<Tile>, d: Direction, n: int, g: int)
    requires
        sweep_inv(b, d, n, g),
        0 <= n < 12,
        power_sum(b) <= u32::MAX,
    ensures
        step_kind(b, d, line_of(n), pos_of(n)) == 0 ==> step(b, d, line_of(n), pos_of(n)) == b,
        step_kind(b, d, line_of(n), pos_of(n)) != 0 ==> potential(
            step(b, d, line_of(n), pos_of(n)),
            d,
        ) < potential(b, d),
{
    let l = line_of(n);
    let p = pos_of(n);
    assert(0 <= l < 4 && 1 <= p < 4);
    lemma_cell(d);
    lemma_stop(b, d, l, p - 1);
    let kind = step_kind(b, d, l, p);
    lemma_sums(b);
    if kind != 0 {
        let src = cell(d, l, p);
        let dq = step_dest(b, d, l, p);
        let dst = cell(d, l, dq);
        assert(0 <= dq < p);
        assert(in_grid(l, dq) && in_grid(l, p));
        assert(dist(d, src) == p);
        assert(dist(d, dst) == dq);
        let s = b[src];
        let t = b[dst];
        let sp = s.power as int;
        assert(sp >= 1);
        let t1 = if kind == 1 {
            Tile { power: s.power, merged_this_turn: t.merged_this_turn }
        } else {
            Tile { power: (t.power + s.power) as u32, merged_this_turn: true }
        };
        let s1 = Tile { power: 0, merged_this_turn: s.merged_this_turn };
        let b1 = b.update(dst, t1);
        lemma_potential_update(b, d, dst, t1);
        lemma_potential_update(b1, d, src, s1);
        assert(b1[src] == s);
        assert(step(b, d, l, p) == b1.update(src, s1));
        assert(dst != src);
        if kind == 1 {
            assert(t.power == 0);
        } else {
            assert(t.power == s.power);
            assert(t.power + s.power <= power_sum(b));
        }
        lemma_move_lowers(
            potential(b, d),
            potential(b1, d),
            potential(step(b, d, l, p), d),
            t.power as int,
            t1.power as int,
            b1[src].power as int,
            s1.power as int,
            dist(d, dst),
            dist(d, src),
        );
    }
}

/// Moving a tile of value `sp` from distance `ps` to distance `pd < ps`,
/// into an empty cell or onto an equal tile, lowers the potential.
proof fn lemma_move_lowers(
    p0: int,
    p1: int,
    p2: int,
    tp: int,
    t1p: int,
    sp: int,
    s1p: int,
    pd: int,
    ps: int,
)
    requires
        p1 == p0 - tp * pd + t1p * pd,
        p2 == p1 - sp * ps + s1p * ps,
        s1p == 0,
        sp >= 1,
        0 <= pd < ps,
        (tp == 0 && t1p == sp) || (tp == sp && t1p == 2 * sp),
    ensures
        p2 < p0,
{
    assert(p2 < p0) by (nonlinear_arith)
        requires
            p1 == p0 - tp * pd + t1p * pd,
            p2 == p1 - sp * ps + s1p * ps,
            s1p == 0,
            sp >= 1,
            0 <= pd < ps,
            (tp == 0 && t1p == sp) || (tp == sp && t1p == 2 * sp),
    ;
}

proof fn lemma_sweep_potential(b: Seq<Tile>, d: Direction, n: nat)
    requires
        board_ok(b),
        n <= 12,
    ensures
        !sweep_changed(b, d, n) ==> sweep(b, d, n) == b,
        sweep_changed(b, d, n) ==> potential(sweep(b, d, n), d) < potential(b, d),
        potential(sweep(b, d, n), d) <= potential(b, d),
    decreases n,
{
    if n > 0 {
        let m = (n - 1) as nat;
        lemma_sweep_potential(b, d, m);
        lemma_sweep(b, d, m);
        lemma_step_potential(sweep(b, d, m), d, m as int, sweep_gain(b, d, m));
    }
}

/// A shift reports a change exactly when some cell's value is different
/// afterwards.
pub proof fn lemma_changed_iff_board_differs(b: Seq<Tile>, d: Direction)
    requires
        board_ok(b),
    ensures
        shift_changed(b, d) <==> exists|i: int|
            0 <= i < CELLS && #[trigger] shifted(b, d)[i].power != b[i].power,
{
    lemma_sweep_potential(b, d, 12);
    lemma_sweep(b, d, 12);
    let s = sweep(b, d, 12);
    let c = shifted(b, d);
    assert(same_powers(c, s));
    if shift_changed(b, d) {
        if !exists|i: int| 0 <= i < CELLS && #[trigger] c[i].power != b[i].power {
            assert(same_powers(c, b));
            lemma_potential_same(c, b, d);
            lemma_potential_same(c, s, d);
        }
    } else {
        assert forall|i: int| 0 <= i < CELLS implies #[trigger] c[i].power == b[i].power by {
            assert(c[i].power == s[i].power);
        }
    }
}

/// Along line `l`, among the first `m` positions, no occupied cell has an
/// empty cell next to it on the edge's side.
pub open spec fn packed_upto(b: Seq<Tile>, d: Direction, l: int, m: int) -> bool {
    forall|k: int|
        0 < k < m ==> (#[trigger] b[cell(d, l, k)].power != 0 ==> b[cell(d, l, k - 1)].power != 0)
}

/// In a packed stretch of a line, an occupied cell has only occupied cells
/// between it and the edge.
proof fn lemma_packed_prefix(b: Seq<Tile>, d: Direction, l: int, m: int, k2: int, k1: int)
    requires
        packed_upto(b, d, l, m),
        0 <= k1 <= k2 < m,
        b[cell(d, l, k2)].power != 0,
    ensures
        b[cell(d, l, k1)].power != 0,
    decreases k2 - k1,
{
    if k1 < k2 {
        assert(b[cell(d, l, k2 - 1)].power != 0);
        lemma_packed_prefix(b, d, l, m, k2 - 1, k1);
    }
}

/// One step packs one more position of its line and leaves the other lines.
proof fn lemma_step_packs(b: Seq<Tile>, d: Direction, n: int, g: int)
    requires
        sweep_inv(b, d, n, g),
        0 <= n < 12,
        power_sum(b) <= u32::MAX,
        packed_upto(b, d, line_of(n), pos_of(n)),
    ensures
        packed_upto(step(b, d, line_of(n), pos_of(n)), d, line_of(n), pos_of(n) + 1),
        forall|l2: int, k: int|
            in_grid(l2, k) && l2 != line_of(n) ==> #[trigger] step(b, d, line_of(n), pos_of(n))[cell(
                d,
                l2,
                k,
            )] == b[cell(d, l2, k)],
{
    let l = line_of(n);
    let p = pos_of(n);
    assert(0 <= l < 4 && 1 <= p < 4);
    lemma_cell(d);
    lemma_sums(b);
    lemma_stop(b, d, l, p - 1);
    let q = blocker(b, d, l, p);
    let kind = step_kind(b, d, l, p);
    let b2 = step(b, d, l, p);
    let src = cell(d, l, p);
    let dq = step_dest(b, d, l, p);
    let dst = cell(d, l, dq);
    assert(in_grid(l, p) && in_grid(l, q));
    // Below the blocker every cell is occupied.
    assert forall|k: int| 0 <= k <= q && b[cell(d, l, q)].power != 0 implies #[trigger] b[cell(
        d,
        l,
        k,
    )].power != 0 by {
        lemma_packed_prefix(b, d, l, p, q, k);
    }
    if kind != 0 {
        assert(0 <= dq < p);
        assert(in_grid(l, dq));
        assert(dst != src);
        if kind == 2 {
            assert(b[src].power + b[dst].power <= power_sum(b));
        }
    }
    assert forall|k: int| 0 < k < p + 1 implies (#[trigger] b2[cell(d, l, k)].power != 0
        ==> b2[cell(d, l, k - 1)].power != 0) by {
        assert(in_grid(l, k) && in_grid(l, k - 1));
    }
    assert forall|l2: int, k: int| in_grid(l2, k) && l2 != l implies #[trigger] b2[cell(
        d,
        l2,
        k,
    )] == b[cell(d, l2, k)] by {}
}

proof fn lemma_sweep_packs(b: Seq<Tile>, d: Direction, n: nat)
    requires
        board_ok(b),
        n <= 12,
    ensures
        forall|l: int| 0 <= l < 4 && l < line_of(n as int) ==> #[trigger] packed_upto(
            sweep(b, d, n),
            d,
            l,
            4,
        ),
        n < 12 ==> packed_upto(sweep(b, d, n), d, line_of(n as int), pos_of(n as int)),
    decreases n,
{
    if n > 0 {
        let m = (n - 1) as nat;
        lemma_sweep_packs(b, d, m);
        lemma_sweep(b, d, m);
        let s0 = sweep(b, d, m);
        lemma_step_packs(s0, d, m as int, sweep_gain(b, d, m));
        let s1 = sweep(b, d, n);
        let l = line_of(m as int);
        assert forall|l2: int| 0 <= l2 < 4 && l2 < line_of(n as int) implies #[trigger] packed_upto(
            s1,
            d,
            l2,
            4,
        ) by {
            if l2 != l {
                assert(packed_upto(s0, d, l2, 4));
                assert forall|k: int| 0 < k < 4 implies (#[trigger] s1[cell(d, l2, k)].power != 0
                    ==> s1[cell(d, l2, k - 1)].power != 0) by {
                    assert(in_grid(l2, k) && in_grid(l2, k - 1));
                    assert(s1[cell(d, l2, k)] == s0[cell(d, l2, k)]);
                    assert(s1[cell(d, l2, k - 1)] == s0[cell(d, l2, k - 1)]);
                }
            }
        }
    }
}

/// After a shift toward `d`, every tile has slid as far as it can: along
/// every line, each cell between an occupied cell and the edge `d` points to
/// is occupied.
pub proof fn lemma_shift_packs(b: Seq<Tile>, d: Direction)
    requires
        board_ok(b),
    ensures
        forall|l: int, k1: int, k2: int|
            0 <= l < 4 && 0 <= k1 < k2 < 4 && #[trigger] shifted(b, d)[cell(d, l, k2)].power != 0
                ==> #[trigger] shifted(b, d)[cell(d, l, k1)].power != 0,
{
    lemma_sweep_packs(b, d, 12);
    lemma_sweep(b, d, 12);
    lemma_cell(d);
    let s = sweep(b, d, 12);
    let c = shifted(b, d);
    assert forall|l: int, k1: int, k2: int|
        0 <= l < 4 && 0 <= k1 < k2 < 4 && #[trigger] c[cell(d, l, k2)].power != 0 implies #[trigger] c[cell(
            d,
            l,
            k1,
        )].power != 0 by {
        assert(packed_upto(s, d, l, 4));
        assert(in_grid(l, k1) && in_grid(l, k2));
        assert(c[cell(d, l, k2)].power == s[cell(d, l, k2)].power);
        assert(c[cell(d, l, k1)].power == s[cell(d, l, k1)].power);
        lemma_packed_prefix(s, d, l, 4, k2, k1);
    }
}

} // verus!
