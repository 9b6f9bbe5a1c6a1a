use vstd::multiset::Multiset;
use vstd::prelude::*;
use crate::model::{
    empty_cells, has_empty, index_of, spawned, two_tiles,
    blocker, board_ok, cell, cleared, in_grid, is_power_of_two, line_of, merged_sum, nonzero, occupied,
    pos_of, power_sum, step, step_dest, step_gain, step_kind, stop_at, sweep, sweep_gain, tile_values,
    valid_power, Direction, Tile, CELLS,
};

verus! {

pub proof fn lemma_cell(d: Direction)
    ensures
        forall|l: int, k: int| in_grid(l, k) ==> 0 <= #[trigger] cell(d, l, k) < CELLS,
        forall|l1: int, k1: int, l2: int, k2: int|
            in_grid(l1, k1) && in_grid(l2, k2) && #[trigger] cell(d, l1, k1) == #[trigger] cell(
                d,
                l2,
                k2,
            ) ==> l1 == l2 && k1 == k2,
{
}

pub proof fn lemma_double(p: nat)
    requires
        is_power_of_two(p),
    ensures
        is_power_of_two(2 * p),
{
    assert((2 * p) / 2 == p);
}

/// How the sums over a board change when one cell is replaced.
pub proof fn lemma_update(b: Seq<Tile>, i: int, t: Tile)
    requires
        0 <= i < b.len(),
    ensures
        power_sum(b.update(i, t)) == power_sum(b) - b[i].power + t.power,
        merged_sum(b.update(i, t)) == merged_sum(b) - (if b[i].merged_this_turn {
            b[i].power as int
        } else {
            0
        }) + (if t.merged_this_turn {
            t.power as int
        } else {
            0
        }),
        occupied(b.update(i, t)) == occupied(b) - (if b[i].power != 0 {
            1int
        } else {
            0
        }) + (if t.power != 0 {
            1int
        } else {
            0
        }),
        tile_values(b.update(i, t)).add(nonzero(b[i].power)) == tile_values(b).add(
            nonzero(t.power),
        ),
    decreases b.len(),
{
    let u = b.update(i, t);
    if i == b.len() - 1 {
        assert(u.drop_last() =~= b.drop_last());
        assert(tile_values(u).add(nonzero(b[i].power)) =~= tile_values(b).add(nonzero(t.power)));
    } else {
        let c = b.drop_last();
        lemma_update(c, i, t);
        assert(u.drop_last() =~= c.update(i, t));
        assert(u.last() == b.last());
        assert(c[i] == b[i]);
        assert(tile_values(u) == tile_values(c.update(i, t)).add(nonzero(b.last().power)));
        assert(tile_values(b) == tile_values(c).add(nonzero(b.last().power)));
        let a = tile_values(c.update(i, t));
        assert forall|v: u32|
            #[trigger] tile_values(u).add(nonzero(b[i].power)).count(v) == tile_values(b).add(
                nonzero(t.power),
            ).count(v) by {
            assert(a.add(nonzero(b[i].power)).count(v) == tile_values(c).add(
                nonzero(t.power),
            ).count(v));
        }
        assert(tile_values(u).add(nonzero(b[i].power)) =~= tile_values(b).add(nonzero(t.power)));
    }
}

/// Bounds of the sums over a board.
pub proof fn lemma_sums(b: Seq<Tile>)
    ensures
        0 <= merged_sum(b) <= power_sum(b),
        0 <= occupied(b),
        forall|i: int| 0 <= i < b.len() ==> #[trigger] b[i].power <= power_sum(b),
        forall|i: int, j: int|
            0 <= i < b.len() && 0 <= j < b.len() && i != j ==> #[trigger] b[i].power
                + #[trigger] b[j].power <= power_sum(b),
        (forall|i: int| 0 <= i < b.len() ==> !(#[trigger] b[i].merged_this_turn)) ==> merged_sum(b)
            == 0,
        (forall|i: int| 0 <= i < b.len() ==> #[trigger] b[i].power == 0) ==> power_sum(b) == 0,
    decreases b.len(),
{
    if b.len() > 0 {
        let c = b.drop_last();
        lemma_sums(c);
        assert forall|i: int| 0 <= i < c.len() implies c[i] == #[trigger] b[i] by {}
        if forall|i: int| 0 <= i < b.len() ==> !(#[trigger] b[i].merged_this_turn) {
            assert forall|i: int| 0 <= i < c.len() implies !(#[trigger] c[i].merged_this_turn) by {
                assert(c[i] == b[i]);
            }
        }
        if forall|i: int| 0 <= i < b.len() ==> #[trigger] b[i].power == 0 {
            assert forall|i: int| 0 <= i < c.len() implies #[trigger] c[i].power == 0 by {
                assert(c[i] == b[i]);
            }
        }
    }
}

/// Clearing the merge flags keeps the values.
pub proof fn lemma_cleared(b: Seq<Tile>)
    ensures
        power_sum(cleared(b)) == power_sum(b),
        occupied(cleared(b)) == occupied(b),
        tile_values(cleared(b)) == tile_values(b),
    decreases b.len(),
{
    if b.len() > 0 {
        lemma_cleared(b.drop_last());
        assert(cleared(b).drop_last() =~= cleared(b.drop_last()));
    }
}

/// Where the scan toward the edge stops.
pub proof fn lemma_stop(b: Seq<Tile>, d: Direction, line: int, q: int)
    requires
        0 <= q,
    ensures
        0 <= stop_at(b, d, line, q) <= q,
        forall|k: int| stop_at(b, d, line, q) < k <= q ==> #[trigger] b[cell(d, line, k)].power == 0,
        stop_at(b, d, line, q) > 0 ==> b[cell(d, line, stop_at(b, d, line, q))].power != 0,
    decreases q,
{
    if q > 0 && b[cell(d, line, q)].power == 0 {
        lemma_stop(b, d, line, q - 1);
    }
}

/// What holds of the board after the first `n` sources of a shift toward `d`
/// were handled, `g` being the score earned so far.
pub open spec fn sweep_inv(b: Seq<Tile>, d: Direction, n: int, g: int) -> bool {
    &&& b.len() == CELLS
    &&& forall|i: int| 0 <= i < CELLS ==> valid_power(#[trigger] b[i].power)
    &&& forall|i: int| 0 <= i < CELLS && (#[trigger] b[i].merged_this_turn) ==> b[i].power != 0
    &&& forall|l: int, k: int|
        in_grid(l, k) && 3 * l + k - 1 >= n ==> !(#[trigger] b[cell(d, l, k)].merged_this_turn)
    &&& 0 <= g <= merged_sum(b)
}

pub proof fn lemma_step(b: Seq<Tile>, d: Direction, n: int, g: int)
    requires
        sweep_inv(b, d, n, g),
        0 <= n < 12,
        power_sum(b) <= u32::MAX,
    ensures
        ({
            let b2 = step(b, d, line_of(n), pos_of(n));
            let kind = step_kind(b, d, line_of(n), pos_of(n));
            &&& sweep_inv(b2, d, n + 1, g + step_gain(b, d, line_of(n), pos_of(n)))
            &&& power_sum(b2) == power_sum(b)
            &&& kind != 2 ==> tile_values(b2) == tile_values(b) && occupied(b2) == occupied(b)
            &&& kind == 2 ==> occupied(b2) == occupied(b) - 1
        }),
{
    let l = line_of(n);
    let p = pos_of(n);
    assert(0 <= l < 4 && 1 <= p < 4 && 3 * l + p - 1 == n);
    lemma_cell(d);
    lemma_sums(b);
    let src = cell(d, l, p);
    let q = blocker(b, d, l, p);
    lemma_stop(b, d, l, p - 1);
    let dq = step_dest(b, d, l, p);
    let dst = cell(d, l, dq);
    let kind = step_kind(b, d, l, p);
    let s = b[src];
    let t = b[dst];
    let b2 = step(b, d, l, p);
    assert(in_grid(l, p));
    assert(!s.merged_this_turn);
    if kind == 1 {
        assert(dq < p);
        assert(in_grid(l, dq));
        assert(t.power == 0);
        assert(!t.merged_this_turn);
        let t1 = Tile { power: s.power, merged_this_turn: t.merged_this_turn };
        let s1 = Tile { power: 0, merged_this_turn: s.merged_this_turn };
        let b1 = b.update(dst, t1);
        lemma_update(b, dst, t1);
        lemma_update(b1, src, s1);
        assert(b1[src] == s);
        assert(b2 == b1.update(src, s1));
        assert(nonzero(0) =~= Multiset::empty());
        assert forall|v: u32| #[trigger] tile_values(b2).count(v) == tile_values(b).count(v) by {
            assert(tile_values(b2).add(nonzero(s.power)).count(v) == tile_values(b1).add(
                nonzero(0),
            ).count(v));
            assert(tile_values(b1).add(nonzero(0)).count(v) == tile_values(b).add(
                nonzero(s.power),
            ).count(v));
        }
        assert(tile_values(b2) =~= tile_values(b));
        assert forall|l2: int, k2: int|
            in_grid(l2, k2) && 3 * l2 + k2 - 1 >= n + 1 implies !(#[trigger] b2[cell(
                d,
                l2,
                k2,
            )].merged_this_turn) by {
            assert(in_grid(l2, k2));
        }
        assert forall|i: int| 0 <= i < CELLS implies valid_power(#[trigger] b2[i].power) by {
            if i != src && i != dst {
                assert(b2[i] == b[i]);
            }
        }
        assert forall|i: int| 0 <= i < CELLS && (#[trigger] b2[i].merged_this_turn) implies b2[i].power
            != 0 by {
            if i != src && i != dst {
                assert(b2[i] == b[i]);
            }
        }
    } else if kind == 2 {
        assert(dq == q);
        assert(in_grid(l, dq));
        assert(dst != src);
        assert(t.power + s.power <= power_sum(b));
        lemma_double(s.power as nat);
        let t1 = Tile { power: (t.power + s.power) as u32, merged_this_turn: true };
        let s1 = Tile { power: 0, merged_this_turn: s.merged_this_turn };
        let b1 = b.update(dst, t1);
        lemma_update(b, dst, t1);
        lemma_update(b1, src, s1);
        assert(b1[src] == s);
        assert(b2 == b1.update(src, s1));
        assert forall|l2: int, k2: int|
            in_grid(l2, k2) && 3 * l2 + k2 - 1 >= n + 1 implies !(#[trigger] b2[cell(
                d,
                l2,
                k2,
            )].merged_this_turn) by {
            assert(in_grid(l2, k2));
            assert(cell(d, l2, k2) != dst);
        }
        assert forall|i: int| 0 <= i < CELLS implies valid_power(#[trigger] b2[i].power) by {
            if i != src && i != dst {
                assert(b2[i] == b[i]);
            }
        }
        assert forall|i: int| 0 <= i < CELLS && (#[trigger] b2[i].merged_this_turn) implies b2[i].power
            != 0 by {
            if i != src && i != dst {
                assert(b2[i] == b[i]);
            }
        }
    }
}

/// What holds after the first `n` sources of a shift were handled.
pub proof fn lemma_sweep(b: Seq<Tile>, d: Direction, n: nat)
    requires
        board_ok(b),
        n <= 12,
    ensures
        sweep_inv(sweep(b, d, n), d, n as int, sweep_gain(b, d, n)),
        power_sum(sweep(b, d, n)) == power_sum(b),
        occupied(sweep(b, d, n)) <= occupied(b),
        tile_values(sweep(b, d, n)) == tile_values(b) || occupied(sweep(b, d, n)) < occupied(b),
        sweep_gain(b, d, n) <= power_sum(b),
    decreases n,
{
    lemma_cell(d);
    if n == 0 {
        lemma_sums(b);
    } else {
        let m = (n - 1) as nat;
        lemma_sweep(b, d, m);
        lemma_step(sweep(b, d, m), d, m as int, sweep_gain(b, d, m));
    }
    lemma_sums(sweep(b, d, n));
}

/// The listed empty cells are exactly the empty ones.
pub proof fn lemma_empty_cells(b: Seq<Tile>, n: int)
    requires
        0 <= n <= b.len(),
        n <= CELLS,
    ensures
        empty_cells(b, n).len() <= n,
        forall|j: int|
            0 <= j < empty_cells(b, n).len() ==> #[trigger] empty_cells(b, n)[j] < n && b[empty_cells(
                b,
                n,
            )[j] as int].power == 0,
        empty_cells(b, n).len() == 0 <==> forall|i: int| 0 <= i < n ==> #[trigger] b[i].power != 0,
    decreases n,
{
    if n > 0 {
        lemma_empty_cells(b, n - 1);
        let e0 = empty_cells(b, n - 1);
        let e = empty_cells(b, n);
        assert forall|j: int| 0 <= j < e.len() implies #[trigger] e[j] < n && b[e[j] as int].power
            == 0 by {
            if b[n - 1].power == 0 {
                assert(e == e0.push((n - 1) as usize));
            } else {
                assert(e == e0);
            }
            if j < e0.len() {
                assert(e[j] == e0[j]);
            }
        }
        if empty_cells(b, n - 1).len() == 0 && b[n - 1].power != 0 {
            assert forall|i: int| 0 <= i < n implies #[trigger] b[i].power != 0 by {
                if i < n - 1 {
                    assert(b[i].power != 0);
                }
            }
        }
    }
}

/// A spawn fills one empty cell with a fresh tile and keeps every other cell.
pub proof fn lemma_spawn(b: Seq<Tile>, pick: u32, power: u32)
    requires
        board_ok(b),
        power == 2 || power == 4,
        power_sum(b) + 4 <= u32::MAX,
    ensures
        board_ok(spawned(b, pick, power)),
        !has_empty(b) ==> spawned(b, pick, power) == b,
        has_empty(b) ==> exists|i: int|
            0 <= i < CELLS && b[i].power == 0 && spawned(b, pick, power) == #[trigger] b.update(
                i,
                Tile { power, merged_this_turn: false },
            ),
{
    lemma_empty_cells(b, CELLS as int);
    let e = empty_cells(b, CELLS as int);
    if e.len() == 0 {
        if has_empty(b) {
            let i = choose|i: int| 0 <= i < CELLS && #[trigger] b[i].power == 0;
            assert(b[i].power != 0);
        }
    } else {
        let k = (pick as int) % (e.len() as int);
        let i = e[k] as int;
        assert(0 <= i < CELLS && b[i].power == 0);
        let t = Tile { power, merged_this_turn: false };
        let b2 = b.update(i, t);
        lemma_update(b, i, t);
        assert(is_power_of_two(1));
        assert(is_power_of_two(2));
        assert(is_power_of_two(4));
        assert forall|j: int| 0 <= j < CELLS implies valid_power(#[trigger] b2[j].power) by {
            if j != i {
                assert(b2[j] == b[j]);
            }
        }
        assert forall|j: int| 0 <= j < CELLS implies !(#[trigger] b2[j].merged_this_turn) by {
            if j != i {
                assert(b2[j] == b[j]);
            }
        }
        assert(has_empty(b));
    }
}

/// An opening board is well formed.
pub proof fn lemma_two_tiles(i1: int, p1: u32, i2: int, p2: u32)
    requires
        0 <= i1 < CELLS,
        0 <= i2 < CELLS,
        i1 != i2,
        p1 == 2 || p1 == 4,
        p2 == 2 || p2 == 4,
    ensures
        board_ok(two_tiles(i1, p1, i2, p2)),
{
    let z = Seq::new(CELLS as nat, |i: int| Tile { power: 0, merged_this_turn: false });
    lemma_sums(z);
    let t1 = Tile { power: p1, merged_this_turn: false };
    let t2 = Tile { power: p2, merged_this_turn: false };
    lemma_update(z, i1, t1);
    lemma_update(z.update(i1, t1), i2, t2);
    assert(two_tiles(i1, p1, i2, p2) =~= z.update(i1, t1).update(i2, t2));
    assert(is_power_of_two(1));
    assert(is_power_of_two(2));
    assert(is_power_of_two(4));
}

/// The sum over a prefix grows by the value of the next cell.
pub proof fn lemma_prefix_sum(b: Seq<Tile>, n: int)
    requires
        0 < n <= b.len(),
    ensures
        power_sum(b.subrange(0, n)) == power_sum(b.subrange(0, n - 1)) + b[n - 1].power,
        power_sum(b.subrange(0, n)) <= power_sum(b),
    decreases b.len() - n,
{
    assert(b.subrange(0, n).drop_last() =~= b.subrange(0, n - 1));
    if n < b.len() {
        lemma_prefix_sum(b, n + 1);
    } else {
        assert(b.subrange(0, n) =~= b);
    }
}

} // verus!
