//! What a path over a walkability map is, what it costs, and when it is a
//! shortest one.

use vstd::prelude::*;
use crate::coords::{abs_diff, octile, GridCoord, DIAGONAL_COST, STRAIGHT_COST};
use crate::map_text::MAX_CELLS;

verus! {

/// A walkability map in its mathematical form: `m[x][y]` says whether the
/// cell in column `x` and row `y` can be walked on.
pub type WalkMap = Seq<Seq<bool>>;

/// A map that a grid can hold: at least one cell, all columns of one height,
/// and no more than `MAX_CELLS` cells.
pub open spec fn valid_map(m: WalkMap) -> bool {
    &&& 0 < m.len()
    &&& 0 < m[0].len()
    &&& forall|x: int| 0 <= x < m.len() ==> (#[trigger] m[x]).len() == m[0].len()
    &&& m.len() * m[0].len() <= MAX_CELLS
}

/// `c` is the address of a cell of `m`.
pub open spec fn in_bounds(m: WalkMap, c: GridCoord) -> bool {
    0 <= c.0 < m.len() && 0 <= c.1 < m[0].len()
}

/// Out-of-range cells are not walkable.
pub open spec fn walkable(m: WalkMap, c: GridCoord) -> bool {
    in_bounds(m, c) && m[c.0 as int][c.1 as int]
}

/// `b` is one of the eight cells around `a`.
pub open spec fn adjacent(a: GridCoord, b: GridCoord) -> bool {
    a != b && abs_diff(a.0 as int, b.0 as int) <= 1 && abs_diff(a.1 as int, b.1 as int) <= 1
}

/// Cost of the step between two adjacent cells.
pub open spec fn step_cost(a: GridCoord, b: GridCoord) -> int {
    if a.0 != b.0 && a.1 != b.1 {
        DIAGONAL_COST as int
    } else {
        STRAIGHT_COST as int
    }
}

/// A non-empty sequence of walkable cells, each adjacent to the one before.
pub open spec fn is_path(m: WalkMap, p: Seq<GridCoord>) -> bool {
    &&& p.len() >= 1
    &&& forall|i: int| 0 <= i < p.len() ==> walkable(m, #[trigger] p[i])
    &&& forall|i: int| 0 <= i < p.len() - 1 ==> adjacent(#[trigger] p[i], p[i + 1])
}

/// Sum of the step costs along `p`.
pub open spec fn path_cost(p: Seq<GridCoord>) -> int
    decreases p.len(),
{
    if p.len() <= 1 {
        0
    } else {
        path_cost(p.drop_last()) + step_cost(p[p.len() - 2], p.last())
    }
}

/// `p` is a path over `m` that starts at `start` and ends at `end`.
pub open spec fn connects(m: WalkMap, p: Seq<GridCoord>, start: GridCoord, end: GridCoord) -> bool {
    is_path(m, p) && p.first() == start && p.last() == end
}

/// Some path over `m` leads from `start` to `end`.
pub open spec fn reachable(m: WalkMap, start: GridCoord, end: GridCoord) -> bool {
    exists|p: Seq<GridCoord>| connects(m, p, start, end)
}

/// `p` connects `start` to `end` and no path that does so is cheaper.
pub open spec fn is_shortest(m: WalkMap, p: Seq<GridCoord>, start: GridCoord, end: GridCoord) -> bool {
    &&& connects(m, p, start, end)
    &&& forall|q: Seq<GridCoord>| #[trigger] connects(m, q, start, end) ==> path_cost(p) <= path_cost(q)
}

/// The walkable cell at `c` shifted by `(dx, dy)`, if there is one.
pub open spec fn neighbour_at(m: WalkMap, c: GridCoord, dx: int, dy: int) -> Seq<GridCoord> {
    if 0 <= c.0 + dx < m.len() && 0 <= c.1 + dy < m[0].len() && m[c.0 + dx][c.1 + dy] {
        seq![((c.0 + dx) as i32, (c.1 + dy) as i32)]
    } else {
        Seq::empty()
    }
}

/// The walkable cells around `c`, by rising column and, within a column, by
/// rising row.
pub open spec fn neighbours(m: WalkMap, c: GridCoord) -> Seq<GridCoord> {
    neighbour_at(m, c, -1, -1) + neighbour_at(m, c, -1, 0) + neighbour_at(m, c, -1, 1)
        + neighbour_at(m, c, 0, -1) + neighbour_at(m, c, 0, 1) + neighbour_at(m, c, 1, -1)
        + neighbour_at(m, c, 1, 0) + neighbour_at(m, c, 1, 1)
}

proof fn lemma_concat_contains(a: Seq<GridCoord>, b: Seq<GridCoord>, v: GridCoord)
    ensures
        (a + b).contains(v) <==> a.contains(v) || b.contains(v),
{
    if a.contains(v) {
        let i = choose|i: int| 0 <= i < a.len() && a[i] == v;
        assert((a + b)[i] == v);
    }
    if b.contains(v) {
        let i = choose|i: int| 0 <= i < b.len() && b[i] == v;
        assert((a + b)[a.len() + i] == v);
    }
    if (a + b).contains(v) {
        let i = choose|i: int| 0 <= i < (a + b).len() && (a + b)[i] == v;
        if i < a.len() {
            assert(a[i] == v);
        } else {
            assert(b[i - a.len()] == v);
        }
    }
}

proof fn lemma_neighbour_at(m: WalkMap, c: GridCoord, dx: int, dy: int, v: GridCoord)
    requires
        valid_map(m),
    ensures
        neighbour_at(m, c, dx, dy).contains(v) <==> (v.0 == c.0 + dx && v.1 == c.1 + dy && walkable(
            m,
            v,
        )),
{
    let s = neighbour_at(m, c, dx, dy);
    if 0 <= c.0 + dx < m.len() && 0 <= c.1 + dy < m[0].len() && m[c.0 + dx][c.1 + dy] {
        assert(m.len() * m[0].len() <= MAX_CELLS);
        assert(m.len() <= MAX_CELLS && m[0].len() <= MAX_CELLS) by (nonlinear_arith)
            requires
                m.len() * m[0].len() <= MAX_CELLS,
                0 < m.len(),
                0 < m[0].len(),
        ;
        assert(s[0] == ((c.0 + dx) as i32, (c.1 + dy) as i32));
        if v.0 == c.0 + dx && v.1 == c.1 + dy {
            assert(s[0] == v);
        }
    }
}

/// The cells that `neighbours` lists are the walkable ones adjacent to `c`.
pub proof fn lemma_neighbours(m: WalkMap, c: GridCoord)
    requires
        valid_map(m),
    ensures
        forall|v: GridCoord| #[trigger]
            neighbours(m, c).contains(v) <==> (adjacent(c, v) && walkable(m, v)),
{
    assert forall|v: GridCoord| #[trigger]
        neighbours(m, c).contains(v) <==> (adjacent(c, v) && walkable(m, v)) by {
        let n1 = neighbour_at(m, c, -1, -1);
        let n2 = n1 + neighbour_at(m, c, -1, 0);
        let n3 = n2 + neighbour_at(m, c, -1, 1);
        let n4 = n3 + neighbour_at(m, c, 0, -1);
        let n5 = n4 + neighbour_at(m, c, 0, 1);
        let n6 = n5 + neighbour_at(m, c, 1, -1);
        let n7 = n6 + neighbour_at(m, c, 1, 0);
        lemma_concat_contains(n1, neighbour_at(m, c, -1, 0), v);
        lemma_concat_contains(n2, neighbour_at(m, c, -1, 1), v);
        lemma_concat_contains(n3, neighbour_at(m, c, 0, -1), v);
        lemma_concat_contains(n4, neighbour_at(m, c, 0, 1), v);
        lemma_concat_contains(n5, neighbour_at(m, c, 1, -1), v);
        lemma_concat_contains(n6, neighbour_at(m, c, 1, 0), v);
        lemma_concat_contains(n7, neighbour_at(m, c, 1, 1), v);
        lemma_neighbour_at(m, c, -1, -1, v);
        lemma_neighbour_at(m, c, -1, 0, v);
        lemma_neighbour_at(m, c, -1, 1, v);
        lemma_neighbour_at(m, c, 0, -1, v);
        lemma_neighbour_at(m, c, 0, 1, v);
        lemma_neighbour_at(m, c, 1, -1, v);
        lemma_neighbour_at(m, c, 1, 0, v);
        lemma_neighbour_at(m, c, 1, 1, v);
    }
}

/// A step costs what the octile distance between its two cells is.
pub proof fn lemma_step_is_octile(a: GridCoord, b: GridCoord)
    requires
        adjacent(a, b),
    ensures
        octile(a, b) == step_cost(a, b),
{
}

/// The octile distance to a target falls by no more than a step's cost
/// along that step.
pub proof fn lemma_octile_step(a: GridCoord, b: GridCoord, t: GridCoord)
    requires
        adjacent(a, b),
    ensures
        octile(a, t) <= step_cost(a, b) + octile(b, t),
{
}

/// A path with one more step is a path, dearer by that step's cost.
pub proof fn lemma_path_push(m: WalkMap, p: Seq<GridCoord>, c: GridCoord)
    requires
        is_path(m, p),
        adjacent(p.last(), c),
        walkable(m, c),
    ensures
        is_path(m, p.push(c)),
        path_cost(p.push(c)) == path_cost(p) + step_cost(p.last(), c),
        p.push(c).first() == p.first(),
        p.push(c).last() == c,
{
    let q = p.push(c);
    assert(q.drop_last() =~= p);
    assert forall|i: int| 0 <= i < q.len() - 1 implies adjacent(#[trigger] q[i], q[i + 1]) by {
        if i < p.len() - 1 {
            assert(adjacent(p[i], p[i + 1]));
        }
    }
}

/// A prefix of a path is a path, and one more cell adds one step's cost.
pub proof fn lemma_path_take(m: WalkMap, p: Seq<GridCoord>, k: int)
    requires
        is_path(m, p),
        1 <= k <= p.len(),
    ensures
        is_path(m, p.take(k)),
        p.take(k).first() == p.first(),
        p.take(k).last() == p[k - 1],
        k < p.len() ==> path_cost(p.take(k + 1)) == path_cost(p.take(k)) + step_cost(p[k - 1], p[k]),
{
    let q = p.take(k);
    assert forall|i: int| 0 <= i < q.len() - 1 implies adjacent(#[trigger] q[i], q[i + 1]) by {
        assert(adjacent(p[i], p[i + 1]));
    }
    if k < p.len() {
        assert(p.take(k + 1).drop_last() =~= p.take(k));
    }
}

/// No path is cheaper than the octile distance between its ends.
pub proof fn lemma_path_cost_lower_bound(m: WalkMap, p: Seq<GridCoord>)
    requires
        is_path(m, p),
    ensures
        path_cost(p) >= octile(p.first(), p.last()),
        path_cost(p) >= 0,
    decreases p.len(),
{
    if p.len() > 1 {
        let q = p.drop_last();
        assert(q =~= p.take(p.len() - 1));
        lemma_path_take(m, p, p.len() - 1);
        lemma_path_cost_lower_bound(m, q);
        assert(adjacent(p[p.len() - 2], p[p.len() - 2 + 1]));
        lemma_octile_step(p.last(), p[p.len() - 2], p.first());
        lemma_octile_symmetric(p.first(), p.last());
        lemma_octile_symmetric(p.first(), p[p.len() - 2]);
    }
}

/// A path costs at least the straight cost for each of its steps.
pub proof fn lemma_path_cost_steps(m: WalkMap, p: Seq<GridCoord>)
    requires
        is_path(m, p),
    ensures
        path_cost(p) >= STRAIGHT_COST * (p.len() - 1),
    decreases p.len(),
{
    if p.len() > 1 {
        assert(p.drop_last() =~= p.take(p.len() - 1));
        lemma_path_take(m, p, p.len() - 1);
        lemma_path_cost_steps(m, p.drop_last());
    }
}

/// The octile distance is the same in both directions.
pub proof fn lemma_octile_symmetric(a: GridCoord, b: GridCoord)
    ensures
        octile(a, b) == octile(b, a),
{
}

/// The cost of a path is its first step's cost plus the cost of the rest.
pub proof fn lemma_path_cost_first(p: Seq<GridCoord>)
    requires
        p.len() >= 2,
    ensures
        path_cost(p) == step_cost(p[0], p[1]) + path_cost(p.drop_first()),
    decreases p.len(),
{
    if p.len() == 2 {
        assert(path_cost(p.drop_last()) == 0);
        assert(path_cost(p.drop_first()) == 0);
    } else {
        lemma_path_cost_first(p.drop_last());
        assert(p.drop_last().drop_first() =~= p.drop_first().drop_last());
    }
}

/// A path walked backwards is a path of the same cost.
pub proof fn lemma_path_reverse(m: WalkMap, p: Seq<GridCoord>)
    requires
        is_path(m, p),
    ensures
        is_path(m, p.reverse()),
        path_cost(p.reverse()) == path_cost(p),
        p.reverse().first() == p.last(),
        p.reverse().last() == p.first(),
    decreases p.len(),
{
    let r = p.reverse();
    assert forall|i: int| 0 <= i < r.len() - 1 implies adjacent(#[trigger] r[i], r[i + 1]) by {
        let j = p.len() - 2 - i;
        assert(adjacent(p[j], p[j + 1]));
    }
    if p.len() >= 2 {
        let q = p.drop_last();
        assert(q =~= p.take(p.len() - 1));
        lemma_path_take(m, p, p.len() - 1);
        lemma_path_reverse(m, q);
        assert(r.drop_first() =~= q.reverse());
        lemma_path_cost_first(r);
    }
}

/// Every cell of `m` can be walked on.
pub open spec fn obstacle_free(m: WalkMap) -> bool {
    forall|c: GridCoord| in_bounds(m, c) ==> #[trigger] walkable(m, c)
}

/// `b` moved by one towards `a` along one axis.
pub open spec fn one_towards(a: int, b: int) -> int {
    if b < a {
        b + 1
    } else if b > a {
        b - 1
    } else {
        b
    }
}

/// The cell before `b` on the straightest way from `a`: one step back
/// along each axis on which the two differ.
pub open spec fn cell_before(a: GridCoord, b: GridCoord) -> GridCoord {
    (one_towards(a.0 as int, b.0 as int) as i32, one_towards(a.1 as int, b.1 as int) as i32)
}

/// The larger of the distances between `a` and `b` along the two axes.
pub open spec fn axis_gap(a: GridCoord, b: GridCoord) -> int {
    let dx = abs_diff(a.0 as int, b.0 as int);
    let dy = abs_diff(a.1 as int, b.1 as int);
    if dx > dy {
        dx
    } else {
        dy
    }
}

/// The straightest way from `a` to `b`: diagonal steps as long as both
/// axes differ, then straight ones.
pub open spec fn direct_path(a: GridCoord, b: GridCoord) -> Seq<GridCoord>
    decreases axis_gap(a, b),
{
    if a == b {
        seq![a]
    } else {
        direct_path(a, cell_before(a, b)).push(b)
    }
}

/// On a map without obstacles the straightest way is a path, and it costs
/// the octile distance.
pub proof fn lemma_direct_path(m: WalkMap, a: GridCoord, b: GridCoord)
    requires
        obstacle_free(m),
        in_bounds(m, a),
        in_bounds(m, b),
    ensures
        connects(m, direct_path(a, b), a, b),
        path_cost(direct_path(a, b)) == octile(a, b),
    decreases axis_gap(a, b),
{
    if a == b {
        assert(walkable(m, a));
    } else {
        let c = cell_before(a, b);
        assert(in_bounds(m, c));
        assert(walkable(m, b));
        lemma_direct_path(m, a, c);
        lemma_path_push(m, direct_path(a, c), b);
    }
}

/// On a map without obstacles a shortest path between two cells costs the
/// octile distance between them, and there is one between any two.
pub proof fn lemma_open_grid_cost(m: WalkMap, p: Seq<GridCoord>, start: GridCoord, end: GridCoord)
    requires
        obstacle_free(m),
        in_bounds(m, start),
        in_bounds(m, end),
    ensures
        reachable(m, start, end),
        is_shortest(m, p, start, end) ==> path_cost(p) == octile(start, end),
{
    lemma_direct_path(m, start, end);
    if is_shortest(m, p, start, end) {
        lemma_path_cost_lower_bound(m, p);
    }
}

} // verus!
