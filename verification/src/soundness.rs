//! Why the search is sound: what holds of it between two pops, that every
//! step keeps it so, and that therefore what it finds is a cheapest path.

use vstd::prelude::*;
use crate::coords::{octile, GridCoord};
use crate::grid::{at, blank_table, put, Grid, Node, Visit};
use crate::map_text::MAX_CELLS;
use crate::path::{
    adjacent, connects, in_bounds, is_path, is_shortest, lemma_neighbours, lemma_octile_step,
    lemma_open_grid_cost, lemma_path_cost_steps, lemma_path_push, lemma_path_take, neighbours,
    obstacle_free, path_cost, reachable, step_cost, valid_map, walkable, WalkMap,
};
use crate::search::{
    coord_of, first_least, is_first_least, is_first_place, key_less, place_of, relax, relax_all,
    search, seeded, settle, settled, taken, trace, traced_at, traces, SearchState,
};

verus! {

/// A walkability map with the scratch values that a search over it has
/// left on its cells.
pub(crate) struct Board {
    pub(crate) map: WalkMap,
    pub(crate) table: Seq<Seq<Node>>,
}

impl Board {
    /// The cell at `c`.
    pub(crate) open spec fn node_at(&self, c: GridCoord) -> Node {
        at(self.table, c)
    }

    /// The table has a cell for each cell of the map, which knows its place
    /// and whether it is walkable.
    pub(crate) open spec fn wf(&self) -> bool {
        &&& valid_map(self.map)
        &&& self.table.len() == self.map.len()
        &&& forall|x: int|
            0 <= x < self.map.len() ==> (#[trigger] self.table[x]).len() == self.map[0].len()
        &&& forall|c: GridCoord|
            in_bounds(self.map, c) ==> {
                let n = #[trigger] at(self.table, c);
                n.x == c.0 && n.y == c.1 && n.walkable == self.map[c.0 as int][c.1 as int]
            }
    }

    /// What a well-formed board says of each of its cells.
    proof fn lemma_wf(&self)
        requires
            self.wf(),
        ensures
            valid_map(self.map),
            forall|c: GridCoord|
                in_bounds(self.map, c) ==> {
                    let n = #[trigger] self.node_at(c);
                    n.x == c.0 && n.y == c.1 && n.walkable == self.map[c.0 as int][c.1 as int]
                },
    {
    }
}

/// The map and the cells of `g`.
pub(crate) open spec fn board(g: Grid) -> Board {
    Board { map: g@, table: g.table() }
}

/// A first least place is the only one.
pub(crate) proof fn lemma_first_least(nodes: Seq<Node>, i: int)
    requires
        is_first_least(nodes, i),
    ensures
        first_least(nodes) == i,
{
    let j = first_least(nodes);
    if j < i {
        assert(key_less(nodes[i], nodes[j]));
    } else if i < j {
        assert(key_less(nodes[j], nodes[i]));
    }
}

/// A first place of a cell is the only one.
pub(crate) proof fn lemma_place_of(nodes: Seq<Node>, c: GridCoord, k: int)
    requires
        is_first_place(nodes, c, k),
    ensures
        place_of(nodes, c) == k,
{
}

/// Looking at one neighbour more is one more step of `relax`.
pub(crate) proof fn lemma_relax_all_step(
    s: SearchState,
    cur: Node,
    around: Seq<GridCoord>,
    k: int,
    end: GridCoord,
)
    requires
        0 <= k < around.len(),
    ensures
        relax_all(s, cur, around.take(k + 1), end) == relax(
            relax_all(s, cur, around.take(k), end),
            cur,
            around[k],
            end,
        ),
{
    assert(around.take(k + 1).drop_last() =~= around.take(k));
}

/// Where the parent links of the cells of `p` are `p` itself, the way back
/// from its last cell is `p`.
pub(crate) proof fn lemma_trace(g: Board, p: Seq<GridCoord>, fuel: nat)
    requires
        p.len() >= 1,
        traces(g.table, p),
        fuel >= p.len() - 1,
    ensures
        trace(g.table, p.last(), fuel) == p,
    decreases p.len(),
{
    assert(traced_at(g.table, p, p.len() - 1));
    if p.len() > 1 {
        let q = p.drop_last();
        assert forall|i: int| 0 <= i < q.len() implies #[trigger] traced_at(g.table, q, i) by {
            assert(traced_at(g.table, p, i));
        }
        lemma_trace(g, q, (fuel - 1) as nat);
        assert(q.push(p.last()) =~= p);
    }
}

/// The state of the search that runs on `g` with the frontier `open`.
pub(crate) open spec fn state_of(g: Grid, open: Seq<Node>) -> SearchState {
    SearchState { table: g.table(), open }
}

/// The search has reached the cell at `c`.
pub(crate) open spec fn seen(g: Board, c: GridCoord) -> bool {
    in_bounds(g.map, c) && g.node_at(c).visit != Visit::Unseen
}

/// The search has taken the cell at `c` from the frontier.
pub(crate) open spec fn is_closed(g: Board, c: GridCoord) -> bool {
    in_bounds(g.map, c) && g.node_at(c).visit == Visit::Closed
}

/// The frontier holds the open cells, each once, as they now are.
pub(crate) open spec fn frontier_ok(g: Board, open: Seq<Node>) -> bool {
    &&& forall|i: int|
        0 <= i < open.len() ==> {
            let n = #[trigger] open[i];
            in_bounds(g.map, coord_of(n)) && n == g.node_at(coord_of(n)) && n.visit == Visit::Open
        }
    &&& forall|i: int, j: int|
        0 <= i < j < open.len() ==> coord_of(#[trigger] open[i]) != coord_of(#[trigger] open[j])
    &&& forall|c: GridCoord|
        in_bounds(g.map, c) && (#[trigger] g.node_at(c)).visit == Visit::Open ==> open.contains(
            g.node_at(c),
        )
}

/// Some path from `start` to `c` costs `cost`.
pub(crate) open spec fn has_path(
    g: Board,
    start: GridCoord,
    c: GridCoord,
    cost: int,
) -> bool {
    exists|q: Seq<GridCoord>| #[trigger] connects(g.map, q, start, c) && path_cost(q) == cost
}

/// What the scratch values of a reached cell say.
pub(crate) open spec fn record_ok(
    g: Board,
    start: GridCoord,
    end: GridCoord,
    c: GridCoord,
) -> bool {
    let n = g.node_at(c);
    &&& walkable(g.map, c)
    &&& 0 <= n.g_cost
    &&& n.h_cost == octile(c, end)
    &&& n.f_cost == n.g_cost + n.h_cost
    &&& has_path(g, start, c, n.g_cost as int)
    &&& c == start ==> n.g_cost == 0 && n.parent is None
    &&& c != start ==> {
        &&& n.parent matches Some(p)
        &&& is_closed(g, p)
        &&& adjacent(p, c)
        &&& n.g_cost == g.node_at(p).g_cost + step_cost(p, c)
    }
}

/// Every reached cell has sound scratch values.
pub(crate) open spec fn records_ok(g: Board, start: GridCoord, end: GridCoord) -> bool {
    forall|c: GridCoord| seen(g, c) ==> #[trigger] record_ok(g, start, end, c)
}

/// `v` has been reached, at no more than the cost of going through `u`.
pub(crate) open spec fn relaxed(g: Board, u: GridCoord, v: GridCoord) -> bool {
    seen(g, v) && g.node_at(v).g_cost <= g.node_at(u).g_cost + step_cost(u, v)
}

/// Every walkable cell around `u` has been reached, at no more than the
/// cost of going through `u`.
pub(crate) open spec fn closure_at(g: Board, u: GridCoord) -> bool {
    forall|v: GridCoord| adjacent(u, v) && walkable(g.map, v) ==> #[trigger] relaxed(g, u, v)
}

/// Every closed cell but `except` has relaxed all its neighbours.
pub(crate) open spec fn closure_ok(g: Board, except: Option<GridCoord>) -> bool {
    forall|u: GridCoord| is_closed(g, u) && Some(u) != except ==> #[trigger] closure_at(g, u)
}

/// No path from `start` to `u` is cheaper than the g-cost of `u`.
pub(crate) open spec fn optimal_at(g: Board, start: GridCoord, u: GridCoord) -> bool {
    forall|q: Seq<GridCoord>| #[trigger]
        connects(g.map, q, start, u) ==> g.node_at(u).g_cost <= path_cost(q)
}

/// Every closed cell has its final cost.
pub(crate) open spec fn optimal_ok(g: Board, start: GridCoord) -> bool {
    forall|u: GridCoord| is_closed(g, u) ==> #[trigger] optimal_at(g, start, u)
}

/// Along a path from `start`, either the cell at `k` is closed at no more
/// than the path's cost so far, or some open cell's f-cost is no more than
/// that cost plus the distance left.
proof fn lemma_frontier(
    g: Board,
    open: Seq<Node>,
    start: GridCoord,
    end: GridCoord,
    q: Seq<GridCoord>,
    k: int,
)
    requires
        frontier_ok(g, open),
        records_ok(g, start, end),
        closure_ok(g, None),
        seen(g, start),
        is_path(g.map, q),
        q[0] == start,
        0 <= k < q.len(),
    ensures
        (is_closed(g, q[k]) && g.node_at(q[k]).g_cost <= path_cost(q.take(k + 1))) || (exists|
            i: int,
        |
            0 <= i < open.len() && (#[trigger] open[i]).f_cost <= path_cost(q.take(k + 1)) + octile(
                q[k],
                end,
            )),
    decreases k,
{
    let c = q[k];
    if k == 0 {
        assert(record_ok(g, start, end, start));
        assert(path_cost(q.take(1)) == 0);
        if !is_closed(g, c) {
            assert(g.node_at(c).visit == Visit::Open);
            let n = g.node_at(c);
            assert(open.contains(n));
            let i = choose|i: int| 0 <= i < open.len() && open[i] == n;
            assert(open[i].f_cost <= path_cost(q.take(k + 1)) + octile(q[k], end));
        }
    } else {
        lemma_frontier(g, open, start, end, q, k - 1);
        lemma_path_take(g.map, q, k);
        let b = q[k - 1];
        assert(adjacent(q[k - 1], q[k - 1 + 1]));
        lemma_octile_step(b, c, end);
        if is_closed(g, b) && g.node_at(b).g_cost <= path_cost(q.take(k)) {
            assert(closure_at(g, b));
            assert(walkable(g.map, q[k]));
            assert(relaxed(g, b, c));
            assert(record_ok(g, start, end, c));
            if !is_closed(g, c) {
                let n = g.node_at(c);
                assert(open.contains(n));
                let i = choose|i: int| 0 <= i < open.len() && open[i] == n;
                assert(open[i].f_cost <= path_cost(q.take(k + 1)) + octile(q[k], end));
            }
        } else {
            let i = choose|i: int|
                0 <= i < open.len() && (#[trigger] open[i]).f_cost <= path_cost(q.take(k)) + octile(
                    b,
                    end,
                );
            assert(open[i].f_cost <= path_cost(q.take(k + 1)) + octile(q[k], end));
        }
    }
}

/// The open cell with the least f-cost has its final cost.
proof fn lemma_pop_optimal(
    g: Board,
    open: Seq<Node>,
    start: GridCoord,
    end: GridCoord,
    idx: int,
)
    requires
        frontier_ok(g, open),
        records_ok(g, start, end),
        closure_ok(g, None),
        seen(g, start),
        is_first_least(open, idx),
    ensures
        optimal_at(g, start, coord_of(open[idx])),
{
    let u = coord_of(open[idx]);
    assert(open[idx] == g.node_at(u));
    assert(record_ok(g, start, end, u));
    assert forall|q: Seq<GridCoord>| #[trigger] connects(g.map, q, start, u) implies g.node_at(
        u,
    ).g_cost <= path_cost(q) by {
        lemma_frontier(g, open, start, end, q, q.len() - 1);
        assert(q.take(q.len() as int) =~= q);
        let i = choose|i: int|
            0 <= i < open.len() && (#[trigger] open[i]).f_cost <= path_cost(q) + octile(u, end);
        if i < idx {
            assert(key_less(open[idx], open[i]));
        } else if i > idx {
            assert(!key_less(open[i], open[idx]));
        }
    }
}

/// With nothing left on the frontier, every cell that a path from `start`
/// passes is closed.
proof fn lemma_exhausted(
    g: Board,
    start: GridCoord,
    end: GridCoord,
    q: Seq<GridCoord>,
)
    requires
        frontier_ok(g, Seq::<Node>::empty()),
        records_ok(g, start, end),
        closure_ok(g, None),
        seen(g, start),
        connects(g.map, q, start, end),
    ensures
        is_closed(g, end),
{
    lemma_frontier(g, Seq::<Node>::empty(), start, end, q, q.len() - 1);
}

/// A closed neighbour of a reached cell costs no more than going through
/// that cell.
proof fn lemma_closed_neighbour(
    g: Board,
    start: GridCoord,
    end: GridCoord,
    u: GridCoord,
    v: GridCoord,
)
    requires
        records_ok(g, start, end),
        optimal_ok(g, start),
        seen(g, u),
        is_closed(g, v),
        adjacent(u, v),
        walkable(g.map, v),
    ensures
        relaxed(g, u, v),
{
    assert(record_ok(g, start, end, u));
    let q = choose|q: Seq<GridCoord>| #[trigger]
        connects(g.map, q, start, u) && path_cost(q) == g.node_at(u).g_cost;
    lemma_path_push(g.map, q, v);
    assert(optimal_at(g, start, v));
    assert(connects(g.map, q.push(v), start, v));
}

/// A number for each cell of the grid, no two alike.
pub(crate) open spec fn cell_id(g: Board, c: GridCoord) -> int {
    c.0 * g.map[0].len() + c.1
}

/// How many cells the grid has.
pub(crate) open spec fn cell_count(g: Board) -> int {
    (g.map.len() * g.map[0].len()) as int
}

/// `ids` numbers the closed cells.
pub(crate) open spec fn closed_ids_ok(g: Board, ids: Set<int>) -> bool {
    &&& ids.finite()
    &&& forall|i: int| ids.contains(i) ==> 0 <= i < cell_count(g)
    &&& forall|c: GridCoord|
        in_bounds(g.map, c) ==> (ids.contains(#[trigger] cell_id(g, c)) <==> g.node_at(c).visit
            == Visit::Closed)
}

/// No reached cell costs more than 14 for each closed cell.
pub(crate) open spec fn bound_ok(g: Board, n: int) -> bool {
    forall|c: GridCoord| seen(g, c) ==> (#[trigger] g.node_at(c)).g_cost <= 14 * n
}

/// The numbers of two cells lie below the cell count and differ.
proof fn lemma_cell_id(g: Board, c: GridCoord, d: GridCoord)
    requires
        valid_map(g.map),
        in_bounds(g.map, c),
        in_bounds(g.map, d),
    ensures
        0 <= cell_id(g, c) < cell_count(g),
        cell_id(g, c) == cell_id(g, d) ==> c == d,
{
    let w = g.map.len() as int;
    let h = g.map[0].len() as int;
    let (cx, cy) = (c.0 as int, c.1 as int);
    let (dx, dy) = (d.0 as int, d.1 as int);
    assert(0 <= cx * h + cy < w * h) by (nonlinear_arith)
        requires
            0 <= cx < w,
            0 <= cy < h,
    ;
    assert(cx * h + cy == dx * h + dy ==> cx == dx && cy == dy) by (nonlinear_arith)
        requires
            0 <= cx,
            0 <= dx,
            0 <= cy < h,
            0 <= dy < h,
    ;
}

/// There are no more closed cells than cells.
proof fn lemma_ids_bound(g: Board, ids: Set<int>)
    requires
        valid_map(g.map),
        closed_ids_ok(g, ids),
    ensures
        ids.len() <= cell_count(g),
{
    vstd::set_lib::lemma_int_range(0, cell_count(g));
    assert(ids.subset_of(vstd::set_lib::set_int_range(0, cell_count(g))));
    vstd::set_lib::lemma_len_subset(ids, vstd::set_lib::set_int_range(0, cell_count(g)));
}

/// Between two cells of a valid map the octile distance is at most 14 for
/// each cell of the map.
pub(crate) proof fn lemma_octile_bound(g: Board, a: GridCoord, b: GridCoord)
    requires
        valid_map(g.map),
        in_bounds(g.map, a),
        in_bounds(g.map, b),
    ensures
        0 <= octile(a, b) <= 14 * cell_count(g),
        cell_count(g) <= crate::map_text::MAX_CELLS,
{
    let w = g.map.len() as int;
    let h = g.map[0].len() as int;
    assert(w <= w * h && h <= w * h) by (nonlinear_arith)
        requires
            0 < w,
            0 < h,
    ;
}

/// What holds of a search between two pops, and, with `except` set, while
/// the neighbours of the cell just popped are being gone through.
pub(crate) open spec fn search_inv(
    g: Board,
    open: Seq<Node>,
    ids: Set<int>,
    start: GridCoord,
    end: GridCoord,
    except: Option<GridCoord>,
) -> bool {
    &&& g.wf()
    &&& valid_map(g.map)
    &&& walkable(g.map, start)
    &&& walkable(g.map, end)
    &&& seen(g, start)
    &&& frontier_ok(g, open)
    &&& records_ok(g, start, end)
    &&& closure_ok(g, except)
    &&& optimal_ok(g, start)
    &&& closed_ids_ok(g, ids)
    &&& bound_ok(g, ids.len() as int)
}

/// `g1` is `g0` but for the scratch values of the cell at `c`.
pub(crate) open spec fn same_but(g0: Board, g1: Board, c: GridCoord) -> bool {
    &&& g1.wf()
    &&& g1.map == g0.map
    &&& forall|d: GridCoord|
        in_bounds(g0.map, d) && d != c ==> #[trigger] g1.node_at(d) == g0.node_at(d)
}

/// Closing the cell that `min_f` picked keeps the search sound.
proof fn lemma_close(
    g0: Board,
    g1: Board,
    open: Seq<Node>,
    ids: Set<int>,
    start: GridCoord,
    end: GridCoord,
    idx: int,
)
    requires
        search_inv(g0, open, ids, start, end, None),
        is_first_least(open, idx),
        same_but(g0, g1, coord_of(open[idx])),
        g1.node_at(coord_of(open[idx])) == g0.node_at(coord_of(open[idx])).closed(),
    ensures
        search_inv(
            g1,
            open.remove(idx),
            ids.insert(cell_id(g0, coord_of(open[idx]))),
            start,
            end,
            Some(coord_of(open[idx])),
        ),
        ids.insert(cell_id(g0, coord_of(open[idx]))).len() == ids.len() + 1,
        ids.len() + 1 <= cell_count(g0),
        g0.node_at(coord_of(open[idx])).g_cost <= 14 * ids.len(),
        forall|c: GridCoord| c != coord_of(open[idx]) ==> (is_closed(g1, c) <==> is_closed(g0, c)),
{
    let u = coord_of(open[idx]);
    let open1 = open.remove(idx);
    let ids1 = ids.insert(cell_id(g0, u));
    g0.lemma_wf();
    assert(open[idx] == g0.node_at(u));
    lemma_pop_optimal(g0, open, start, end, idx);
    lemma_cell_id(g0, u, u);
    assert(!ids.contains(cell_id(g0, u)));
    // the frontier
    assert forall|i: int| 0 <= i < open1.len() implies {
        let n = #[trigger] open1[i];
        in_bounds(g1.map, coord_of(n)) && n == g1.node_at(coord_of(n)) && n.visit == Visit::Open
    } by {
        let j = if i < idx {
            i
        } else {
            i + 1
        };
        assert(open1[i] == open[j]);
        assert(coord_of(open[j]) != coord_of(open[idx]));
    }
    assert forall|i: int, j: int| 0 <= i < j < open1.len() implies coord_of(#[trigger] open1[i])
        != coord_of(#[trigger] open1[j]) by {
        let i0 = if i < idx {
            i
        } else {
            i + 1
        };
        let j0 = if j < idx {
            j
        } else {
            j + 1
        };
        assert(open1[i] == open[i0] && open1[j] == open[j0]);
    }
    assert forall|c: GridCoord|
        in_bounds(g1.map, c) && (#[trigger] g1.node_at(c)).visit == Visit::Open implies open1.contains(
        g1.node_at(c),
    ) by {
        assert(c != u);
        assert(g0.node_at(c).visit == Visit::Open);
        assert(open.contains(g0.node_at(c)));
        let j = choose|j: int| 0 <= j < open.len() && open[j] == g0.node_at(c);
        assert(j != idx);
        let i = if j < idx {
            j
        } else {
            j - 1
        };
        assert(open1[i] == g1.node_at(c));
    }
    // the records
    assert forall|c: GridCoord| seen(g1, c) implies #[trigger] record_ok(g1, start, end, c) by {
        assert(seen(g0, c));
        assert(record_ok(g0, start, end, c));
        assert(has_path(g1, start, c, g1.node_at(c).g_cost as int) == has_path(
            g0,
            start,
            c,
            g0.node_at(c).g_cost as int,
        ));
    }
    // what closed cells hold
    assert forall|a: GridCoord| is_closed(g1, a) && Some(a) != Some(u) implies #[trigger] closure_at(
        g1,
        a,
    ) by {
        assert(closure_at(g0, a));
        assert forall|v: GridCoord| adjacent(a, v) && walkable(g1.map, v) implies #[trigger] relaxed(
            g1,
            a,
            v,
        ) by {
            assert(relaxed(g0, a, v));
        }
    }
    assert forall|a: GridCoord| is_closed(g1, a) implies #[trigger] optimal_at(g1, start, a) by {
        if a != u {
            assert(optimal_at(g0, start, a));
        }
        assert forall|q: Seq<GridCoord>| #[trigger] connects(g1.map, q, start, a) implies g1.node_at(
            a,
        ).g_cost <= path_cost(q) by {
            assert(connects(g0.map, q, start, a));
        }
    }
    // the count
    assert forall|c: GridCoord| in_bounds(g1.map, c) implies (ids1.contains(#[trigger] cell_id(g1, c))
        <==> g1.node_at(c).visit == Visit::Closed) by {
        lemma_cell_id(g0, c, u);
        assert(cell_id(g1, c) == cell_id(g0, c));
    }
    assert(closed_ids_ok(g1, ids1));
    lemma_ids_bound(g1, ids1);
    assert(record_ok(g0, start, end, u));
    assert forall|c: GridCoord| seen(g1, c) implies (#[trigger] g1.node_at(c)).g_cost <= 14 * (
    ids1.len() as int) by {
        assert(seen(g0, c));
        assert(g0.node_at(c).g_cost <= 14 * ids.len());
    }
}

/// Reaching `v` from the closed cell `u`, for the first time or at a lower
/// cost than before, keeps the search sound.
proof fn lemma_relax(
    g1: Board,
    g2: Board,
    open1: Seq<Node>,
    open2: Seq<Node>,
    ids: Set<int>,
    start: GridCoord,
    end: GridCoord,
    u: GridCoord,
    v: GridCoord,
    new_g: int,
    k: int,
)
    requires
        search_inv(g1, open1, ids, start, end, Some(u)),
        is_closed(g1, u),
        adjacent(u, v),
        walkable(g1.map, v),
        !is_closed(g1, v),
        new_g == g1.node_at(u).g_cost + step_cost(u, v),
        new_g <= 14 * ids.len(),
        g1.node_at(v).visit == Visit::Unseen || new_g < g1.node_at(v).g_cost,
        same_but(g1, g2, v),
        g2.node_at(v) == g1.node_at(v).reached(new_g, octile(v, end), Some(u)),
        g1.node_at(v).visit == Visit::Unseen ==> open2 == open1.push(g2.node_at(v)),
        g1.node_at(v).visit != Visit::Unseen ==> 0 <= k < open1.len() && coord_of(open1[k]) == v
            && open2 == open1.update(k, g2.node_at(v)),
    ensures
        search_inv(g2, open2, ids, start, end, Some(u)),
        relaxed(g2, u, v),
        forall|w: GridCoord| relaxed(g1, u, w) ==> relaxed(g2, u, w),
        forall|c: GridCoord| is_closed(g2, c) <==> is_closed(g1, c),
        g2.node_at(u) == g1.node_at(u),
{
    g1.lemma_wf();
    g2.lemma_wf();
    lemma_octile_bound(g1, v, end);
    lemma_ids_bound(g1, ids);
    assert(record_ok(g1, start, end, u));
    assert(record_ok(g1, start, end, start));
    assert(0 <= new_g <= 14 * cell_count(g1));
    let n2 = g2.node_at(v);
    assert(n2.g_cost == new_g && n2.h_cost == octile(v, end) && n2.f_cost == new_g + octile(v, end));
    assert(v != start);
    assert(v != u);
    // the frontier
    assert forall|i: int| 0 <= i < open2.len() implies {
        let n = #[trigger] open2[i];
        in_bounds(g2.map, coord_of(n)) && n == g2.node_at(coord_of(n)) && n.visit == Visit::Open
    } by {
        if g1.node_at(v).visit == Visit::Unseen {
            if i < open1.len() {
                assert(open2[i] == open1[i]);
            }
        } else {
            if i != k {
                assert(open2[i] == open1[i]);
                assert(coord_of(open1[i]) != coord_of(open1[k]));
            }
        }
    }
    assert forall|i: int, j: int| 0 <= i < j < open2.len() implies coord_of(#[trigger] open2[i])
        != coord_of(#[trigger] open2[j]) by {
        if g1.node_at(v).visit == Visit::Unseen {
            assert(open2[i] == open1[i]);
            if j < open1.len() {
                assert(open2[j] == open1[j]);
            }
        } else {
            assert(coord_of(open2[i]) == coord_of(open1[i]));
            assert(coord_of(open2[j]) == coord_of(open1[j]));
        }
    }
    assert forall|c: GridCoord|
        in_bounds(g2.map, c) && (#[trigger] g2.node_at(c)).visit == Visit::Open implies open2.contains(
        g2.node_at(c),
    ) by {
        if c == v {
            if g1.node_at(v).visit == Visit::Unseen {
                assert(open2[open1.len() as int] == g2.node_at(v));
            } else {
                assert(open2[k] == g2.node_at(v));
            }
        } else {
            assert(g1.node_at(c).visit == Visit::Open);
            assert(open1.contains(g1.node_at(c)));
            let j = choose|j: int| 0 <= j < open1.len() && open1[j] == g1.node_at(c);
            assert(coord_of(open1[j]) == c);
            assert(open2[j] == g2.node_at(c));
        }
    }
    // the records
    assert forall|c: GridCoord| seen(g2, c) implies #[trigger] record_ok(g2, start, end, c) by {
        if c == v {
            let q = choose|q: Seq<GridCoord>| #[trigger]
                connects(g1.map, q, start, u) && path_cost(q) == g1.node_at(u).g_cost;
            lemma_path_push(g1.map, q, v);
            assert(connects(g2.map, q.push(v), start, v));
            assert(has_path(g2, start, v, new_g));
        } else {
            assert(seen(g1, c));
            assert(record_ok(g1, start, end, c));
            assert(has_path(g2, start, c, g2.node_at(c).g_cost as int) == has_path(
                g1,
                start,
                c,
                g1.node_at(c).g_cost as int,
            ));
        }
    }
    // what closed cells hold
    assert forall|a: GridCoord, w: GridCoord| relaxed(g1, a, w) && is_closed(g1, a) implies relaxed(
        g2,
        a,
        w,
    ) by {}
    assert forall|a: GridCoord| is_closed(g2, a) && Some(a) != Some(u) implies #[trigger] closure_at(
        g2,
        a,
    ) by {
        assert(closure_at(g1, a));
        assert forall|w: GridCoord| adjacent(a, w) && walkable(g2.map, w) implies #[trigger] relaxed(
            g2,
            a,
            w,
        ) by {
            assert(relaxed(g1, a, w));
        }
    }
    assert forall|a: GridCoord| is_closed(g2, a) implies #[trigger] optimal_at(g2, start, a) by {
        assert(optimal_at(g1, start, a));
        assert forall|q: Seq<GridCoord>| #[trigger] connects(g2.map, q, start, a) implies g2.node_at(
            a,
        ).g_cost <= path_cost(q) by {
            assert(connects(g1.map, q, start, a));
        }
    }
    // the count
    assert forall|c: GridCoord| in_bounds(g2.map, c) implies (ids.contains(#[trigger] cell_id(g2, c))
        <==> g2.node_at(c).visit == Visit::Closed) by {
        assert(cell_id(g2, c) == cell_id(g1, c));
    }
    assert forall|c: GridCoord| seen(g2, c) implies (#[trigger] g2.node_at(c)).g_cost <= 14 * (
    ids.len() as int) by {
        if c != v {
            assert(seen(g1, c));
        }
    }
}

/// A search that has only put `start` on the frontier is sound.
proof fn lemma_seed(g0: Board, g1: Board, start: GridCoord, end: GridCoord)
    requires
        g0.wf(),
        walkable(g0.map, start),
        walkable(g0.map, end),
        forall|c: GridCoord| in_bounds(g0.map, c) ==> (#[trigger] g0.node_at(c)).visit == Visit::Unseen,
        same_but(g0, g1, start),
        g1.node_at(start) == g0.node_at(start).reached(0, octile(start, end), None),
    ensures
        search_inv(g1, seq![g1.node_at(start)], Set::<int>::empty(), start, end, None),
        forall|c: GridCoord| !is_closed(g1, c),
{
    g0.lemma_wf();
    g1.lemma_wf();
    lemma_octile_bound(g0, start, end);
    let open = seq![g1.node_at(start)];
    assert forall|c: GridCoord|
        in_bounds(g1.map, c) && (#[trigger] g1.node_at(c)).visit == Visit::Open implies open.contains(
        g1.node_at(c),
    ) by {
        assert(c == start);
        assert(open[0] == g1.node_at(c));
    }
    assert forall|c: GridCoord| seen(g1, c) implies #[trigger] record_ok(g1, start, end, c) by {
        assert(c == start);
        let q = seq![start];
        assert(connects(g1.map, q, start, start));
        assert(path_cost(q) == 0);
    }
    assert forall|c: GridCoord| in_bounds(g1.map, c) implies (Set::<int>::empty().contains(
        #[trigger] cell_id(g1, c),
    ) <==> g1.node_at(c).visit == Visit::Closed) by {}
}

/// The board over `m` with the cells of `s`.
pub(crate) open spec fn board_of(m: WalkMap, s: SearchState) -> Board {
    Board { map: m, table: s.table }
}

/// A frontier that is not empty has a first least node.
proof fn lemma_first_least_exists(nodes: Seq<Node>, n: int) -> (i: int)
    requires
        1 <= n <= nodes.len(),
    ensures
        0 <= i < n,
        forall|j: int| 0 <= j < i ==> key_less(nodes[i], #[trigger] nodes[j]),
        forall|j: int| i < j < n ==> !key_less(#[trigger] nodes[j], nodes[i]),
        n == nodes.len() ==> is_first_least(nodes, i) && first_least(nodes) == i,
    decreases n,
{
    let i = if n == 1 {
        0
    } else {
        let before = lemma_first_least_exists(nodes, n - 1);
        if key_less(nodes[n - 1], nodes[before]) {
            n - 1
        } else {
            before
        }
    };
    if n == nodes.len() {
        assert(is_first_least(nodes, i));
        lemma_first_least(nodes, i);
    }
    i
}

/// Where a node of the cell at `c` stands in `nodes`, one stands there
/// first.
proof fn lemma_first_place_exists(nodes: Seq<Node>, c: GridCoord, k: int)
    requires
        0 <= k < nodes.len(),
        coord_of(nodes[k]) == c,
    ensures
        is_first_place(nodes, c, place_of(nodes, c)),
    decreases k,
{
    if exists|j: int| 0 <= j < k && coord_of(#[trigger] nodes[j]) == c {
        let j = choose|j: int| 0 <= j < k && coord_of(#[trigger] nodes[j]) == c;
        lemma_first_place_exists(nodes, c, j);
    } else {
        assert(is_first_place(nodes, c, k));
    }
}

/// Putting a node with the same place and walkability at `c` changes the
/// board at `c` only.
proof fn lemma_put(g: Board, c: GridCoord, n: Node)
    requires
        g.wf(),
        in_bounds(g.map, c),
        n.x == c.0,
        n.y == c.1,
        n.walkable == g.node_at(c).walkable,
    ensures
        same_but(g, Board { map: g.map, table: put(g.table, c, n) }, c),
        at(put(g.table, c, n), c) == n,
{
    let g1 = Board { map: g.map, table: put(g.table, c, n) };
    assert(g.table[c.0 as int].len() == g.map[0].len());
    assert forall|x: int| 0 <= x < g1.map.len() implies (#[trigger] g1.table[x]).len()
        == g1.map[0].len() by {
        assert(g.table[x].len() == g.map[0].len());
    }
    assert forall|d: GridCoord| in_bounds(g1.map, d) implies {
        let k = #[trigger] at(g1.table, d);
        k.x == d.0 && k.y == d.1 && k.walkable == g1.map[d.0 as int][d.1 as int]
    } by {
        assert(g.table[d.0 as int].len() == g.map[0].len());
        let k = at(g.table, d);
        assert(k.x == d.0);
    }
    assert forall|d: GridCoord| in_bounds(g.map, d) && d != c implies #[trigger] g1.node_at(d)
        == g.node_at(d) by {
        assert(g.table[d.0 as int].len() == g.map[0].len());
    }
}

/// Taking the first least node from the frontier and closing its cell
/// keeps the search sound.
pub(crate) proof fn lemma_take_sound(
    m: WalkMap,
    s: SearchState,
    ids: Set<int>,
    start: GridCoord,
    end: GridCoord,
)
    requires
        search_inv(board_of(m, s), s.open, ids, start, end, None),
        s.open.len() > 0,
    ensures
        ({
            let cur = s.open[first_least(s.open)];
            let u = coord_of(cur);
            let next = ids.insert(cell_id(board_of(m, s), u));
            &&& 0 <= first_least(s.open) < s.open.len()
            &&& search_inv(board_of(m, taken(s)), taken(s).open, next, start, end, Some(u))
            &&& next.len() == ids.len() + 1
            &&& next.len() <= cell_count(board_of(m, s))
            &&& is_closed(board_of(m, taken(s)), u)
            &&& forall|c: GridCoord|
                c != u ==> (is_closed(board_of(m, taken(s)), c) <==> is_closed(board_of(m, s), c))
            &&& at(taken(s).table, u).g_cost == cur.g_cost
            &&& 0 <= cur.g_cost
            &&& cur.g_cost + 14 <= 14 * next.len()
        }),
{
    let g = board_of(m, s);
    let i = lemma_first_least_exists(s.open, s.open.len() as int);
    let cur = s.open[i];
    let u = coord_of(cur);
    assert(cur == g.node_at(u));
    lemma_put(g, u, cur.closed());
    lemma_close(g, board_of(m, taken(s)), s.open, ids, start, end, i);
    assert(record_ok(g, start, end, u));
}

/// Looking at one neighbour of the cell just closed keeps the search
/// sound, and leaves that neighbour reached at no more than the cost of
/// going through the closed cell.
pub(crate) proof fn lemma_relax_sound(
    m: WalkMap,
    s: SearchState,
    ids: Set<int>,
    start: GridCoord,
    end: GridCoord,
    cur: Node,
    v: GridCoord,
)
    requires
        search_inv(board_of(m, s), s.open, ids, start, end, Some(coord_of(cur))),
        is_closed(board_of(m, s), coord_of(cur)),
        at(s.table, coord_of(cur)).g_cost == cur.g_cost,
        0 <= cur.g_cost,
        cur.g_cost + 14 <= 14 * ids.len(),
        adjacent(coord_of(cur), v),
        walkable(m, v),
    ensures
        ({
            let u = coord_of(cur);
            let r = relax(s, cur, v, end);
            &&& search_inv(board_of(m, r), r.open, ids, start, end, Some(u))
            &&& relaxed(board_of(m, r), u, v)
            &&& forall|w: GridCoord|
                relaxed(board_of(m, s), u, w) ==> relaxed(board_of(m, r), u, w)
            &&& forall|c: GridCoord| is_closed(board_of(m, r), c) <==> is_closed(board_of(m, s), c)
            &&& at(r.table, u) == at(s.table, u)
        }),
{
    let g = board_of(m, s);
    let u = coord_of(cur);
    let n = at(s.table, v);
    let new_g = cur.g_cost + step_cost(u, v);
    match n.visit {
        Visit::Closed => {
            lemma_closed_neighbour(g, start, end, u, v);
        },
        Visit::Open => {
            if new_g < n.g_cost {
                let r = relax(s, cur, v, end);
                g.lemma_wf();
                lemma_put(g, v, n.reached(new_g, octile(v, end), Some(u)));
                assert(s.open.contains(g.node_at(v)));
                let k0 = choose|k: int| 0 <= k < s.open.len() && s.open[k] == g.node_at(v);
                lemma_first_place_exists(s.open, v, k0);
                lemma_relax(
                    g,
                    board_of(m, r),
                    s.open,
                    r.open,
                    ids,
                    start,
                    end,
                    u,
                    v,
                    new_g,
                    place_of(s.open, v),
                );
            }
        },
        Visit::Unseen => {
            let r = relax(s, cur, v, end);
            g.lemma_wf();
            lemma_put(g, v, n.reached(new_g, octile(v, end), Some(u)));
            lemma_relax(g, board_of(m, r), s.open, r.open, ids, start, end, u, v, new_g, 0);
        },
    }
}

/// Looking at walkable cells around the cell just closed, one after the
/// other, keeps the search sound and leaves each of them reached at no
/// more than the cost of going through the closed cell.
proof fn lemma_relax_all_sound(
    m: WalkMap,
    s: SearchState,
    ids: Set<int>,
    start: GridCoord,
    end: GridCoord,
    cur: Node,
    around: Seq<GridCoord>,
)
    requires
        search_inv(board_of(m, s), s.open, ids, start, end, Some(coord_of(cur))),
        is_closed(board_of(m, s), coord_of(cur)),
        at(s.table, coord_of(cur)).g_cost == cur.g_cost,
        0 <= cur.g_cost,
        cur.g_cost + 14 <= 14 * ids.len(),
        forall|j: int|
            0 <= j < around.len() ==> adjacent(coord_of(cur), #[trigger] around[j]) && walkable(
                m,
                around[j],
            ),
    ensures
        ({
            let u = coord_of(cur);
            let r = relax_all(s, cur, around, end);
            &&& search_inv(board_of(m, r), r.open, ids, start, end, Some(u))
            &&& forall|j: int|
                0 <= j < around.len() ==> relaxed(board_of(m, r), u, #[trigger] around[j])
            &&& forall|c: GridCoord| is_closed(board_of(m, r), c) <==> is_closed(board_of(m, s), c)
            &&& at(r.table, u) == at(s.table, u)
        }),
    decreases around.len(),
{
    if around.len() > 0 {
        let u = coord_of(cur);
        let before = around.drop_last();
        assert forall|j: int| 0 <= j < before.len() implies adjacent(u, #[trigger] before[j])
            && walkable(m, before[j]) by {
            assert(before[j] == around[j]);
        }
        lemma_relax_all_sound(m, s, ids, start, end, cur, before);
        let r0 = relax_all(s, cur, before, end);
        assert(adjacent(u, around[around.len() - 1]));
        lemma_relax_sound(m, r0, ids, start, end, cur, around.last());
        let r = relax_all(s, cur, around, end);
        assert forall|j: int| 0 <= j < around.len() implies relaxed(
            board_of(m, r),
            u,
            #[trigger] around[j],
        ) by {
            if j < before.len() {
                assert(relaxed(board_of(m, r0), u, before[j]));
            }
        }
    }
}

/// The way back from a reached cell is a path from `start` to it, at the
/// cell's g-cost.
proof fn lemma_trace_path(
    g: Board,
    start: GridCoord,
    end: GridCoord,
    c: GridCoord,
    fuel: nat,
)
    requires
        g.wf(),
        records_ok(g, start, end),
        seen(g, c),
        fuel >= g.node_at(c).g_cost,
    ensures
        connects(g.map, trace(g.table, c, fuel), start, c),
        path_cost(trace(g.table, c, fuel)) == g.node_at(c).g_cost,
    decreases fuel,
{
    assert(record_ok(g, start, end, c));
    if c == start {
        assert(path_cost(seq![c]) == 0);
    } else {
        let p = g.node_at(c).parent->0;
        assert(record_ok(g, start, end, p));
        lemma_trace_path(g, start, end, p, (fuel - 1) as nat);
        lemma_path_push(g.map, trace(g.table, p, (fuel - 1) as nat), c);
    }
}

/// Where a sound search stops, either `end` is closed at its final cost or
/// no path leads to it.
proof fn lemma_settle_sound(
    m: WalkMap,
    s: SearchState,
    ids: Set<int>,
    start: GridCoord,
    end: GridCoord,
    fuel: nat,
)
    requires
        search_inv(board_of(m, s), s.open, ids, start, end, None),
        !is_closed(board_of(m, s), end),
        fuel == cell_count(board_of(m, s)) - ids.len(),
    ensures
        ({
            let g = board_of(m, settle(s, m, end, fuel));
            &&& g.wf()
            &&& records_ok(g, start, end)
            &&& is_closed(g, end) ==> optimal_at(g, start, end)
            &&& !is_closed(g, end) ==> !reachable(m, start, end)
        }),
    decreases fuel,
{
    let g = board_of(m, s);
    if s.open.len() == 0 {
        assert(s.open =~= Seq::<Node>::empty());
        assert forall|q: Seq<GridCoord>| !connects(m, q, start, end) by {
            if connects(m, q, start, end) {
                lemma_exhausted(g, start, end, q);
            }
        }
    } else {
        lemma_take_sound(m, s, ids, start, end);
        let cur = s.open[first_least(s.open)];
        let u = coord_of(cur);
        let next = ids.insert(cell_id(g, u));
        if u != end {
            let around = neighbours(m, u);
            lemma_neighbours(m, u);
            assert forall|j: int| 0 <= j < around.len() implies adjacent(u, #[trigger] around[j])
                && walkable(m, around[j]) by {
                assert(around.contains(around[j]));
            }
            lemma_relax_all_sound(m, taken(s), next, start, end, cur, around);
            let r = relax_all(taken(s), cur, around, end);
            let gr = board_of(m, r);
            assert(closure_at(gr, u)) by {
                assert forall|v: GridCoord| adjacent(u, v) && walkable(m, v) implies #[trigger] relaxed(
                    gr,
                    u,
                    v,
                ) by {
                    assert(around.contains(v));
                    let j = choose|j: int| 0 <= j < around.len() && around[j] == v;
                    assert(relaxed(gr, u, around[j]));
                }
            }
            lemma_settle_sound(m, r, next, start, end, (fuel - 1) as nat);
        }
    }
}

/// The search as it starts is sound.
pub(crate) proof fn lemma_seeded_sound(m: WalkMap, start: GridCoord, end: GridCoord)
    requires
        valid_map(m),
        walkable(m, start),
        walkable(m, end),
    ensures
        search_inv(
            board_of(m, seeded(m, start, end)),
            seeded(m, start, end).open,
            Set::<int>::empty(),
            start,
            end,
            None,
        ),
        forall|c: GridCoord| !is_closed(board_of(m, seeded(m, start, end)), c),
{
    let g0 = Board { map: m, table: blank_table(m) };
    assert(m.len() <= MAX_CELLS && m[0].len() <= MAX_CELLS) by (nonlinear_arith)
        requires
            m.len() * m[0].len() <= MAX_CELLS,
            0 < m.len(),
            0 < m[0].len(),
    ;
    assert(g0.wf());
    let first = at(blank_table(m), start).reached(0, octile(start, end), None);
    lemma_put(g0, start, first);
    lemma_seed(g0, board_of(m, seeded(m, start, end)), start, end);
}

/// What a search finds is a cheapest path from `start` to `end`, and it
/// finds nothing only where no path leads from `start` to `end`.
pub proof fn lemma_search_sound(m: WalkMap, start: GridCoord, end: GridCoord)
    requires
        valid_map(m),
    ensures
        match search(m, start, end) {
            Some(p) => is_shortest(m, p, start, end),
            None => !reachable(m, start, end),
        },
{
    if walkable(m, start) && walkable(m, end) {
        let s = seeded(m, start, end);
        lemma_seeded_sound(m, start, end);
        lemma_settle_sound(m, s, Set::<int>::empty(), start, end, m.len() * m[0].len());
        let g = board_of(m, settled(m, start, end));
        if is_closed(g, end) {
            let p = trace(g.table, end, g.node_at(end).g_cost as nat);
            assert(record_ok(g, start, end, end));
            lemma_trace_path(g, start, end, end, g.node_at(end).g_cost as nat);
            assert forall|q: Seq<GridCoord>| #[trigger] connects(m, q, start, end) implies path_cost(
                p,
            ) <= path_cost(q) by {}
        }
    } else {
        assert forall|q: Seq<GridCoord>| !connects(m, q, start, end) by {
            if connects(m, q, start, end) {
                assert(walkable(m, q[0]));
                assert(walkable(m, q[q.len() - 1]));
            }
        }
    }
}

/// A search from a walkable cell to itself finds that cell alone.
pub proof fn lemma_search_same_cell(m: WalkMap, c: GridCoord)
    requires
        valid_map(m),
        walkable(m, c),
    ensures
        search(m, c, c) == Some(seq![c]),
{
    lemma_search_sound(m, c, c);
    let q = seq![c];
    assert(connects(m, q, c, c));
    assert(path_cost(q) == 0);
    let p = search(m, c, c)->0;
    lemma_path_cost_steps(m, p);
    assert(p =~= q);
}

/// On a map without obstacles a search between two of its cells finds a
/// path that costs the octile distance between them.
pub proof fn lemma_search_open_grid(m: WalkMap, start: GridCoord, end: GridCoord)
    requires
        valid_map(m),
        obstacle_free(m),
        in_bounds(m, start),
        in_bounds(m, end),
    ensures
        search(m, start, end) matches Some(p) && path_cost(p) == octile(start, end),
{
    lemma_search_sound(m, start, end);
    lemma_open_grid_cost(m, search(m, start, end)->0, start, end);
}

} // verus!
