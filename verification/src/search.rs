//! What an A* search is: a frontier of open cells that gives them up by
//! f-cost, the cells taken from it, whose cost is final, and the steps that
//! lead from one state of the two to the next.

use vstd::prelude::*;
use crate::coords::{octile, GridCoord};
use crate::grid::{at, blank_table, put, Node, Visit};
use crate::path::{neighbours, step_cost, walkable, WalkMap};

verus! {

/// `a` goes before `b` on the frontier: a lower f-cost, or the same f-cost
/// and a lower h-cost.
pub open spec fn key_less(a: Node, b: Node) -> bool {
    a.f_cost < b.f_cost || (a.f_cost == b.f_cost && a.h_cost < b.h_cost)
}

/// `i` is the first place in `nodes` that no other node goes before.
pub open spec fn is_first_least(nodes: Seq<Node>, i: int) -> bool {
    &&& 0 <= i < nodes.len()
    &&& forall|j: int| 0 <= j < i ==> key_less(nodes[i], #[trigger] nodes[j])
    &&& forall|j: int| i < j < nodes.len() ==> !key_less(#[trigger] nodes[j], nodes[i])
}

/// The cell that a node is the record of.
pub open spec fn coord_of(n: Node) -> GridCoord {
    (n.x, n.y)
}

/// A search between two pops: the cells with their scratch values, and
/// the frontier in the order in which its cells came onto it.
pub struct SearchState {
    pub table: Seq<Seq<Node>>,
    pub open: Seq<Node>,
}

/// The place of the node that `min_f` takes from `nodes`.
pub open spec fn first_least(nodes: Seq<Node>) -> int {
    choose|i: int| is_first_least(nodes, i)
}

/// `k` is the first place in `nodes` of a node of the cell at `c`.
pub open spec fn is_first_place(nodes: Seq<Node>, c: GridCoord, k: int) -> bool {
    &&& 0 <= k < nodes.len()
    &&& coord_of(nodes[k]) == c
    &&& forall|j: int| 0 <= j < k ==> coord_of(#[trigger] nodes[j]) != c
}

/// The first place in `nodes` of a node of the cell at `c`.
pub open spec fn place_of(nodes: Seq<Node>, c: GridCoord) -> int {
    choose|k: int| is_first_place(nodes, c, k)
}

/// The search as it starts: every cell untouched but `start`, which is on
/// the frontier at no cost.
pub open spec fn seeded(m: WalkMap, start: GridCoord, end: GridCoord) -> SearchState {
    let first = at(blank_table(m), start).reached(0, octile(start, end), None);
    SearchState { table: put(blank_table(m), start, first), open: seq![first] }
}

/// The search once the node that `min_f` picks has been taken from the
/// frontier and closed.
pub open spec fn taken(s: SearchState) -> SearchState {
    let i = first_least(s.open);
    SearchState {
        table: put(s.table, coord_of(s.open[i]), s.open[i].closed()),
        open: s.open.remove(i),
    }
}

/// The search once it has looked at the neighbour `v` of the closed cell
/// of `cur`: a closed neighbour stays as it is; one on the frontier is
/// reached anew if that is cheaper; any other comes onto the frontier.
pub open spec fn relax(s: SearchState, cur: Node, v: GridCoord, end: GridCoord) -> SearchState {
    let n = at(s.table, v);
    let g = cur.g_cost + step_cost(coord_of(cur), v);
    let reached = n.reached(g, octile(v, end), Some(coord_of(cur)));
    match n.visit {
        Visit::Closed => s,
        Visit::Open => if g < n.g_cost {
            SearchState {
                table: put(s.table, v, reached),
                open: s.open.update(place_of(s.open, v), reached),
            }
        } else {
            s
        },
        Visit::Unseen => SearchState { table: put(s.table, v, reached), open: s.open.push(reached) },
    }
}

/// The search once it has looked at the neighbours `around`, in their
/// order.
pub open spec fn relax_all(
    s: SearchState,
    cur: Node,
    around: Seq<GridCoord>,
    end: GridCoord,
) -> SearchState
    decreases around.len(),
{
    if around.len() == 0 {
        s
    } else {
        relax(relax_all(s, cur, around.drop_last(), end), cur, around.last(), end)
    }
}

/// The way back from `c` along the parent links, told from its far end,
/// over at most `fuel` links.
pub open spec fn trace(table: Seq<Seq<Node>>, c: GridCoord, fuel: nat) -> Seq<GridCoord>
    decreases fuel,
{
    match at(table, c).parent {
        Some(p) => if fuel > 0 {
            trace(table, p, (fuel - 1) as nat).push(c)
        } else {
            seq![c]
        },
        None => seq![c],
    }
}

/// The scratch values of the cells of `p` are those of walking it from its
/// first cell: no parent and no cost at the first, and at each other the
/// cell before as parent and the cost so far as g-cost.
pub open spec fn traces(table: Seq<Seq<Node>>, p: Seq<GridCoord>) -> bool {
    forall|i: int| 0 <= i < p.len() ==> #[trigger] traced_at(table, p, i)
}

/// What `traces` asks of the cell at place `i` of `p`.
pub open spec fn traced_at(table: Seq<Seq<Node>>, p: Seq<GridCoord>, i: int) -> bool {
    let n = at(table, p[i]);
    if i == 0 {
        n.parent is None && n.g_cost == 0
    } else {
        n.parent == Some(p[i - 1]) && n.g_cost == at(table, p[i - 1]).g_cost + step_cost(
            p[i - 1],
            p[i],
        )
    }
}

/// Where the search stops from the state `s` within `fuel` pops: at once
/// with an empty frontier; with `end` closed once `end` is the cell taken;
/// else where it stops after that cell's neighbours have been looked at.
pub open spec fn settle(s: SearchState, m: WalkMap, end: GridCoord, fuel: nat) -> SearchState
    decreases fuel,
{
    if fuel == 0 || s.open.len() == 0 {
        s
    } else {
        let cur = s.open[first_least(s.open)];
        if coord_of(cur) == end {
            taken(s)
        } else {
            settle(
                relax_all(taken(s), cur, neighbours(m, coord_of(cur)), end),
                m,
                end,
                (fuel - 1) as nat,
            )
        }
    }
}

/// Where a search over `m` from `start` to `end` stops. Each pop closes a
/// cell, so there are no more pops than cells.
pub open spec fn settled(m: WalkMap, start: GridCoord, end: GridCoord) -> SearchState {
    settle(seeded(m, start, end), m, end, m.len() * m[0].len())
}

/// What a search over `m` from `start` to `end` finds: nothing where one
/// of the two is no walkable cell or where it stops with `end` not closed;
/// else the way back from `end`.
pub open spec fn search(m: WalkMap, start: GridCoord, end: GridCoord) -> Option<Seq<GridCoord>> {
    let table = settled(m, start, end).table;
    if walkable(m, start) && walkable(m, end) && at(table, end).visit == Visit::Closed {
        Some(trace(table, end, at(table, end).g_cost as nat))
    } else {
        None
    }
}

} // verus!
