//! Shortest paths over the grid by A* search: the search as it runs, step
//! by step what `search` defines.

use vstd::prelude::*;
use crate::coords::{distance, octile, GridCoord};
use crate::grid::{at, Grid, Node, Visit};
use crate::path::{
    adjacent, connects, in_bounds, is_path, is_shortest, lemma_neighbours, lemma_path_cost_steps,
    lemma_path_push, lemma_path_reverse, lemma_step_is_octile, obstacle_free, path_cost,
    reachable, step_cost, walkable,
};
use crate::search::{
    coord_of, is_first_least, is_first_place, key_less, relax, relax_all, search, seeded, settle,
    settled, taken, trace, traced_at, traces,
};
use crate::simplify::{simplified, simplify_path};
use crate::soundness::{
    board, board_of, cell_count, cell_id, closure_at, is_closed, lemma_first_least,
    lemma_octile_bound, lemma_place_of, lemma_relax_all_step, lemma_relax_sound,
    lemma_search_open_grid, lemma_search_same_cell, lemma_search_sound, lemma_seeded_sound,
    lemma_take_sound, lemma_trace, record_ok, records_ok, relaxed, search_inv, seen, state_of,
    Board,
};

verus! {

/// The node to take next from a frontier: the one with the least f-cost,
/// among those the one with the least h-cost, among those the first. `None`
/// when `nodes` is empty.
pub fn min_f(nodes: &Vec<Node>) -> (least: Option<(usize, Node)>)
    ensures
        match least {
            None => nodes@.len() == 0,
            Some((i, n)) => is_first_least(nodes@, i as int) && n == nodes@[i as int],
        },
{
    if nodes.len() == 0 {
        return None;
    }
    let mut min_index: usize = 0;
    let mut min: Node = nodes[0];
    let mut i: usize = 1;
    while i < nodes.len()
        invariant
            1 <= i <= nodes@.len(),
            0 <= min_index < i,
            min == nodes@[min_index as int],
            forall|j: int| 0 <= j < min_index ==> key_less(min, #[trigger] nodes@[j]),
            forall|j: int| min_index < j < i ==> !key_less(#[trigger] nodes@[j], min),
        decreases nodes@.len() - i,
    {
        let node = nodes[i];
        if node.f_cost < min.f_cost || (node.f_cost == min.f_cost && node.h_cost < min.h_cost) {
            min = node;
            min_index = i;
        }
        i = i + 1;
    }
    Some((min_index, min))
}

/// The cell at place `j` of `back` was reached from the one after it.
spec fn linked_at(g: Board, back: Seq<GridCoord>, j: int) -> bool {
    let n = g.node_at(back[j]);
    n.parent == Some(back[j + 1]) && n.g_cost == g.node_at(back[j + 1]).g_cost + step_cost(
        back[j + 1],
        back[j],
    )
}

/// The first place in `nodes` of the node of the cell at `c`.
fn position(nodes: &Vec<Node>, c: GridCoord) -> (place: Option<usize>)
    ensures
        match place {
            Some(i) => is_first_place(nodes@, c, i as int),
            None => forall|j: int| 0 <= j < nodes@.len() ==> coord_of(#[trigger] nodes@[j]) != c,
        },
{
    let mut i: usize = 0;
    while i < nodes.len()
        invariant
            0 <= i <= nodes@.len(),
            forall|j: int| 0 <= j < i ==> coord_of(#[trigger] nodes@[j]) != c,
        decreases nodes@.len() - i,
    {
        if nodes[i].x == c.0 && nodes[i].y == c.1 {
            return Some(i);
        }
        i = i + 1;
    }
    None
}

impl Grid {
    /// The scratch values of the cells of `p` are those of walking it from
    /// its first cell.
    pub open spec fn traces(&self, p: Seq<GridCoord>) -> bool {
        traces(self.table(), p)
    }

    /// The path that the parent links of the last search trace from its
    /// start to `coords`.
    fn reconstruct_path(
        &self,
        coords: GridCoord,
        Ghost(start): Ghost<GridCoord>,
        Ghost(end): Ghost<GridCoord>,
    ) -> (path: Vec<GridCoord>)
        requires
            self.wf(),
            records_ok(board(*self), start, end),
            seen(board(*self), coords),
        ensures
            connects(self@, path@, start, coords),
            path_cost(path@) == self.node_at(coords).g_cost,
            coords == start ==> path@ == seq![start],
            self.traces(path@),
            path@ == trace(self.table(), coords, self.node_at(coords).g_cost as nat),
    {
        let mut back: Vec<GridCoord> = Vec::new();
        back.push(coords);
        let mut current = coords;
        proof {
            assert(record_ok(board(*self), start, end, coords));
            assert(path_cost(back@) == 0);
        }
        loop
            invariant_except_break
                self.wf(),
                records_ok(board(*self), start, end),
                seen(board(*self), current),
                is_path(self@, back@),
                back@.first() == coords,
                back@.last() == current,
                path_cost(back@) + self.node_at(current).g_cost == self.node_at(coords).g_cost,
                coords == start ==> back@ == seq![start],
                forall|j: int|
                    0 <= j < back@.len() - 1 ==> #[trigger] linked_at(board(*self), back@, j),
            ensures
                is_path(self@, back@),
                back@.first() == coords,
                back@.last() == start,
                path_cost(back@) == self.node_at(coords).g_cost,
                coords == start ==> back@ == seq![start],
                self.node_at(start).parent is None,
                self.node_at(start).g_cost == 0,
                forall|j: int|
                    0 <= j < back@.len() - 1 ==> #[trigger] linked_at(board(*self), back@, j),
            decreases self.node_at(current).g_cost,
        {
            proof {
                assert(record_ok(board(*self), start, end, current));
            }
            let link = match self.node(current) {
                Some(n) => n.parent,
                None => None,
            };
            match link {
                None => {
                    break ;
                },
                Some(parent) => {
                    let ghost before = back@;
                    proof {
                        assert(record_ok(board(*self), start, end, parent));
                        lemma_path_push(self@, back@, parent);
                    }
                    back.push(parent);
                    current = parent;
                    proof {
                        assert forall|j: int| 0 <= j < back@.len() - 1 implies #[trigger] linked_at(
                            board(*self),
                            back@,
                            j,
                        ) by {
                            if j < before.len() - 1 {
                                assert(linked_at(board(*self), before, j));
                            }
                        }
                    }
                },
            }
        }
        let mut path: Vec<GridCoord> = Vec::new();
        let mut i: usize = back.len();
        while i > 0
            invariant
                0 <= i <= back@.len(),
                path@.len() == back@.len() - i,
                forall|j: int|
                    0 <= j < path@.len() ==> #[trigger] path@[j] == back@[back@.len() - 1 - j],
            decreases i,
        {
            i = i - 1;
            path.push(back[i]);
        }
        proof {
            assert(path@ =~= back@.reverse());
            lemma_path_reverse(self@, back@);
            assert forall|i: int| 0 <= i < path@.len() implies #[trigger] traced_at(
                self.table(),
                path@,
                i,
            ) by {
                let j = back@.len() - 1 - i;
                assert(path@[i] == back@[j]);
                if i > 0 {
                    assert(path@[i - 1] == back@[j + 1]);
                    assert(linked_at(board(*self), back@, j));
                }
            }
            lemma_path_cost_steps(self@, path@);
            lemma_trace(board(*self), path@, self.node_at(coords).g_cost as nat);
        }
        path
    }

    /// A cheapest path from `start` to `end` over walkable cells, each next
    /// to the one before, or `None` when there is none: when either cell is
    /// blocked or outside the grid, or when no such path joins them. Among
    /// the cheapest paths it is the one that `search` defines: the frontier
    /// gives up its cells in the order of `min_f`, and the neighbours of a
    /// cell are looked at in the order of `get_neighbours`. The walkability
    /// of the grid stays as it was; the scratch values of its cells are
    /// those of this search, whatever an earlier one has left.
    pub fn astar(&mut self, start: GridCoord, end: GridCoord) -> (found: Option<Vec<GridCoord>>)
        requires
            old(self).wf(),
        ensures
            final(self).wf(),
            final(self)@ == old(self)@,
            match found {
                Some(p) => search(old(self)@, start, end) == Some(p@),
                None => search(old(self)@, start, end) is None,
            },
            final(self).table() == if walkable(old(self)@, start) && walkable(old(self)@, end) {
                settled(old(self)@, start, end).table
            } else {
                old(self).table()
            },
            found is Some <==> reachable(old(self)@, start, end),
            found matches Some(p) ==> is_shortest(old(self)@, p@, start, end)
                && final(self).node_at(end).g_cost == path_cost(p@) && final(self).traces(p@),
            start == end && walkable(old(self)@, start) ==> (found matches Some(p) && p@
                == seq![start]),
            obstacle_free(old(self)@) && in_bounds(old(self)@, start) && in_bounds(
                old(self)@,
                end,
            ) ==> (found matches Some(p) && path_cost(p@) == octile(start, end)),
    {
        if !self.is_walkable(start) || !self.is_walkable(end) {
            proof {
                self.lemma_wf();
                lemma_search_sound(self@, start, end);
            }
            return None;
        }
        self.reset_nodes();
        proof {
            self.lemma_wf();
            lemma_octile_bound(board(*self), start, end);
        }
        let h = distance(start, end);
        let first = self.mark_open(start, 0, h, None);
        let mut open: Vec<Node> = Vec::new();
        open.push(first);
        let ghost mut ids: Set<int> = Set::empty();
        proof {
            lemma_seeded_sound(self@, start, end);
            assert(state_of(*self, open@) == seeded(self@, start, end));
        }
        loop
            invariant
                self.wf(),
                self@ == old(self)@,
                walkable(self@, start),
                walkable(self@, end),
                search_inv(board(*self), open@, ids, start, end, None),
                !is_closed(board(*self), end),
                settle(
                    state_of(*self, open@),
                    self@,
                    end,
                    (cell_count(board(*self)) - ids.len()) as nat,
                ) == settled(self@, start, end),
            decreases cell_count(board(*self)) - ids.len(),
        {
            let ghost s0 = state_of(*self, open@);
            let ghost fuel = (cell_count(board(*self)) - ids.len()) as nat;
            proof {
                assert(board(*self) == board_of(self@, s0));
            }
            match min_f(&open) {
                None => {
                    proof {
                        lemma_search_sound(self@, start, end);
                        if obstacle_free(self@) {
                            lemma_search_open_grid(self@, start, end);
                        }
                    }
                    return None;
                },
                Some((index, current)) => {
                    let cur: GridCoord = (current.x, current.y);
                    proof {
                        lemma_first_least(open@, index as int);
                        lemma_take_sound(self@, s0, ids, start, end);
                        assert(current == at(self.table(), cur));
                    }
                    open.remove(index);
                    self.mark_closed(cur);
                    let ghost base = state_of(*self, open@);
                    proof {
                        ids = ids.insert(cell_id(board_of(self@, s0), cur));
                        assert(base == taken(s0));
                        assert(board(*self) == board_of(self@, base));
                    }
                    if cur.0 == end.0 && cur.1 == end.1 {
                        let path = self.reconstruct_path(end, Ghost(start), Ghost(end));
                        proof {
                            lemma_search_sound(self@, start, end);
                            if start == end {
                                lemma_search_same_cell(self@, start);
                            }
                            if obstacle_free(self@) {
                                lemma_search_open_grid(self@, start, end);
                            }
                        }
                        return Some(path);
                    }
                    let neighbours = self.get_neighbours(cur);
                    proof {
                        lemma_neighbours(self@, cur);
                    }
                    let mut k: usize = 0;
                    while k < neighbours.len()
                        invariant
                            self.wf(),
                            self@ == old(self)@,
                            walkable(self@, start),
                            walkable(self@, end),
                            search_inv(board(*self), open@, ids, start, end, Some(cur)),
                            is_closed(board(*self), cur),
                            !is_closed(board(*self), end),
                            cur == coord_of(current),
                            at(self.table(), cur).g_cost == current.g_cost,
                            0 <= current.g_cost,
                            current.g_cost + 14 <= 14 * ids.len(),
                            ids.len() <= cell_count(board(*self)),
                            0 <= k <= neighbours@.len(),
                            forall|v: GridCoord| #[trigger]
                                neighbours@.contains(v) <==> (adjacent(cur, v) && walkable(
                                    self@,
                                    v,
                                )),
                            forall|j: int|
                                0 <= j < k ==> relaxed(
                                    board(*self),
                                    cur,
                                    #[trigger] neighbours@[j],
                                ),
                            state_of(*self, open@) == relax_all(
                                base,
                                current,
                                neighbours@.take(k as int),
                                end,
                            ),
                        decreases neighbours@.len() - k,
                    {
                        let v = neighbours[k];
                        let ghost before = state_of(*self, open@);
                        proof {
                            assert(board(*self) == board_of(self@, before));
                            assert(neighbours@.contains(v));
                            self.lemma_wf();
                            lemma_step_is_octile(cur, v);
                            lemma_octile_bound(board(*self), v, end);
                            lemma_relax_all_step(base, current, neighbours@, k as int, end);
                            lemma_relax_sound(self@, before, ids, start, end, current, v);
                        }
                        match self.node(v) {
                            None => {},
                            Some(node) => {
                                match node.visit {
                                    Visit::Closed => {},
                                    Visit::Open => {
                                        let new_g = current.g_cost + distance(cur, v);
                                        if new_g < node.g_cost {
                                            let h = distance(v, end);
                                            let update = self.mark_open(v, new_g, h, Some(cur));
                                            match position(&open, v) {
                                                Some(place) => {
                                                    proof {
                                                        lemma_place_of(before.open, v, place as int);
                                                    }
                                                    open[place] = update;
                                                },
                                                None => {
                                                    proof {
                                                        assert(before.open.contains(
                                                            board_of(self@, before).node_at(v),
                                                        ));
                                                    }
                                                },
                                            }
                                        }
                                    },
                                    Visit::Unseen => {
                                        let new_g = current.g_cost + distance(cur, v);
                                        let h = distance(v, end);
                                        let added = self.mark_open(v, new_g, h, Some(cur));
                                        open.push(added);
                                    },
                                }
                            },
                        }
                        proof {
                            let after = state_of(*self, open@);
                            assert(after == relax(before, current, v, end));
                            assert(board(*self) == board_of(self@, after));
                        }
                        k = k + 1;
                    }
                    proof {
                        assert(neighbours@.take(neighbours@.len() as int) =~= neighbours@);
                        assert(settle(s0, self@, end, fuel) == settle(
                            state_of(*self, open@),
                            self@,
                            end,
                            (fuel - 1) as nat,
                        ));
                        assert(closure_at(board(*self), cur)) by {
                            assert forall|v: GridCoord|
                                adjacent(cur, v) && walkable(self@, v) implies #[trigger] relaxed(
                                board(*self),
                                cur,
                                v,
                            ) by {
                                assert(neighbours@.contains(v));
                                let j = choose|j: int|
                                    0 <= j < neighbours@.len() && neighbours@[j] == v;
                                assert(relaxed(board(*self), cur, neighbours@[j]));
                            }
                        }
                    }
                },
            }
        }
    }

    /// The waypoints of a cheapest path from `start` to `end`, or `None`
    /// when no path joins them.
    pub fn find_path(&mut self, start: GridCoord, end: GridCoord) -> (waypoints: Option<
        Vec<GridCoord>,
    >)
        requires
            old(self).wf(),
        ensures
            final(self).wf(),
            final(self)@ == old(self)@,
            match waypoints {
                Some(w) => search(old(self)@, start, end) matches Some(p) && w@ == simplified(p),
                None => search(old(self)@, start, end) is None,
            },
            final(self).table() == if walkable(old(self)@, start) && walkable(old(self)@, end) {
                settled(old(self)@, start, end).table
            } else {
                old(self).table()
            },
            waypoints is Some <==> reachable(old(self)@, start, end),
            waypoints matches Some(w) ==> exists|p: Seq<GridCoord>| #[trigger]
                is_shortest(old(self)@, p, start, end) && w@ == simplified(p),
    {
        match self.astar(start, end) {
            None => None,
            Some(path) => {
                let ghost p = path@;
                let w = simplify_path(path);
                assert(is_shortest(old(self)@, p, start, end) && w@ == simplified(p));
                Some(w)
            },
        }
    }
}

} // verus!
