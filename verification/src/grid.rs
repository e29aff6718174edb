//! The grid: a rectangular table of cells, each walkable or blocked, with
//! the scratch values that a search leaves on them.

use vstd::prelude::*;
use crate::coords::GridCoord;
use crate::map_text::{
    cells, height, lemma_lines_nonempty, lines, load_defect, load_map_matrix, map_cells,
    matrix_defect, walk_map, width, MalformedMapError, MapNodeType, Matrix, MAX_CELLS,
};
use crate::path::{in_bounds, neighbour_at, valid_map, walkable, WalkMap};

verus! {

/// The f-cost of a cell that no search has reached.
pub const INFINITY: i32 = 99999999;

/// Where a cell stands in the search that last ran.
#[derive(Clone, Copy, Debug, PartialEq, Eq, Structural)]
pub enum Visit {
    /// Not reached.
    Unseen,
    /// Reached, on the frontier.
    Open,
    /// Taken from the frontier: its cost is final.
    Closed,
}

/// One cell of the grid. `x`, `y` and `walkable` never change; the other
/// fields are scratch values of the last search.
#[derive(Clone, Copy, Debug)]
pub struct Node {
    pub x: i32,
    pub y: i32,
    pub walkable: bool,
    pub g_cost: i32,
    pub h_cost: i32,
    pub f_cost: i32,
    pub parent: Option<GridCoord>,
    pub visit: Visit,
}

impl Node {
    /// The node with its scratch values as they are before a search.
    pub open spec fn cleared(self) -> Node {
        Node { g_cost: 0, h_cost: 0, f_cost: INFINITY, parent: None, visit: Visit::Unseen, ..self }
    }

    /// The node with the scratch values of a cell reached at cost `g`,
    /// `h` away from the target, through `parent`.
    pub open spec fn reached(self, g: int, h: int, parent: Option<GridCoord>) -> Node {
        Node {
            g_cost: g as i32,
            h_cost: h as i32,
            f_cost: (g + h) as i32,
            parent,
            visit: Visit::Open,
            ..self
        }
    }

    /// The node as it is once taken from the frontier.
    pub open spec fn closed(self) -> Node {
        Node { visit: Visit::Closed, ..self }
    }
}

/// A rectangular table of cells. Column `x` and row `y` count from 0; row 0
/// is the bottom row.
pub struct Grid {
    width: i32,
    height: i32,
    nodes: Vec<Vec<Node>>,
}

impl View for Grid {
    type V = WalkMap;

    /// The walkability of every cell, by column and row.
    closed spec fn view(&self) -> WalkMap {
        Seq::new(
            self.nodes@.len(),
            |x: int| Seq::new(self.nodes@[x]@.len(), |y: int| self.nodes@[x]@[y].walkable),
        )
    }
}

impl Grid {
    /// Every constructor yields a well-formed grid and every method keeps it
    /// so: the table has `width` columns of `height` cells, within
    /// `MAX_CELLS`, and each cell knows its own place.
    pub closed spec fn wf(&self) -> bool {
        &&& 0 < self.width
        &&& 0 < self.height
        &&& self.width * self.height <= MAX_CELLS
        &&& self.nodes@.len() == self.width
        &&& forall|x: int| 0 <= x < self.width ==> (#[trigger] self.nodes@[x])@.len() == self.height
        &&& forall|x: int, y: int|
            0 <= x < self.width && 0 <= y < self.height ==> {
                let n = #[trigger] self.nodes@[x]@[y];
                n.x == x && n.y == y
            }
    }

    /// The cells, scratch values included, by column and row.
    pub closed spec fn table(&self) -> Seq<Seq<Node>> {
        Seq::new(self.nodes@.len(), |x: int| self.nodes@[x]@)
    }

    /// The cell at `c`, scratch values included.
    pub open spec fn node_at(&self, c: GridCoord) -> Node {
        at(self.table(), c)
    }

    /// What well-formedness says of the view and of the cells.
    pub proof fn lemma_wf(&self)
        requires
            self.wf(),
        ensures
            valid_map(self@),
            self.table().len() == self@.len(),
            forall|x: int|
                0 <= x < self@.len() ==> (#[trigger] self.table()[x]).len() == self@[0].len(),
            forall|c: GridCoord|
                in_bounds(self@, c) ==> {
                    let n = #[trigger] self.node_at(c);
                    n.x == c.0 && n.y == c.1 && n.walkable == self@[c.0 as int][c.1 as int]
                },
    {
        assert forall|c: GridCoord| in_bounds(self@, c) implies {
            let n = #[trigger] self.node_at(c);
            n.x == c.0 && n.y == c.1 && n.walkable == self@[c.0 as int][c.1 as int]
        } by {
            let n = self.nodes@[c.0 as int]@[c.1 as int];
            assert(n.x == c.0 && n.y == c.1);
        }
    }

    /// Number of columns.
    pub fn width(&self) -> (w: i32)
        requires
            self.wf(),
        ensures
            w == self@.len(),
    {
        self.width
    }

    /// Number of rows.
    pub fn height(&self) -> (h: i32)
        requires
            self.wf(),
        ensures
            h == self@[0].len(),
    {
        self.height
    }

    /// Whether `coord` is a cell of the grid that can be walked on. A
    /// coordinate outside the grid is not walkable.
    pub fn is_walkable(&self, coord: GridCoord) -> (b: bool)
        requires
            self.wf(),
        ensures
            b == walkable(self@, coord),
    {
        if coord.0 < 0 || coord.0 >= self.width || coord.1 < 0 || coord.1 >= self.height {
            false
        } else {
            self.nodes[coord.0 as usize][coord.1 as usize].walkable
        }
    }

    /// The cell at `coord` with the scratch values of the last search, or
    /// `None` outside the grid.
    pub fn node(&self, coord: GridCoord) -> (n: Option<Node>)
        requires
            self.wf(),
        ensures
            n == (if in_bounds(self@, coord) {
                Some(self.node_at(coord))
            } else {
                None
            }),
    {
        if coord.0 < 0 || coord.0 >= self.width || coord.1 < 0 || coord.1 >= self.height {
            None
        } else {
            Some(self.nodes[coord.0 as usize][coord.1 as usize])
        }
    }

    /// A grid of `width` columns and `height` rows in which every cell is
    /// walkable.
    pub fn new(width: i32, height: i32) -> (grid: Grid)
        requires
            0 < width,
            0 < height,
            width * height <= MAX_CELLS,
        ensures
            grid.wf(),
            grid@.len() == width,
            grid@[0].len() == height,
            forall|c: GridCoord| in_bounds(grid@, c) ==> walkable(grid@, c),
            grid.table() == blank_table(grid@),
    {
        let mut nodes: Vec<Vec<Node>> = Vec::new();
        let mut x: i32 = 0;
        while x < width
            invariant
                0 <= x <= width,
                0 < height,
                nodes@.len() == x,
                forall|i: int| 0 <= i < x ==> (#[trigger] nodes@[i])@.len() == height,
                forall|i: int, j: int|
                    0 <= i < x && 0 <= j < height ==> #[trigger] nodes@[i]@[j] == blank_node(
                        i,
                        j,
                        true,
                    ),
            decreases width - x,
        {
            let mut column: Vec<Node> = Vec::new();
            let mut y: i32 = 0;
            while y < height
                invariant
                    0 <= y <= height,
                    column@.len() == y,
                    forall|j: int|
                        0 <= j < y ==> #[trigger] column@[j] == blank_node(x as int, j, true),
                decreases height - y,
            {
                column.push(
                    Node {
                        x,
                        y,
                        walkable: true,
                        g_cost: 0,
                        h_cost: 0,
                        f_cost: INFINITY,
                        parent: None,
                        visit: Visit::Unseen,
                    },
                );
                y = y + 1;
            }
            nodes.push(column);
            x = x + 1;
        }
        let grid = Grid { width, height, nodes };
        proof {
            assert(grid@.len() == width);
            assert(grid@[0].len() == height);
            assert forall|c: GridCoord| in_bounds(grid@, c) implies walkable(grid@, c) by {
                let n = grid.nodes@[c.0 as int]@[c.1 as int];
                assert(n == blank_node(c.0 as int, c.1 as int, true));
            }
            assert(grid.table() =~~= blank_table(grid@));
        }
        grid
    }

    /// Appends to `out` the cell at `c` shifted by `(dx, dy)` if it is a
    /// walkable cell of the grid.
    fn push_neighbour(&self, out: &mut Vec<GridCoord>, c: GridCoord, dx: i32, dy: i32)
        requires
            self.wf(),
            -1 <= dx <= 1,
            -1 <= dy <= 1,
        ensures
            final(out)@ == old(out)@ + neighbour_at(self@, c, dx as int, dy as int),
    {
        let x: i64 = c.0 as i64 + dx as i64;
        let y: i64 = c.1 as i64 + dy as i64;
        if 0 <= x && x < self.width as i64 && 0 <= y && y < self.height as i64 {
            if self.nodes[x as usize][y as usize].walkable {
                out.push((x as i32, y as i32));
                assert(final(out)@ =~= old(out)@ + neighbour_at(self@, c, dx as int, dy as int));
                return ;
            }
        }
        assert(final(out)@ =~= old(out)@ + neighbour_at(self@, c, dx as int, dy as int));
    }

    /// The walkable cells among the eight around `node_coords`.
    pub fn get_neighbours(&self, node_coords: GridCoord) -> (neighbours: Vec<GridCoord>)
        requires
            self.wf(),
        ensures
            neighbours@ == crate::path::neighbours(self@, node_coords),
    {
        let mut out: Vec<GridCoord> = Vec::new();
        assert(out@ =~= Seq::<GridCoord>::empty());
        self.push_neighbour(&mut out, node_coords, -1, -1);
        assert(out@ =~= neighbour_at(self@, node_coords, -1, -1));
        self.push_neighbour(&mut out, node_coords, -1, 0);
        self.push_neighbour(&mut out, node_coords, -1, 1);
        self.push_neighbour(&mut out, node_coords, 0, -1);
        self.push_neighbour(&mut out, node_coords, 0, 1);
        self.push_neighbour(&mut out, node_coords, 1, -1);
        self.push_neighbour(&mut out, node_coords, 1, 0);
        self.push_neighbour(&mut out, node_coords, 1, 1);
        out
    }

    /// The grid of a table of cells, each cell untouched by any search; an
    /// error for a table without cells, with columns of different heights,
    /// or with more than `MAX_CELLS` cells.
    pub fn from_matrix(mat: &Matrix<MapNodeType>) -> (made: Result<Grid, MalformedMapError>)
        ensures
            match made {
                Ok(grid) => {
                    &&& matrix_defect(cells(mat)) is None
                    &&& grid.wf()
                    &&& grid@ == walk_map(cells(mat))
                    &&& grid.table() == blank_table(grid@)
                },
                Err(e) => matrix_defect(cells(mat)) == Some(e),
            },
    {
        let w = width(mat);
        let h = height(mat);
        if w == 0 || h == 0 {
            return Err(MalformedMapError::Empty);
        }
        let mut i: usize = 1;
        while i < w
            invariant
                w == mat@.len(),
                h == mat@[0]@.len(),
                1 <= h,
                1 <= i <= w,
                forall|x: int| 0 <= x < i ==> (#[trigger] mat@[x])@.len() == h,
            decreases w - i,
        {
            if mat[i].len() != h {
                proof {
                    assert(cells(mat)[i as int].len() != cells(mat)[0].len());
                }
                return Err(MalformedMapError::Ragged);
            }
            i = i + 1;
        }
        proof {
            assert forall|x: int| 0 <= x < cells(mat).len() implies (#[trigger] cells(mat)[x]).len()
                == cells(mat)[0].len() by {
                assert(mat@[x]@.len() == h);
            }
        }
        if w > MAX_CELLS || h > MAX_CELLS {
            proof {
                assert(w * h > MAX_CELLS) by (nonlinear_arith)
                    requires
                        w > MAX_CELLS || h > MAX_CELLS,
                        w >= 1,
                        h >= 1,
                ;
            }
            return Err(MalformedMapError::TooLarge);
        }
        proof {
            assert(w * h <= MAX_CELLS * MAX_CELLS) by (nonlinear_arith)
                requires
                    w <= MAX_CELLS,
                    h <= MAX_CELLS,
            ;
        }
        if (w as u64) * (h as u64) > MAX_CELLS as u64 {
            return Err(MalformedMapError::TooLarge);
        }
        let mut nodes: Vec<Vec<Node>> = Vec::new();
        let mut x: usize = 0;
        while x < w
            invariant
                w == mat@.len(),
                h == mat@[0]@.len(),
                w <= MAX_CELLS,
                h <= MAX_CELLS,
                forall|i: int| 0 <= i < w ==> (#[trigger] mat@[i])@.len() == h,
                0 <= x <= w,
                nodes@.len() == x,
                forall|i: int| 0 <= i < x ==> (#[trigger] nodes@[i])@.len() == h,
                forall|i: int, j: int|
                    0 <= i < x && 0 <= j < h ==> #[trigger] nodes@[i]@[j] == blank_node(
                        i,
                        j,
                        mat@[i]@[j] == MapNodeType::Walkable,
                    ),
            decreases w - x,
        {
            let mut column: Vec<Node> = Vec::new();
            let mut y: usize = 0;
            while y < h
                invariant
                    w == mat@.len(),
                    h == mat@[0]@.len(),
                    w <= MAX_CELLS,
                    h <= MAX_CELLS,
                    forall|i: int| 0 <= i < w ==> (#[trigger] mat@[i])@.len() == h,
                    0 <= x < w,
                    0 <= y <= h,
                    column@.len() == y,
                    forall|j: int|
                        0 <= j < y ==> #[trigger] column@[j] == blank_node(
                            x as int,
                            j,
                            mat@[x as int]@[j] == MapNodeType::Walkable,
                        ),
                decreases h - y,
            {
                let walkable = match mat[x][y] {
                    MapNodeType::Walkable => true,
                    MapNodeType::Obstacle => false,
                };
                column.push(
                    Node {
                        x: x as i32,
                        y: y as i32,
                        walkable,
                        g_cost: 0,
                        h_cost: 0,
                        f_cost: INFINITY,
                        parent: None,
                        visit: Visit::Unseen,
                    },
                );
                y = y + 1;
            }
            nodes.push(column);
            x = x + 1;
        }
        let grid = Grid { width: w as i32, height: h as i32, nodes };
        proof {
            assert(grid@ =~~= walk_map(cells(mat)));
            assert(grid.table() =~~= blank_table(grid@));
        }
        Ok(grid)
    }

    /// The grid that a map text describes: a column for each character of
    /// a row and a row for each line, the last line being row 0; `'1'` is a
    /// blocked cell and any other character a walkable one.
    pub fn load(map_str: String) -> (loaded: Result<Grid, MalformedMapError>)
        ensures
            match loaded {
                Ok(grid) => {
                    &&& load_defect(map_str@) is None
                    &&& grid.wf()
                    &&& grid@ == walk_map(map_cells(map_str@))
                    &&& grid.table() == blank_table(grid@)
                },
                Err(e) => load_defect(map_str@) == Some(e),
            },
    {
        proof {
            lemma_lines_nonempty(map_str@);
        }
        match load_map_matrix(map_str) {
            Err(e) => Err(e),
            Ok(mat) => {
                proof {
                    let m = cells(&mat);
                    assert(m == map_cells(map_str@));
                    assert(m.len() == lines(map_str@)[0].len());
                    assert(m[0].len() == lines(map_str@).len());
                    assert forall|x: int| 0 <= x < m.len() implies (#[trigger] m[x]).len()
                        == m[0].len() by {}
                }
                Grid::from_matrix(&mat)
            },
        }
    }

    /// The cell of the grid nearest to column `x` and row `y`: each of the
    /// two is brought into the grid's range.
    pub fn clamp_coords(&self, x: i64, y: i64) -> (c: GridCoord)
        requires
            self.wf(),
        ensures
            in_bounds(self@, c),
            c.0 == clamped(x as int, self@.len() as int),
            c.1 == clamped(y as int, self@[0].len() as int),
    {
        let cx: i32 = if x < 0 {
            0
        } else if x >= self.width as i64 {
            self.width - 1
        } else {
            x as i32
        };
        let cy: i32 = if y < 0 {
            0
        } else if y >= self.height as i64 {
            self.height - 1
        } else {
            y as i32
        };
        (cx, cy)
    }

    /// Clears the scratch values of every cell.
    pub fn reset_nodes(&mut self)
        requires
            old(self).wf(),
        ensures
            final(self).wf(),
            final(self)@ == old(self)@,
            forall|c: GridCoord|
                in_bounds(old(self)@, c) ==> #[trigger] final(self).node_at(c) == old(self).node_at(
                    c,
                ).cleared(),
            final(self).table() == blank_table(old(self)@),
    {
        let mut x: usize = 0;
        while x < self.nodes.len()
            invariant
                self.wf(),
                self.width == old(self).width,
                self.height == old(self).height,
                0 <= x <= self.width,
                forall|i: int, j: int|
                    0 <= i < self.width && 0 <= j < self.height ==> #[trigger] self.nodes@[i]@[j] == (
                    if i < x {
                        old(self).nodes@[i]@[j].cleared()
                    } else {
                        old(self).nodes@[i]@[j]
                    }),
            decreases self.width - x,
        {
            let mut y: usize = 0;
            while y < self.nodes[x].len()
                invariant
                    self.wf(),
                    self.width == old(self).width,
                    self.height == old(self).height,
                    0 <= x < self.width,
                    0 <= y <= self.height,
                    forall|i: int, j: int|
                        0 <= i < self.width && 0 <= j < self.height ==> #[trigger] self.nodes@[i]@[j]
                            == (if i < x || (i == x && j < y) {
                            old(self).nodes@[i]@[j].cleared()
                        } else {
                            old(self).nodes@[i]@[j]
                        }),
                decreases self.height - y,
            {
                let n = self.nodes[x][y];
                self.nodes[x][y] = Node {
                    g_cost: 0,
                    h_cost: 0,
                    f_cost: INFINITY,
                    parent: None,
                    visit: Visit::Unseen,
                    ..n
                };
                y = y + 1;
            }
            x = x + 1;
        }
        proof {
            assert(final(self)@ =~~= old(self)@);
            assert(final(self).table() =~~= blank_table(old(self)@));
        }
    }

    /// Puts the cell at `c` on the frontier, reached at cost `g` through
    /// `parent` and `h` away from the target.
    pub(crate) fn mark_open(
        &mut self,
        c: GridCoord,
        g: i32,
        h: i32,
        parent: Option<GridCoord>,
    ) -> (node: Node)
        requires
            old(self).wf(),
            in_bounds(old(self)@, c),
            0 <= g,
            0 <= h,
            g + h <= i32::MAX,
        ensures
            final(self).wf(),
            final(self)@ == old(self)@,
            node == final(self).node_at(c),
            final(self).node_at(c) == old(self).node_at(c).reached(g as int, h as int, parent),
            final(self).table() == put(old(self).table(), c, node),
            forall|d: GridCoord|
                in_bounds(old(self)@, d) && d != c ==> #[trigger] final(self).node_at(d) == old(
                    self,
                ).node_at(d),
    {
        let n = self.nodes[c.0 as usize][c.1 as usize];
        let node = Node { g_cost: g, h_cost: h, f_cost: g + h, parent, visit: Visit::Open, ..n };
        self.nodes[c.0 as usize][c.1 as usize] = node;
        proof {
            assert(final(self)@ =~~= old(self)@);
            assert(final(self).table() =~~= put(old(self).table(), c, node));
        }
        node
    }

    /// Takes the cell at `c` from the frontier.
    pub(crate) fn mark_closed(&mut self, c: GridCoord)
        requires
            old(self).wf(),
            in_bounds(old(self)@, c),
        ensures
            final(self).wf(),
            final(self)@ == old(self)@,
            final(self).node_at(c) == old(self).node_at(c).closed(),
            final(self).table() == put(old(self).table(), c, old(self).node_at(c).closed()),
            forall|d: GridCoord|
                in_bounds(old(self)@, d) && d != c ==> #[trigger] final(self).node_at(d) == old(
                    self,
                ).node_at(d),
    {
        self.nodes[c.0 as usize][c.1 as usize].visit = Visit::Closed;
        proof {
            assert(final(self)@ =~~= old(self)@);
            assert(final(self).table() =~~= put(
                old(self).table(),
                c,
                old(self).node_at(c).closed(),
            ));
        }
    }
}

/// `v` brought into the range from 0 to `len - 1`.
pub open spec fn clamped(v: int, len: int) -> int {
    if v < 0 {
        0
    } else if v >= len {
        len - 1
    } else {
        v
    }
}

/// The cell of `table` at `c`.
pub open spec fn at(table: Seq<Seq<Node>>, c: GridCoord) -> Node {
    table[c.0 as int][c.1 as int]
}

/// `table` with `n` as the cell at `c`.
pub open spec fn put(table: Seq<Seq<Node>>, c: GridCoord, n: Node) -> Seq<Seq<Node>> {
    table.update(c.0 as int, table[c.0 as int].update(c.1 as int, n))
}

/// The cells of `m`, none of them touched by a search.
pub open spec fn blank_table(m: WalkMap) -> Seq<Seq<Node>> {
    Seq::new(m.len(), |x: int| Seq::new(m[x].len(), |y: int| blank_node(x, y, m[x][y])))
}

/// A cell at column `x` and row `y` that no search has touched.
pub open spec fn blank_node(x: int, y: int, walkable: bool) -> Node {
    Node {
        x: x as i32,
        y: y as i32,
        walkable,
        g_cost: 0,
        h_cost: 0,
        f_cost: INFINITY,
        parent: None,
        visit: Visit::Unseen,
    }
}

} // verus!
