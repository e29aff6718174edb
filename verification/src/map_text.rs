//! The text form of a map: rows of characters, `'1'` for a blocked cell and
//! anything else for a walkable one, the first line being the topmost row.

use vstd::prelude::*;

verus! {

/// What a cell of the map is.
#[derive(Clone, Copy, Debug, PartialEq, Eq, Structural)]
pub enum MapNodeType {
    Walkable,
    Obstacle,
}

/// Why a map could not be loaded.
#[derive(Clone, Copy, Debug, PartialEq, Eq, Structural)]
pub enum MalformedMapError {
    /// The first row holds no cell.
    Empty,
    /// Some row is shorter or longer than the first.
    Ragged,
    /// The map holds more cells than `MAX_CELLS`.
    TooLarge,
}

/// A table indexed by column, then by row.
pub type Matrix<T> = Vec<Vec<T>>;

/// Largest number of cells a grid may hold. It keeps every cost of a search,
/// at most 28 per cell, below `INFINITY`.
pub const MAX_CELLS: usize = 3_571_428;

/// Number of columns of `mat`.
pub fn width<T>(mat: &Matrix<T>) -> (w: usize)
    ensures
        w == mat@.len(),
{
    mat.len()
}

/// Number of rows of `mat`: the length of its first column, 0 without one.
pub fn height<T>(mat: &Matrix<T>) -> (h: usize)
    ensures
        h == (if mat@.len() > 0 {
            mat@[0]@.len()
        } else {
            0
        }),
{
    if mat.len() > 0 {
        mat[0].len()
    } else {
        0
    }
}

/// The rows of a map text: the pieces between its line feeds, so that a
/// text with `n` line feeds has `n + 1` rows. A line feed at the very end
/// begins a last row that is empty.
pub open spec fn lines(s: Seq<char>) -> Seq<Seq<char>>
    decreases s.len(),
{
    if s.len() == 0 {
        seq![Seq::empty()]
    } else {
        let before = lines(s.drop_last());
        if s.last() == '\n' {
            before.push(Seq::empty())
        } else {
            before.update(before.len() - 1, before.last().push(s.last()))
        }
    }
}

/// A text has at least one row.
pub proof fn lemma_lines_nonempty(s: Seq<char>)
    ensures
        lines(s).len() >= 1,
    decreases s.len(),
{
    if s.len() > 0 {
        lemma_lines_nonempty(s.drop_last());
    }
}

/// What a character of a map text stands for.
pub open spec fn node_type(c: char) -> MapNodeType {
    if c == '1' {
        MapNodeType::Obstacle
    } else {
        MapNodeType::Walkable
    }
}

/// The cells of a map text that has no defect, by column and row: the
/// column is the place in the row, and row 0 is the last line.
pub open spec fn map_cells(s: Seq<char>) -> Seq<Seq<MapNodeType>> {
    let rows = lines(s);
    Seq::new(
        rows[0].len(),
        |x: int| Seq::new(rows.len(), |y: int| node_type(rows[rows.len() - 1 - y][x])),
    )
}

/// What is wrong with a map text, if anything: an empty first row comes
/// before a ragged one.
pub open spec fn map_defect(s: Seq<char>) -> Option<MalformedMapError> {
    let rows = lines(s);
    if rows[0].len() == 0 {
        Some(MalformedMapError::Empty)
    } else if exists|r: int| 0 <= r < rows.len() && (#[trigger] rows[r]).len() != rows[0].len() {
        Some(MalformedMapError::Ragged)
    } else {
        None
    }
}

/// The columns of a table as sequences.
pub open spec fn cells<T>(mat: &Matrix<T>) -> Seq<Seq<T>> {
    Seq::new(mat@.len(), |x: int| mat@[x]@)
}

proof fn lemma_lines_step(s: Seq<char>, i: int)
    requires
        0 <= i < s.len(),
    ensures
        lines(s.take(i)).len() >= 1,
        s[i] == '\n' ==> lines(s.take(i + 1)) == lines(s.take(i)).push(Seq::empty()),
        s[i] != '\n' ==> lines(s.take(i + 1)) == lines(s.take(i)).update(
            lines(s.take(i)).len() - 1,
            lines(s.take(i)).last().push(s[i]),
        ),
{
    lemma_lines_nonempty(s.take(i));
    assert(s.take(i + 1).drop_last() =~= s.take(i));
}

/// The length of each row of `text`.
fn row_lengths(text: &str) -> (lens: Vec<usize>)
    ensures
        lens@.len() >= 1,
        lens@.len() == lines(text@).len(),
        forall|r: int| 0 <= r < lens@.len() ==> lens@[r] == (#[trigger] lines(text@)[r]).len(),
{
    let total = text.unicode_len();
    let mut lens: Vec<usize> = Vec::new();
    let mut current: usize = 0;
    for c in it: text.chars()
        invariant
            total == text@.len(),
            it.seq() == text@,
            lens@.len() + 1 == lines(text@.take(it.index() as int)).len(),
            forall|r: int|
                0 <= r < lens@.len() ==> lens@[r] == (#[trigger] lines(
                    text@.take(it.index() as int),
                )[r]).len(),
            current == lines(text@.take(it.index() as int)).last().len(),
            current <= it.index(),
    {
        proof {
            lemma_lines_step(text@, it.index() as int);
        }
        if c == '\n' {
            lens.push(current);
            current = 0;
        } else {
            current = current + 1;
        }
    }
    lens.push(current);
    proof {
        assert(text@.take(text@.len() as int) =~= text@);
        lemma_lines_nonempty(text@);
    }
    lens
}

/// The width of a map text, which is the length of its first row, and its
/// height, which is the number of its rows.
pub fn get_map_size(map_str: &String) -> (size: (usize, usize))
    ensures
        size.0 == lines(map_str@)[0].len(),
        size.1 == lines(map_str@).len(),
{
    let lens = row_lengths(map_str.as_str());
    (lens[0], lens.len())
}

/// The cells of each row of `text`, in the order of the text.
fn parse_rows(text: &str) -> (rows: Vec<Vec<MapNodeType>>)
    ensures
        rows@.len() >= 1,
        rows@.len() == lines(text@).len(),
        forall|r: int|
            0 <= r < rows@.len() ==> (#[trigger] rows@[r])@.len() == lines(text@)[r].len(),
        forall|r: int, x: int|
            0 <= r < rows@.len() && 0 <= x < lines(text@)[r].len() ==> #[trigger] rows@[r]@[x]
                == node_type(lines(text@)[r][x]),
{
    let mut rows: Vec<Vec<MapNodeType>> = Vec::new();
    let mut current: Vec<MapNodeType> = Vec::new();
    for c in it: text.chars()
        invariant
            it.seq() == text@,
            rows@.len() + 1 == lines(text@.take(it.index() as int)).len(),
            forall|r: int|
                0 <= r < rows@.len() ==> (#[trigger] rows@[r])@.len() == lines(
                    text@.take(it.index() as int),
                )[r].len(),
            forall|r: int, x: int|
                0 <= r < rows@.len() && 0 <= x < lines(text@.take(it.index() as int))[r].len()
                    ==> #[trigger] rows@[r]@[x] == node_type(
                    lines(text@.take(it.index() as int))[r][x],
                ),
            current@.len() == lines(text@.take(it.index() as int)).last().len(),
            forall|x: int|
                0 <= x < current@.len() ==> #[trigger] current@[x] == node_type(
                    lines(text@.take(it.index() as int)).last()[x],
                ),
    {
        proof {
            lemma_lines_step(text@, it.index() as int);
        }
        if c == '\n' {
            rows.push(current);
            current = Vec::new();
        } else if c == '1' {
            current.push(MapNodeType::Obstacle);
        } else {
            current.push(MapNodeType::Walkable);
        }
    }
    rows.push(current);
    proof {
        assert(text@.take(text@.len() as int) =~= text@);
        lemma_lines_nonempty(text@);
    }
    rows
}

/// The table of cells that a map text describes, indexed by column and
/// row; an error for a text whose first row is empty or whose rows differ
/// in length.
pub fn load_map_matrix(map_str: String) -> (loaded: Result<Matrix<MapNodeType>, MalformedMapError>)
    ensures
        match loaded {
            Ok(mat) => map_defect(map_str@) is None && cells(&mat) == map_cells(map_str@),
            Err(e) => map_defect(map_str@) == Some(e),
        },
{
    let rows = parse_rows(map_str.as_str());
    let height = rows.len();
    let width = rows[0].len();
    if width == 0 {
        return Err(MalformedMapError::Empty);
    }
    let mut r: usize = 1;
    while r < height
        invariant
            height == rows@.len(),
            1 <= r <= height,
            width == rows@[0]@.len(),
            width > 0,
            rows@.len() == lines(map_str@).len(),
            forall|i: int|
                0 <= i < rows@.len() ==> (#[trigger] rows@[i])@.len() == lines(map_str@)[i].len(),
            forall|i: int| 0 <= i < r ==> (#[trigger] rows@[i])@.len() == width,
        decreases height - r,
    {
        if rows[r].len() != width {
            proof {
                assert(lines(map_str@)[r as int].len() != lines(map_str@)[0].len());
            }
            return Err(MalformedMapError::Ragged);
        }
        r = r + 1;
    }
    let mut matrix: Matrix<MapNodeType> = Vec::new();
    let mut x: usize = 0;
    while x < width
        invariant
            height == rows@.len(),
            0 <= x <= width,
            forall|i: int| 0 <= i < height ==> (#[trigger] rows@[i])@.len() == width,
            matrix@.len() == x,
            forall|i: int| 0 <= i < x ==> (#[trigger] matrix@[i])@.len() == height,
            forall|i: int, j: int|
                0 <= i < x && 0 <= j < height ==> #[trigger] matrix@[i]@[j] == rows@[height - 1
                    - j]@[i],
        decreases width - x,
    {
        let mut column: Vec<MapNodeType> = Vec::new();
        let mut y: usize = 0;
        while y < height
            invariant
                height == rows@.len(),
                0 <= x < width,
                0 <= y <= height,
                forall|i: int| 0 <= i < height ==> (#[trigger] rows@[i])@.len() == width,
                column@.len() == y,
                forall|j: int| 0 <= j < y ==> #[trigger] column@[j] == rows@[height - 1 - j]@[x as int],
            decreases height - y,
        {
            column.push(rows[height - 1 - y][x]);
            y = y + 1;
        }
        matrix.push(column);
        x = x + 1;
    }
    proof {
        assert forall|i: int| 0 <= i < lines(map_str@).len() implies (#[trigger] lines(
            map_str@,
        )[i]).len() == lines(map_str@)[0].len() by {
            assert(rows@[i]@.len() == width);
        }
        let got = cells(&matrix);
        let want = map_cells(map_str@);
        assert(got.len() == want.len());
        assert forall|i: int| 0 <= i < got.len() implies got[i] =~= want[i] by {
            assert(matrix@[i]@.len() == height);
            assert forall|j: int| 0 <= j < height implies got[i][j] == want[i][j] by {
                assert(matrix@[i]@[j] == rows@[height - 1 - j]@[i]);
            }
        }
        assert(got =~= want);
    }
    Ok(matrix)
}

/// What keeps a table of cells from being a grid, if anything: no cell
/// at all, then columns of different heights, then too many cells.
pub open spec fn matrix_defect(m: Seq<Seq<MapNodeType>>) -> Option<MalformedMapError> {
    if m.len() == 0 || m[0].len() == 0 {
        Some(MalformedMapError::Empty)
    } else if exists|x: int| 0 <= x < m.len() && (#[trigger] m[x]).len() != m[0].len() {
        Some(MalformedMapError::Ragged)
    } else if m.len() * m[0].len() > MAX_CELLS {
        Some(MalformedMapError::TooLarge)
    } else {
        None
    }
}

/// What is wrong with a map text as the description of a grid, if
/// anything.
pub open spec fn load_defect(s: Seq<char>) -> Option<MalformedMapError> {
    if map_defect(s) is Some {
        map_defect(s)
    } else if lines(s)[0].len() * lines(s).len() > MAX_CELLS {
        Some(MalformedMapError::TooLarge)
    } else {
        None
    }
}

/// Which cells of a table can be walked on.
pub open spec fn walk_map(m: Seq<Seq<MapNodeType>>) -> Seq<Seq<bool>> {
    Seq::new(
        m.len(),
        |x: int| Seq::new(m[x].len(), |y: int| m[x][y] == MapNodeType::Walkable),
    )
}

} // verus!
