use vstd::prelude::*;

use rand::seq::SliceRandom;

use crate::point::Vector2;

verus! {

/// An entity that is part of the grid.
#[derive(Debug, Clone, Copy, PartialEq, Eq, Structural)]
pub enum GridPoint {
    Pellet,
    PowerPellet,
    Wall,
    Empty,
    Teleporter(Vector2),
}

/// Errors when accessing the grid.
#[derive(Debug, Clone, Copy, PartialEq, Eq, Structural)]
pub enum GridPointError {
    InconsumableError(GridPoint),
    BadPosError,
}

/// Whether a cell holds a pickup that the counter counts.
pub open spec fn is_pickup(c: GridPoint) -> bool {
    c is Pellet || c is PowerPellet
}

/// Number of pickups in one row.
pub open spec fn row_pickups(row: Seq<GridPoint>) -> nat
    decreases row.len(),
{
    if row.len() == 0 {
        0
    } else {
        row_pickups(row.drop_last()) + if is_pickup(row.last()) {
            1nat
        } else {
            0nat
        }
    }
}

/// Number of pickups in all rows.
pub open spec fn grid_pickups(rows: Seq<Seq<GridPoint>>) -> nat
    decreases rows.len(),
{
    if rows.len() == 0 {
        0
    } else {
        grid_pickups(rows.drop_last()) + row_pickups(rows.last())
    }
}

/// The symbol that displays a cell.
pub open spec fn symbol_of(c: GridPoint) -> char {
    match c {
        GridPoint::Pellet => '.',
        GridPoint::PowerPellet => '*',
        GridPoint::Wall => '\u{2588}',
        _ => ' ',
    }
}

/// The cell that a layout symbol stands for, if any.
pub open spec fn cell_of(c: char) -> Option<GridPoint> {
    if c == '.' {
        Some(GridPoint::Pellet)
    } else if c == '*' {
        Some(GridPoint::PowerPellet)
    } else if c == '\u{2588}' {
        Some(GridPoint::Wall)
    } else if c == ' ' {
        Some(GridPoint::Empty)
    } else {
        None
    }
}

/// The cells that a row of symbols stands for.
pub open spec fn decode_row(row: Seq<char>) -> Seq<GridPoint> {
    row.map_values(|ch: char| cell_of(ch).unwrap())
}

/// The cells that rows of symbols stand for.
pub open spec fn decode(rows: Seq<Seq<char>>) -> Seq<Seq<GridPoint>> {
    rows.map_values(|row: Seq<char>| decode_row(row))
}

/// The symbols of a layout, by row.
pub open spec fn symbols(rows: &Vec<Vec<char>>) -> Seq<Seq<char>> {
    rows@.map_values(|row: Vec<char>| row@)
}

/// A layout that makes a maze: a non-empty rectangle of known symbols whose
/// size fits the position type and whose pickups fit the counter.
pub open spec fn layout_ok(rows: Seq<Seq<char>>) -> bool {
    &&& 1 <= rows.len() <= i32::MAX
    &&& 1 <= rows[0].len() <= i32::MAX
    &&& rows.len() * rows[0].len() <= usize::MAX
    &&& forall|r: int| 0 <= r < rows.len() ==> #[trigger] rows[r].len() == rows[0].len()
    &&& forall|r: int, c: int|
        0 <= r < rows.len() && 0 <= c < rows[r].len() ==> (#[trigger] cell_of(rows[r][c])) is Some
    &&& grid_pickups(decode(rows)) <= u32::MAX
}

/// The layout of the game's maze, by row.
pub open spec fn level_layout() -> Seq<Seq<char>> {
    seq![
        seq!['█','█','█','█','█','█','█','█','█','█','█','█','█','█','█','█','█','█','█','█','█','█','█','█','█','█','█'],
        seq!['█','.','.','.','.','.','.','.','.','.','.','.','.','█','.','.','.','.','.','.','.','.','.','.','.','.','█'],
        seq!['█','.','█','█','█','█','.','█','█','█','█','█','.','█','.','█','█','█','█','█','.','█','█','█','█','.','█'],
        seq!['█','*','█','█','█','█','.','█','█','█','█','█','.','█','.','█','█','█','█','█','.','█','█','█','█','*','█'],
        seq!['█','.','.','.','.','.','.','.','.','.','.','.','.','.','.','.','.','.','.','.','.','.','.','.','.','.','█'],
        seq!['█','.','█','█','█','█','.','█','█','.','█','█','█','█','█','█','█','.','█','█','.','█','█','█','█','.','█'],
        seq!['█','.','█','█','█','█','.','█','█','.','█','█','█','█','█','█','█','.','█','█','.','█','█','█','█','.','█'],
        seq!['█','.','.','.','.','.','.','█','█','.','.','.','.','█','.','.','.','.','█','█','.','.','.','.','.','.','█'],
        seq!['█','█','█','█','█','█','.','█','█','█','█','█','.','█','.','█','█','█','█','█','.','█','█','█','█','█','█'],
        seq!['█','█','█','█','█','█','.','█','█',' ',' ',' ',' ',' ',' ',' ',' ',' ','█','█','.','█','█','█','█','█','█'],
        seq!['█','█','█','█','█','█','.','█','█',' ','█','█','█',' ','█','█','█',' ','█','█','.','█','█','█','█','█','█'],
        seq!['█','█','█','█','█','█','.','█','█',' ','█',' ',' ',' ',' ',' ','█',' ','█','█','.','█','█','█','█','█','█'],
        seq![' ',' ',' ',' ',' ',' ','.',' ',' ',' ','█',' ',' ',' ',' ',' ','█',' ',' ',' ','.',' ',' ',' ',' ',' ',' '],
        seq!['█','█','█','█','█','█','.','█','█',' ','█','█','█','█','█','█','█',' ','█','█','.','█','█','█','█','█','█'],
        seq!['█','█','█','█','█','█','.','█','█',' ',' ',' ',' ',' ',' ',' ',' ',' ','█','█','.','█','█','█','█','█','█'],
        seq!['█','█','█','█','█','█','.','█','█',' ','█','█','█','█','█','█','█',' ','█','█','.','█','█','█','█','█','█'],
        seq!['█','█','█','█','█','█','.','█','█',' ','█','█','█','█','█','█','█',' ','█','█','.','█','█','█','█','█','█'],
        seq!['█','.','.','.','.','.','.','.','.','.','.','.','.','█','.','.','.','.','.','.','.','.','.','.','.','.','█'],
        seq!['█','.','█','█','█','█','.','█','█','█','█','█','.','█','.','█','█','█','█','█','.','█','█','█','█','.','█'],
        seq!['█','.','█','█','█','█','.','█','█','█','█','█','.','█','.','█','█','█','█','█','.','█','█','█','█','.','█'],
        seq!['█','*','.','.','█','█','.','.','.','.','.','.','.',' ','.','.','.','.','.','.','.','█','█','.','.','*','█'],
        seq!['█','█','█','.','█','█','.','█','█','.','█','█','█','█','█','█','█','.','█','█','.','█','█','.','█','█','█'],
        seq!['█','█','█','.','█','█','.','█','█','.','█','█','█','█','█','█','█','.','█','█','.','█','█','.','█','█','█'],
        seq!['█','.','.','.','.','.','.','█','█','.','.','.','.','█','.','.','.','.','█','█','.','.','.','.','.','.','█'],
        seq!['█','.','█','█','█','█','█','█','█','█','█','█','.','█','.','█','█','█','█','█','█','█','█','█','█','.','█'],
        seq!['█','.','█','█','█','█','█','█','█','█','█','█','.','█','.','█','█','█','█','█','█','█','█','█','█','.','█'],
        seq!['█','.','.','.','.','.','.','.','.','.','.','.','.','.','.','.','.','.','.','.','.','.','.','.','.','.','█'],
        seq!['█','█','█','█','█','█','█','█','█','█','█','█','█','█','█','█','█','█','█','█','█','█','█','█','█','█','█'],
    ]
}

/// The cells of the game's maze: its layout, with the two ends of the middle
/// row turned into teleporters that lead to each other.
pub open spec fn level_cells() -> Seq<Seq<GridPoint>> {
    let cells = decode(level_layout());
    let row = cells[12].update(0, GridPoint::Teleporter(Vector2(26, 12))).update(
        26,
        GridPoint::Teleporter(Vector2(0, 12)),
    );
    cells.update(12, row)
}

/// The mathematical model of a maze.
pub struct GridView {
    /// Cells by row, then column.
    pub cells: Seq<Seq<GridPoint>>,
    pub width: int,
    pub height: int,
    /// The pickup counter.
    pub pickups: int,
    /// The open positions, in the order in which they are handed out.
    pub open: Seq<Vector2>,
}

impl GridView {
    pub open spec fn in_bounds(self, p: Vector2) -> bool {
        0 <= p.0 < self.width && 0 <= p.1 < self.height
    }

    pub open spec fn cell(self, p: Vector2) -> GridPoint {
        self.cells[p.1 as int][p.0 as int]
    }

    /// Whether an entity may stand on `p`: inside the grid and not a wall.
    pub open spec fn traversable(self, p: Vector2) -> bool {
        self.in_bounds(p) && !(self.cell(p) is Wall)
    }

    /// The maze with the cell at `p` replaced.
    pub open spec fn with_cell(self, p: Vector2, c: GridPoint) -> GridView {
        GridView {
            cells: self.cells.update(p.1 as int, self.cells[p.1 as int].update(p.0 as int, c)),
            ..self
        }
    }

    /// The maze after the pickup at `p` is consumed.
    pub open spec fn consumed(self, p: Vector2) -> GridView {
        GridView { pickups: self.pickups - 1, ..self.with_cell(p, GridPoint::Empty) }
    }

    /// The maze after handing out its next open position, which moves to the front.
    pub open spec fn rotated(self) -> GridView {
        GridView { open: seq![self.open.last()] + self.open.drop_last(), ..self }
    }

    /// Well-formedness: a rectangular grid whose counter counts its pickups and
    /// whose open list holds each traversable position exactly once.
    pub open spec fn valid(self) -> bool {
        &&& 1 <= self.width <= i32::MAX
        &&& 1 <= self.height <= i32::MAX
        &&& self.width * self.height <= usize::MAX
        &&& self.cells.len() == self.height
        &&& forall|r: int| 0 <= r < self.height ==> #[trigger] self.cells[r].len() == self.width
        &&& self.pickups == grid_pickups(self.cells)
        &&& self.pickups <= u32::MAX
        &&& forall|k: int| 0 <= k < self.open.len() ==> self.traversable(#[trigger] self.open[k])
        &&& forall|p: Vector2| self.traversable(p) ==> self.open.contains(p)
        &&& self.open.no_duplicates()
    }
}

/// Stores the grid and its meta data.
#[derive(Debug)]
pub struct Grid {
    maze: Vec<Vec<GridPoint>>,
    open_spaces: Vec<Vector2>,
    width: usize,
    height: usize,
    pellets_left: u32,
}

impl View for Grid {
    type V = GridView;

    closed spec fn view(&self) -> GridView {
        GridView {
            cells: self.maze@.map_values(|row: Vec<GridPoint>| row@),
            width: self.width as int,
            height: self.height as int,
            pickups: self.pellets_left as int,
            open: self.open_spaces@,
        }
    }
}

proof fn lemma_row_pickups_push(row: Seq<GridPoint>, c: GridPoint)
    ensures
        row_pickups(row.push(c)) == row_pickups(row) + if is_pickup(c) {
            1nat
        } else {
            0nat
        },
{
    assert(row.push(c).drop_last() =~= row);
}

proof fn lemma_grid_pickups_push(rows: Seq<Seq<GridPoint>>, row: Seq<GridPoint>)
    ensures
        grid_pickups(rows.push(row)) == grid_pickups(rows) + row_pickups(row),
{
    assert(rows.push(row).drop_last() =~= rows);
}

proof fn lemma_row_pickups_update(row: Seq<GridPoint>, i: int, c: GridPoint)
    requires
        0 <= i < row.len(),
    ensures
        row_pickups(row.update(i, c)) + (if is_pickup(row[i]) {
            1int
        } else {
            0int
        }) == row_pickups(row) + (if is_pickup(c) {
            1int
        } else {
            0int
        }),
    decreases row.len(),
{
    let u = row.update(i, c);
    if i == row.len() - 1 {
        assert(u.drop_last() =~= row.drop_last());
    } else {
        assert(u.drop_last() =~= row.drop_last().update(i, c));
        lemma_row_pickups_update(row.drop_last(), i, c);
    }
}

proof fn lemma_grid_pickups_update(rows: Seq<Seq<GridPoint>>, r: int, row: Seq<GridPoint>)
    requires
        0 <= r < rows.len(),
    ensures
        grid_pickups(rows.update(r, row)) + row_pickups(rows[r]) == grid_pickups(rows)
            + row_pickups(row),
    decreases rows.len(),
{
    let u = rows.update(r, row);
    if r == rows.len() - 1 {
        assert(u.drop_last() =~= rows.drop_last());
    } else {
        assert(u.drop_last() =~= rows.drop_last().update(r, row));
        lemma_grid_pickups_update(rows.drop_last(), r, row);
    }
}

proof fn lemma_row_pickups_bound(row: Seq<GridPoint>)
    ensures
        row_pickups(row) <= row.len(),
    decreases row.len(),
{
    if row.len() > 0 {
        lemma_row_pickups_bound(row.drop_last());
    }
}

proof fn lemma_grid_pickups_bound(rows: Seq<Seq<GridPoint>>, w: int)
    requires
        w >= 0,
        forall|r: int| 0 <= r < rows.len() ==> #[trigger] rows[r].len() == w,
    ensures
        grid_pickups(rows) <= rows.len() * w,
    decreases rows.len(),
{
    if rows.len() > 0 {
        let d = rows.drop_last();
        assert forall|r: int| 0 <= r < d.len() implies #[trigger] d[r].len() == w by {
            assert(d[r] == rows[r]);
        }
        lemma_grid_pickups_bound(d, w);
        lemma_row_pickups_bound(rows.last());
        assert(d.len() * w + w == rows.len() * w) by (nonlinear_arith)
            requires
                d.len() + 1 == rows.len(),
        ;
    }
}

proof fn lemma_row_pickups_prefix(row: Seq<GridPoint>, i: int)
    requires
        0 <= i <= row.len(),
    ensures
        row_pickups(row.take(i)) <= row_pickups(row),
    decreases row.len(),
{
    if i == row.len() {
        assert(row.take(i) =~= row);
    } else {
        assert(row.take(i) =~= row.drop_last().take(i));
        lemma_row_pickups_prefix(row.drop_last(), i);
    }
}

proof fn lemma_grid_pickups_prefix(rows: Seq<Seq<GridPoint>>, i: int)
    requires
        0 <= i <= rows.len(),
    ensures
        grid_pickups(rows.take(i)) <= grid_pickups(rows),
    decreases rows.len(),
{
    if i == rows.len() {
        assert(rows.take(i) =~= rows);
    } else {
        assert(rows.take(i) =~= rows.drop_last().take(i));
        lemma_grid_pickups_prefix(rows.drop_last(), i);
    }
}

/// Relies on rand's `SliceRandom::shuffle` with `rand::rng()`: it permutes the
/// positions in place by swaps, so the same positions come back in some order.
#[verifier::external_body]
fn shuffle_positions(v: &mut Vec<Vector2>)
    ensures
        final(v)@.to_multiset() == old(v)@.to_multiset(),
{
    v.shuffle(&mut rand::rng());
}

impl GridPoint {
    /// The symbol that displays this cell; a teleporter shows as an empty cell.
    pub fn to_symbol(self) -> (r: char)
        ensures
            r == symbol_of(self),
    {
        match self {
            GridPoint::Pellet => '.',
            GridPoint::PowerPellet => '*',
            GridPoint::Wall => '\u{2588}',
            _ => ' ',
        }
    }

    /// The cell that a layout symbol stands for, or `None` for an unknown symbol.
    pub fn from_symbol(c: char) -> (r: Option<GridPoint>)
        ensures
            r == cell_of(c),
    {
        if c == '.' {
            Some(GridPoint::Pellet)
        } else if c == '*' {
            Some(GridPoint::PowerPellet)
        } else if c == '\u{2588}' {
            Some(GridPoint::Wall)
        } else if c == ' ' {
            Some(GridPoint::Empty)
        } else {
            None
        }
    }
}

impl Grid {
    pub open spec fn wf(&self) -> bool {
        self@.valid()
    }

    /// Retrieves the full width of the maze.
    pub fn get_width(&self) -> (r: usize)
        ensures
            r == self@.width,
    {
        self.width
    }

    /// Retrieves the full height of the maze.
    pub fn get_height(&self) -> (r: usize)
        ensures
            r == self@.height,
    {
        self.height
    }

    /// Borrows the cells of the maze, by row.
    pub fn get_maze(&self) -> (r: &Vec<Vec<GridPoint>>)
        ensures
            r@.len() == self@.cells.len(),
            forall|i: int| 0 <= i < r@.len() ==> (#[trigger] r@[i])@ == self@.cells[i],
    {
        &self.maze
    }

    /// Retrieves how many open positions the maze hands out in turn.
    pub fn open_space_count(&self) -> (r: usize)
        ensures
            r == self@.open.len(),
    {
        self.open_spaces.len()
    }

    /// Retrieves the number of pickups left in the maze.
    pub fn pellets_left(&self) -> (r: u32)
        ensures
            r == self@.pickups,
    {
        self.pellets_left
    }

    /// Checks whether an entity may stand on the provided point.
    pub fn is_valid_pos(&self, pos: &Vector2) -> (r: bool)
        requires
            self.wf(),
        ensures
            r == self@.traversable(*pos),
    {
        let col: i32 = pos.0;
        let row: i32 = pos.1;
        if col < 0 || row < 0 {
            return false;
        }
        let col: usize = col as usize;
        let row: usize = row as usize;
        if col >= self.width || row >= self.height {
            return false;
        }
        proof {
            assert(self@.cells[row as int].len() == self.width);
        }
        match self.maze[row][col] {
            GridPoint::Wall => false,
            _ => true,
        }
    }

    /// Retrieves the cell at the provided point and, when it holds a pickup,
    /// replaces it with `Empty` and counts the pickup off. A wall or a teleporter
    /// is reported back as inconsumable and left as it is.
    pub fn eat(&mut self, pos: &Vector2) -> (r: Result<GridPoint, GridPointError>)
        requires
            old(self).wf(),
        ensures
            final(self).wf(),
            !old(self)@.in_bounds(*pos) ==> r == Err::<GridPoint, GridPointError>(
                GridPointError::BadPosError,
            ) && final(self)@ == old(self)@,
            old(self)@.in_bounds(*pos) && is_pickup(old(self)@.cell(*pos)) ==> r == Ok::<
                GridPoint,
                GridPointError,
            >(old(self)@.cell(*pos)) && final(self)@ == old(self)@.consumed(*pos),
            old(self)@.in_bounds(*pos) && old(self)@.cell(*pos) is Empty ==> r == Ok::<
                GridPoint,
                GridPointError,
            >(GridPoint::Empty) && final(self)@ == old(self)@,
            old(self)@.in_bounds(*pos) && (old(self)@.cell(*pos) is Wall || old(
                self,
            )@.cell(*pos) is Teleporter) ==> r == Err::<GridPoint, GridPointError>(
                GridPointError::InconsumableError(old(self)@.cell(*pos)),
            ) && final(self)@ == old(self)@,
    {
        let col: i32 = pos.0;
        let row: i32 = pos.1;
        if col < 0 || row < 0 {
            return Err(GridPointError::BadPosError);
        }
        let col: usize = col as usize;
        let row: usize = row as usize;
        if col >= self.width || row >= self.height {
            return Err(GridPointError::BadPosError);
        }
        proof {
            assert(self@.cells[row as int].len() == self.width);
        }
        let cell = self.maze[row][col];
        match cell {
            GridPoint::Pellet | GridPoint::PowerPellet => {
                let ghost before = self@;
                proof {
                    lemma_row_pickups_update(before.cells[row as int], col as int, GridPoint::Empty);
                    lemma_grid_pickups_update(
                        before.cells,
                        row as int,
                        before.cells[row as int].update(col as int, GridPoint::Empty),
                    );
                }
                self.pellets_left = self.pellets_left - 1;
                self.maze[row][col] = GridPoint::Empty;
                proof {
                    let expect = before.consumed(*pos);
                    assert(self@.cells =~= expect.cells);
                    assert forall|p: Vector2| self@.traversable(p) <==> before.traversable(p) by {
                        if self@.in_bounds(p) && p.1 == row as int {
                            assert(self@.cells[p.1 as int] == before.cells[p.1 as int].update(
                                col as int,
                                GridPoint::Empty,
                            ));
                        }
                    }
                    assert forall|r: int| 0 <= r < self@.height implies #[trigger] self@.cells[r].len()
                        == self@.width by {
                        assert(before.cells[r].len() == before.width);
                    }
                    assert forall|k: int| 0 <= k < self@.open.len() implies self@.traversable(
                        #[trigger] self@.open[k],
                    ) by {
                        assert(before.traversable(before.open[k]));
                    }
                    assert forall|p: Vector2| self@.traversable(p) implies self@.open.contains(p) by {
                        assert(before.traversable(p));
                    }
                    assert(self@.pickups == grid_pickups(self@.cells));
                }
                Ok(cell)
            },
            GridPoint::Empty => Ok(GridPoint::Empty),
            _ => Err(GridPointError::InconsumableError(cell)),
        }
    }

    /// Hands out the next open position and rotates it to the front, so that
    /// successive calls cycle through the whole shuffled list.
    pub fn get_random_position(&mut self) -> (r: Vector2)
        requires
            old(self).wf(),
            old(self)@.open.len() > 0,
        ensures
            final(self).wf(),
            r == old(self)@.open.last(),
            old(self)@.traversable(r),
            final(self)@ == old(self)@.rotated(),
    {
        let ghost before = self@;
        let dest = self.open_spaces.pop().unwrap();
        self.open_spaces.insert(0, dest);
        proof {
            assert(self@.open =~= seq![dest] + before.open.drop_last());
            assert(before.traversable(before.open[before.open.len() - 1]));
            assert forall|k: int| 0 <= k < self@.open.len() implies self@.traversable(
                #[trigger] self@.open[k],
            ) by {
                if k > 0 {
                    assert(self@.open[k] == before.open[k - 1]);
                    assert(before.traversable(before.open[k - 1]));
                }
            }
            assert forall|i: int, j: int|
                0 <= i < self@.open.len() && 0 <= j < self@.open.len() && i != j implies self@.open[i]
                != self@.open[j] by {
                let n = before.open.len();
                let bi = if i == 0 { n - 1 } else { i - 1 };
                let bj = if j == 0 { n - 1 } else { j - 1 };
                assert(self@.open[i] == before.open[bi]);
                assert(self@.open[j] == before.open[bj]);
            }
            assert forall|p: Vector2| self@.traversable(p) implies self@.open.contains(p) by {
                assert(self@.cells == before.cells);
                assert(before.traversable(p));
                assert(before.open.contains(p));
                let k = choose|k: int| 0 <= k < before.open.len() && before.open[k] == p;
                if k == before.open.len() - 1 {
                    assert(self@.open[0] == p);
                } else {
                    assert(self@.open[k + 1] == p);
                }
            }
        }
        dest
    }

    /// Builds a maze from rows of layout symbols ('.' pellet, '*' power pellet,
    /// '\u{2588}' wall, ' ' empty). Returns `None` when the rows do not form a
    /// maze: empty, ragged, an unknown symbol, or too large. The open positions
    /// are shuffled once here.
    pub fn from_rows(rows: &Vec<Vec<char>>) -> (r: Option<Grid>)
        ensures
            r is Some <==> layout_ok(symbols(rows)),
            r matches Some(g) ==> {
                &&& g.wf()
                &&& g@.cells == decode(symbols(rows))
                &&& g@.height == rows@.len()
                &&& g@.width == rows@[0]@.len()
            },
    {
        let ghost sy = symbols(rows);
        let ghost dec = decode(sy);
        let height = rows.len();
        if height == 0 || height > i32::MAX as usize {
            return None;
        }
        let width = rows[0].len();
        if width == 0 || width > i32::MAX as usize {
            return None;
        }
        if width > usize::MAX / height {
            proof {
                assert(height * width > usize::MAX) by (nonlinear_arith)
                    requires
                        width > usize::MAX / height,
                        height >= 1,
                ;
            }
            return None;
        }
        proof {
            assert(width * height <= usize::MAX) by (nonlinear_arith)
                requires
                    width <= usize::MAX / height,
                    height >= 1,
            ;
        }
        let mut maze: Vec<Vec<GridPoint>> = Vec::new();
        let mut open: Vec<Vector2> = Vec::new();
        let mut count: u32 = 0;
        let mut r: usize = 0;
        while r < height
            invariant
                sy == symbols(rows),
                dec == decode(sy),
                height == sy.len(),
                width == sy[0].len(),
                1 <= width <= i32::MAX,
                1 <= height <= i32::MAX,
                width * height <= usize::MAX,
                0 <= r <= height,
                maze@.len() == r,
                forall|i: int| 0 <= i < r ==> #[trigger] sy[i].len() == width,
                forall|i: int, j: int|
                    0 <= i < r && 0 <= j < width ==> (#[trigger] cell_of(sy[i][j])) is Some,
                forall|i: int| 0 <= i < r ==> (#[trigger] maze@[i])@ == dec[i],
                count == grid_pickups(dec.take(r as int)),
                open@.no_duplicates(),
                forall|k: int|
                    0 <= k < open@.len() ==> {
                        let p = #[trigger] open@[k];
                        &&& 0 <= p.0 < width
                        &&& 0 <= p.1 < r
                        &&& !(dec[p.1 as int][p.0 as int] is Wall)
                    },
                forall|i: int, j: int|
                    0 <= i < r && 0 <= j < width && !(#[trigger] dec[i][j] is Wall)
                        ==> open@.contains(Vector2(j as i32, i as i32)),
            decreases height - r,
        {
            let row = &rows[r];
            if row.len() != width {
                return None;
            }
            let mut cells: Vec<GridPoint> = Vec::new();
            let mut c: usize = 0;
            while c < width
                invariant
                    sy == symbols(rows),
                    dec == decode(sy),
                    height == sy.len(),
                    width == sy[0].len(),
                    1 <= width <= i32::MAX,
                    1 <= height <= i32::MAX,
                    0 <= r < height,
                    row@ == sy[r as int],
                    sy[r as int].len() == width,
                    0 <= c <= width,
                    cells@ == dec[r as int].take(c as int),
                    forall|j: int| 0 <= j < c ==> (#[trigger] cell_of(sy[r as int][j])) is Some,
                    count == grid_pickups(dec.take(r as int)) + row_pickups(cells@),
                    open@.no_duplicates(),
                    forall|k: int|
                        0 <= k < open@.len() ==> {
                            let p = #[trigger] open@[k];
                            &&& 0 <= p.0 < width
                            &&& 0 <= p.1 <= r
                            &&& (p.1 == r ==> p.0 < c)
                            &&& !(dec[p.1 as int][p.0 as int] is Wall)
                        },
                    forall|i: int, j: int|
                        0 <= i < r && 0 <= j < width && !(#[trigger] dec[i][j] is Wall)
                            ==> open@.contains(Vector2(j as i32, i as i32)),
                    forall|j: int|
                        0 <= j < c && !(#[trigger] dec[r as int][j] is Wall) ==> open@.contains(
                            Vector2(j as i32, r as i32),
                        ),
                decreases width - c,
            {
                let cell = match GridPoint::from_symbol(row[c]) {
                    Some(cell) => cell,
                    None => {
                        return None;
                    },
                };
                proof {
                    assert(dec[r as int][c as int] == cell);
                    assert(dec[r as int].take(c as int).push(cell) =~= dec[r as int].take(
                        c as int + 1,
                    ));
                    lemma_row_pickups_push(cells@, cell);
                }
                match cell {
                    GridPoint::Pellet | GridPoint::PowerPellet => {
                        if count == u32::MAX {
                            proof {
                                lemma_row_pickups_prefix(dec[r as int], c as int + 1);
                                assert(dec.take(r as int).push(dec[r as int]) =~= dec.take(
                                    r as int + 1,
                                ));
                                lemma_grid_pickups_push(dec.take(r as int), dec[r as int]);
                                lemma_grid_pickups_prefix(dec, r as int + 1);
                            }
                            return None;
                        }
                        count = count + 1;
                    },
                    _ => {},
                }
                let ghost open0 = open@;
                proof {
                    assert(!open0.contains(Vector2(c as i32, r as i32)));
                }
                match cell {
                    GridPoint::Wall => {},
                    _ => {
                        open.push(Vector2(c as i32, r as i32));
                    },
                }
                proof {
                    assert forall|x: Vector2| open0.contains(x) implies open@.contains(x) by {
                        let k = choose|k: int| 0 <= k < open0.len() && open0[k] == x;
                        assert(open@[k] == x);
                    }
                }
                cells.push(cell);
                c = c + 1;
                proof {
                    assert forall|j: int|
                        0 <= j < c && !(#[trigger] dec[r as int][j] is Wall) implies open@.contains(
                        Vector2(j as i32, r as i32),
                    ) by {
                        if j == c - 1 {
                            assert(open@[open@.len() - 1] == Vector2(j as i32, r as i32));
                        } else {
                            assert(open0.contains(Vector2(j as i32, r as i32)));
                        }
                    }
                }
            }
            proof {
                assert(cells@ =~= dec[r as int]);
                assert(dec.take(r as int).push(dec[r as int]) =~= dec.take(r as int + 1));
                lemma_grid_pickups_push(dec.take(r as int), dec[r as int]);
            }
            maze.push(cells);
            r = r + 1;
        }
        proof {
            assert(dec.take(height as int) =~= dec);
        }
        let ghost before = open@;
        proof {
            before.lemma_multiset_has_no_duplicates();
        }
        shuffle_positions(&mut open);
        proof {
            open@.lemma_multiset_has_no_duplicates_conv();
        }
        let g = Grid { maze, open_spaces: open, width, height, pellets_left: count };
        proof {
            assert(g@.cells =~= dec);
            assert forall|k: int| 0 <= k < g@.open.len() implies g@.traversable(
                #[trigger] g@.open[k],
            ) by {
                vstd::seq_lib::to_multiset_contains(g@.open, g@.open[k]);
                vstd::seq_lib::to_multiset_contains(before, g@.open[k]);
                assert(g@.open.contains(g@.open[k]));
                let i = choose|i: int| 0 <= i < before.len() && before[i] == g@.open[k];
                assert(before[i] == g@.open[k]);
            }
            assert forall|p: Vector2| g@.traversable(p) implies g@.open.contains(p) by {
                assert(!(dec[p.1 as int][p.0 as int] is Wall));
                assert(before.contains(Vector2(p.0 as i32, p.1 as i32)));
                vstd::seq_lib::to_multiset_contains(g@.open, p);
                vstd::seq_lib::to_multiset_contains(before, p);
            }
        }
        Some(g)
    }

    /// Replaces an empty cell with a teleporter that leads to `dest`.
    fn place_teleporter(&mut self, pos: Vector2, dest: Vector2)
        requires
            old(self).wf(),
            old(self)@.in_bounds(pos),
            old(self)@.cell(pos) is Empty,
        ensures
            final(self).wf(),
            final(self)@ == old(self)@.with_cell(pos, GridPoint::Teleporter(dest)),
    {
        let ghost before = self@;
        let col = pos.0 as usize;
        let row = pos.1 as usize;
        proof {
            assert(self@.cells[row as int].len() == self.width);
            lemma_row_pickups_update(before.cells[row as int], col as int, GridPoint::Teleporter(dest));
            lemma_grid_pickups_update(
                before.cells,
                row as int,
                before.cells[row as int].update(col as int, GridPoint::Teleporter(dest)),
            );
        }
        self.maze[row][col] = GridPoint::Teleporter(dest);
        proof {
            assert(self@.cells =~= before.with_cell(pos, GridPoint::Teleporter(dest)).cells);
            assert forall|p: Vector2| self@.traversable(p) <==> before.traversable(p) by {
                if self@.in_bounds(p) && p.1 == row as int {
                    assert(self@.cells[p.1 as int] == before.cells[p.1 as int].update(
                        col as int,
                        GridPoint::Teleporter(dest),
                    ));
                }
            }
            assert forall|r: int| 0 <= r < self@.height implies #[trigger] self@.cells[r].len()
                == self@.width by {
                assert(before.cells[r].len() == before.width);
            }
            assert forall|k: int| 0 <= k < self@.open.len() implies self@.traversable(
                #[trigger] self@.open[k],
            ) by {
                assert(before.traversable(before.open[k]));
            }
            assert forall|p: Vector2| self@.traversable(p) implies self@.open.contains(p) by {
                assert(before.traversable(p));
            }
        }
    }

    /// Creates the maze of the game: a 27 by 28 layout whose middle row leads
    /// out on both sides through a pair of linked teleporters.
    pub fn new() -> (r: Self)
        ensures
            r.wf(),
            r@.width == 27,
            r@.height == 28,
            r@.cells == level_cells(),
    {
        let rows: Vec<Vec<char>> = vec![
            vec!['█','█','█','█','█','█','█','█','█','█','█','█','█','█','█','█','█','█','█','█','█','█','█','█','█','█','█'],
            vec!['█','.','.','.','.','.','.','.','.','.','.','.','.','█','.','.','.','.','.','.','.','.','.','.','.','.','█'],
            vec!['█','.','█','█','█','█','.','█','█','█','█','█','.','█','.','█','█','█','█','█','.','█','█','█','█','.','█'],
            vec!['█','*','█','█','█','█','.','█','█','█','█','█','.','█','.','█','█','█','█','█','.','█','█','█','█','*','█'],
            vec!['█','.','.','.','.','.','.','.','.','.','.','.','.','.','.','.','.','.','.','.','.','.','.','.','.','.','█'],
            vec!['█','.','█','█','█','█','.','█','█','.','█','█','█','█','█','█','█','.','█','█','.','█','█','█','█','.','█'],
            vec!['█','.','█','█','█','█','.','█','█','.','█','█','█','█','█','█','█','.','█','█','.','█','█','█','█','.','█'],
            vec!['█','.','.','.','.','.','.','█','█','.','.','.','.','█','.','.','.','.','█','█','.','.','.','.','.','.','█'],
            vec!['█','█','█','█','█','█','.','█','█','█','█','█','.','█','.','█','█','█','█','█','.','█','█','█','█','█','█'],
            vec!['█','█','█','█','█','█','.','█','█',' ',' ',' ',' ',' ',' ',' ',' ',' ','█','█','.','█','█','█','█','█','█'],
            vec!['█','█','█','█','█','█','.','█','█',' ','█','█','█',' ','█','█','█',' ','█','█','.','█','█','█','█','█','█'],
            vec!['█','█','█','█','█','█','.','█','█',' ','█',' ',' ',' ',' ',' ','█',' ','█','█','.','█','█','█','█','█','█'],
            vec![' ',' ',' ',' ',' ',' ','.',' ',' ',' ','█',' ',' ',' ',' ',' ','█',' ',' ',' ','.',' ',' ',' ',' ',' ',' '],
            vec!['█','█','█','█','█','█','.','█','█',' ','█','█','█','█','█','█','█',' ','█','█','.','█','█','█','█','█','█'],
            vec!['█','█','█','█','█','█','.','█','█',' ',' ',' ',' ',' ',' ',' ',' ',' ','█','█','.','█','█','█','█','█','█'],
            vec!['█','█','█','█','█','█','.','█','█',' ','█','█','█','█','█','█','█',' ','█','█','.','█','█','█','█','█','█'],
            vec!['█','█','█','█','█','█','.','█','█',' ','█','█','█','█','█','█','█',' ','█','█','.','█','█','█','█','█','█'],
            vec!['█','.','.','.','.','.','.','.','.','.','.','.','.','█','.','.','.','.','.','.','.','.','.','.','.','.','█'],
            vec!['█','.','█','█','█','█','.','█','█','█','█','█','.','█','.','█','█','█','█','█','.','█','█','█','█','.','█'],
            vec!['█','.','█','█','█','█','.','█','█','█','█','█','.','█','.','█','█','█','█','█','.','█','█','█','█','.','█'],
            vec!['█','*','.','.','█','█','.','.','.','.','.','.','.',' ','.','.','.','.','.','.','.','█','█','.','.','*','█'],
            vec!['█','█','█','.','█','█','.','█','█','.','█','█','█','█','█','█','█','.','█','█','.','█','█','.','█','█','█'],
            vec!['█','█','█','.','█','█','.','█','█','.','█','█','█','█','█','█','█','.','█','█','.','█','█','.','█','█','█'],
            vec!['█','.','.','.','.','.','.','█','█','.','.','.','.','█','.','.','.','.','█','█','.','.','.','.','.','.','█'],
            vec!['█','.','█','█','█','█','█','█','█','█','█','█','.','█','.','█','█','█','█','█','█','█','█','█','█','.','█'],
            vec!['█','.','█','█','█','█','█','█','█','█','█','█','.','█','.','█','█','█','█','█','█','█','█','█','█','.','█'],
            vec!['█','.','.','.','.','.','.','.','.','.','.','.','.','.','.','.','.','.','.','.','.','.','.','.','.','.','█'],
            vec!['█','█','█','█','█','█','█','█','█','█','█','█','█','█','█','█','█','█','█','█','█','█','█','█','█','█','█'],
        ];
        // The layout is a 27 by 28 rectangle of known symbols.
        proof {
            let sy = symbols(&rows);
            assert(sy.len() == 28);
            assert forall|r: int| 0 <= r < 28 implies #[trigger] sy[r] == level_layout()[r] by {
                assert(
                    r == 0 || r == 1 || r == 2 || r == 3 || r == 4 || r == 5 || r == 6 ||
                    r == 7 || r == 8 || r == 9 || r == 10 || r == 11 || r == 12 || r == 13 ||
                    r == 14 || r == 15 || r == 16 || r == 17 || r == 18 || r == 19 || r == 20 ||
                    r == 21 || r == 22 || r == 23 || r == 24 || r == 25 || r == 26 || r == 27
                );
            }
            assert(sy =~= level_layout());
            assert forall|r: int| 0 <= r < 28 implies #[trigger] sy[r].len() == 27 by {
                assert(
                    r == 0 || r == 1 || r == 2 || r == 3 || r == 4 || r == 5 || r == 6 ||
                    r == 7 || r == 8 || r == 9 || r == 10 || r == 11 || r == 12 || r == 13 ||
                    r == 14 || r == 15 || r == 16 || r == 17 || r == 18 || r == 19 || r == 20 ||
                    r == 21 || r == 22 || r == 23 || r == 24 || r == 25 || r == 26 || r == 27
                );
            }
            assert forall|r: int, c: int| 0 <= r < 28 && 0 <= c < 27 implies (#[trigger] cell_of(
                sy[r][c],
            )) is Some by {
                assert(
                    r == 0 || r == 1 || r == 2 || r == 3 || r == 4 || r == 5 || r == 6 ||
                    r == 7 || r == 8 || r == 9 || r == 10 || r == 11 || r == 12 || r == 13 ||
                    r == 14 || r == 15 || r == 16 || r == 17 || r == 18 || r == 19 || r == 20 ||
                    r == 21 || r == 22 || r == 23 || r == 24 || r == 25 || r == 26 || r == 27
                );
                assert(
                    c == 0 || c == 1 || c == 2 || c == 3 || c == 4 || c == 5 || c == 6 ||
                    c == 7 || c == 8 || c == 9 || c == 10 || c == 11 || c == 12 || c == 13 ||
                    c == 14 || c == 15 || c == 16 || c == 17 || c == 18 || c == 19 || c == 20 ||
                    c == 21 || c == 22 || c == 23 || c == 24 || c == 25 || c == 26
                );
            }
            let dec = decode(sy);
            assert forall|r: int| 0 <= r < dec.len() implies #[trigger] dec[r].len() == 27 by {
                assert(sy[r].len() == 27);
            }
            lemma_grid_pickups_bound(dec, 27);
            assert(layout_ok(sy));
        }
        let mut g = Grid::from_rows(&rows).unwrap();
        proof {
            assert(symbols(&rows)[12] == rows@[12]@);
            assert(g@.cells[12][0] == cell_of(rows@[12]@[0]).unwrap());
            assert(g@.cells[12][26] == cell_of(rows@[12]@[26]).unwrap());
        }
        g.place_teleporter(Vector2(0, 12), Vector2(26, 12));
        proof {
            assert(g@.cells[12][26] == cell_of(rows@[12]@[26]).unwrap());
        }
        g.place_teleporter(Vector2(26, 12), Vector2(0, 12));
        proof {
            assert(g@.cells =~= level_cells());
        }
        g
    }
}

/// Consuming a pickup counts exactly one pickup off, leaves an empty cell that
/// a later consume returns as `Empty` without counting, and touches no other
/// cell; the maze stays well formed.
pub proof fn lemma_consume_invariants(m: GridView, p: Vector2)
    requires
        m.valid(),
        m.in_bounds(p),
        is_pickup(m.cell(p)),
    ensures
        m.consumed(p).valid(),
        m.consumed(p).pickups == m.pickups - 1,
        m.consumed(p).cell(p) is Empty,
        forall|q: Vector2| m.in_bounds(q) && q != p ==> #[trigger] m.consumed(p).cell(q) == m.cell(q),
        forall|q: Vector2| #[trigger] m.consumed(p).traversable(q) == m.traversable(q),
{
    let n = m.consumed(p);
    let row = m.cells[p.1 as int];
    assert(row.len() == m.width);
    lemma_row_pickups_update(row, p.0 as int, GridPoint::Empty);
    lemma_grid_pickups_update(m.cells, p.1 as int, row.update(p.0 as int, GridPoint::Empty));
    assert forall|q: Vector2| m.in_bounds(q) && q != p implies #[trigger] n.cell(q) == m.cell(q) by {
        if q.1 == p.1 {
            assert(n.cells[q.1 as int] == row.update(p.0 as int, GridPoint::Empty));
        }
    }
    assert forall|q: Vector2| #[trigger] n.traversable(q) == m.traversable(q) by {
        if m.in_bounds(q) && q != p {
            assert(n.cell(q) == m.cell(q));
        }
    }
    assert forall|r: int| 0 <= r < n.height implies #[trigger] n.cells[r].len() == n.width by {
        assert(m.cells[r].len() == m.width);
    }
    assert forall|k: int| 0 <= k < n.open.len() implies n.traversable(#[trigger] n.open[k]) by {
        assert(m.traversable(m.open[k]));
    }
    assert forall|q: Vector2| n.traversable(q) implies n.open.contains(q) by {
        assert(m.traversable(q));
    }
}

} // verus!
