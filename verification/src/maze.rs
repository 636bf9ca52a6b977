//! A rectangular maze of cells, some of them blocked, with a start and a
//! goal, as a state graph for the searches.
use rand::Rng;
use vstd::prelude::*;

verus! {

/// What a cell of the maze holds.
#[derive(Clone, Copy, Debug, PartialEq, Eq, Structural)]
pub enum Cell {
    Empty,
    Blocked,
    Start,
    Goal,
    Path,
}

impl Cell {
    /// The character that stands for the cell when the maze is drawn.
    pub fn to_character(&self) -> (glyph: &'static str)
        ensures
            glyph@ == match *self {
                Cell::Empty => " "@,
                Cell::Blocked => "◼︎"@,
                Cell::Start => "▶︎"@,
                Cell::Goal => "★"@,
                Cell::Path => "●"@,
            },
    {
        match self {
            Cell::Empty => " ",
            Cell::Blocked => "◼︎",
            Cell::Start => "▶︎",
            Cell::Goal => "★",
            Cell::Path => "●",
        }
    }
}

impl Default for Cell {
    fn default() -> (cell: Self)
        ensures
            cell == Cell::Empty,
    {
        Cell::Empty
    }
}

/// A place in the maze.
#[derive(Clone, Copy, Debug, Hash, PartialEq, Eq, PartialOrd, Ord, Structural)]
pub struct MazeLocation {
    pub row: i32,
    pub column: i32,
}

impl Default for MazeLocation {
    fn default() -> (loc: Self)
        ensures
            loc == (MazeLocation { row: 0, column: 0 }),
    {
        MazeLocation { row: 0, column: 0 }
    }
}

/// The absolute value of `x`.
pub open spec fn magnitude(x: int) -> int {
    if x < 0 {
        -x
    } else {
        x
    }
}

/// The number of steps between two places when each step goes to a
/// neighbour in the same row or column.
pub open spec fn manhattan(from: MazeLocation, to: MazeLocation) -> int {
    magnitude(to.column - from.column) + magnitude(to.row - from.row)
}

impl MazeLocation {
    /// The number of horizontal and vertical steps from here to `dest`.
    pub fn manhattan_distance_to(&self, dest: MazeLocation) -> (distance: u32)
        requires
            magnitude(dest.column - self.column) <= i32::MAX,
            magnitude(dest.row - self.row) <= i32::MAX,
        ensures
            distance == manhattan(*self, dest),
    {
        let x_distance: i32 = dest.column - self.column;
        let y_distance: i32 = dest.row - self.row;
        let x: u32 = if x_distance < 0 {
            (-x_distance) as u32
        } else {
            x_distance as u32
        };
        let y: u32 = if y_distance < 0 {
            (-y_distance) as u32
        } else {
            y_distance as u32
        };
        x + y
    }
}

/// The grid with the cell at `loc` replaced.
pub open spec fn with_cell(cells: Seq<Seq<Cell>>, loc: MazeLocation, cell: Cell) -> Seq<Seq<Cell>> {
    cells.update(loc.row as int, cells[loc.row as int].update(loc.column as int, cell))
}

/// The grid with each place of `path` marked as part of the path.
pub open spec fn painted(cells: Seq<Seq<Cell>>, path: Seq<MazeLocation>) -> Seq<Seq<Cell>>
    decreases path.len(),
{
    if path.len() == 0 {
        cells
    } else {
        with_cell(painted(cells, path.drop_last()), path.last(), Cell::Path)
    }
}

/// The grid with every mark of a path taken away.
pub open spec fn cleared(cells: Seq<Seq<Cell>>) -> Seq<Seq<Cell>> {
    Seq::new(
        cells.len(),
        |r: int|
            Seq::new(
                cells[r].len(),
                |c: int|
                    if cells[r][c] == Cell::Path {
                        Cell::Empty
                    } else {
                        cells[r][c]
                    },
            ),
    )
}

/// The place one step from `from` in the direction numbered `k`: up, left,
/// right, down.
pub open spec fn neighbour(from: MazeLocation, k: int) -> (int, int) {
    if k == 0 {
        (from.row - 1, from.column as int)
    } else if k == 1 {
        (from.row as int, from.column - 1)
    } else if k == 2 {
        (from.row as int, from.column + 1)
    } else {
        (from.row + 1, from.column as int)
    }
}

/// Draws `true` with a chance of `numerator` in `denominator`: `gen_ratio`
/// of rand, on the generator of the current thread. The contract leaves
/// the outcome open but where rand's documentation fixes it: never `true`
/// for a numerator of zero, always `true` where the two numbers are equal.
#[verifier::external_body]
fn draw(numerator: u32, denominator: u32) -> (hit: bool)
    requires
        denominator > 0,
        numerator <= denominator,
    ensures
        numerator == 0 ==> !hit,
        numerator == denominator ==> hit,
{
    rand::thread_rng().gen_ratio(numerator, denominator)
}

/// A maze: its size, its start and goal, and its cells row by row.
#[derive(Clone, Debug)]
pub struct Maze {
    pub rows: usize,
    pub columns: usize,
    pub start: MazeLocation,
    pub goal: MazeLocation,
    pub grid: Vec<Vec<Cell>>,
}

impl Maze {
    /// The cells, row by row.
    pub open spec fn cells(&self) -> Seq<Seq<Cell>> {
        Seq::new(self.grid@.len(), |r: int| self.grid@[r]@)
    }

    /// The grid has the size that `rows` and `columns` give.
    pub open spec fn wf(&self) -> bool {
        &&& self.rows <= i32::MAX
        &&& self.columns <= i32::MAX
        &&& self.grid@.len() == self.rows
        &&& forall|r: int| 0 <= r < self.rows ==> (#[trigger] self.grid@[r])@.len() == self.columns
    }

    /// `loc` lies inside the maze.
    pub open spec fn valid(&self, loc: MazeLocation) -> bool {
        0 <= loc.row < self.rows && 0 <= loc.column < self.columns
    }

    /// The place in row `r` and column `c` lies inside the maze and is not blocked.
    pub open spec fn passable(&self, r: int, c: int) -> bool {
        0 <= r < self.rows && 0 <= c < self.columns && self.cells()[r][c] != Cell::Blocked
    }

    /// The neighbours of `from` that can be entered, among the first `k`
    /// directions.
    pub open spec fn successors_upto(&self, from: MazeLocation, k: int) -> Seq<MazeLocation>
        decreases k,
    {
        if k <= 0 {
            Seq::empty()
        } else {
            let (r, c) = neighbour(from, k - 1);
            if self.passable(r, c) {
                self.successors_upto(from, k - 1).push(MazeLocation { row: r as i32, column: c as i32 })
            } else {
                self.successors_upto(from, k - 1)
            }
        }
    }

    /// A maze without cells.
    pub fn new() -> (maze: Self)
        ensures
            maze.wf(),
            maze.rows == 0,
            maze.columns == 0,
            maze.start == (MazeLocation { row: 0, column: 0 }),
            maze.goal == (MazeLocation { row: 0, column: 0 }),
    {
        let maze = Maze {
            rows: 0,
            columns: 0,
            start: MazeLocation { row: 0, column: 0 },
            goal: MazeLocation { row: 0, column: 0 },
            grid: Vec::new(),
        };
        assert(maze.cells() =~= Seq::empty());
        maze
    }

    /// A maze of empty cells.
    pub fn new_with_with_and_height(rows: usize, columns: usize) -> (maze: Self)
        requires
            rows <= i32::MAX,
            columns <= i32::MAX,
        ensures
            maze.wf(),
            maze.rows == rows,
            maze.columns == columns,
            maze.start == (MazeLocation { row: 0, column: 0 }),
            maze.goal == (MazeLocation { row: 0, column: 0 }),
            forall|r: int, c: int| 0 <= r < rows && 0 <= c < columns ==> #[trigger] maze.cells()[r][c] == Cell::Empty,
    {
        let mut grid: Vec<Vec<Cell>> = Vec::new();
        let mut r: usize = 0;
        while r < rows
            invariant
                0 <= r <= rows,
                grid@.len() == r,
                forall|i: int| 0 <= i < r ==> (#[trigger] grid@[i])@.len() == columns,
                forall|i: int, j: int| 0 <= i < r && 0 <= j < columns ==> #[trigger] grid@[i]@[j] == Cell::Empty,
            decreases rows - r,
        {
            let mut row: Vec<Cell> = Vec::new();
            let mut c: usize = 0;
            while c < columns
                invariant
                    0 <= c <= columns,
                    row@.len() == c,
                    forall|j: int| 0 <= j < c ==> row@[j] == Cell::Empty,
                decreases columns - c,
            {
                row.push(Cell::Empty);
                c += 1;
            }
            grid.push(row);
            r += 1;
        }
        Maze {
            rows,
            columns,
            start: MazeLocation { row: 0, column: 0 },
            goal: MazeLocation { row: 0, column: 0 },
            grid,
        }
    }

    /// A maze in which each cell is blocked with a chance of
    /// `sparseness_percent` in a hundred, with `start` and `goal` marked.
    pub fn new_with_setup(
        rows: usize,
        columns: usize,
        start: MazeLocation,
        goal: MazeLocation,
        sparseness_percent: u32,
    ) -> (maze: Self)
        requires
            rows <= i32::MAX,
            columns <= i32::MAX,
            0 <= start.row < rows && 0 <= start.column < columns,
            0 <= goal.row < rows && 0 <= goal.column < columns,
            sparseness_percent <= 100,
        ensures
            maze.wf(),
            maze.rows == rows,
            maze.columns == columns,
            maze.start == start,
            maze.goal == goal,
            forall|r: int, c: int|
                0 <= r < rows && 0 <= c < columns ==> {
                    let cell = #[trigger] maze.cells()[r][c];
                    if r == goal.row && c == goal.column {
                        cell == Cell::Goal
                    } else if r == start.row && c == start.column {
                        cell == Cell::Start
                    } else {
                        &&& cell == Cell::Empty || cell == Cell::Blocked
                        &&& sparseness_percent == 0 ==> cell == Cell::Empty
                        &&& sparseness_percent == 100 ==> cell == Cell::Blocked
                    }
                },
    {
        let mut maze = Self::new_with_with_and_height(rows, columns);
        maze.start = start;
        maze.goal = goal;
        maze.randomly_block_cells(sparseness_percent);
        let ghost before = maze.cells();
        maze.mark_start_and_goal();
        proof {
            assert forall|r: int, c: int| 0 <= r < rows && 0 <= c < columns implies {
                let cell = #[trigger] maze.cells()[r][c];
                if r == goal.row && c == goal.column {
                    cell == Cell::Goal
                } else if r == start.row && c == start.column {
                    cell == Cell::Start
                } else {
                    &&& cell == Cell::Empty || cell == Cell::Blocked
                    &&& sparseness_percent == 0 ==> cell == Cell::Empty
                    &&& sparseness_percent == 100 ==> cell == Cell::Blocked
                }
            } by {
                assert(before[r][c] == Cell::Empty || before[r][c] == Cell::Blocked);
            }
        }
        maze
    }

    /// Blocks each cell with a chance of `sparseness_percent` in a hundred.
    pub fn randomly_block_cells(&mut self, sparseness_percent: u32)
        requires
            old(self).wf(),
            sparseness_percent <= 100,
        ensures
            final(self).wf(),
            final(self).rows == old(self).rows,
            final(self).columns == old(self).columns,
            final(self).start == old(self).start,
            final(self).goal == old(self).goal,
            forall|r: int, c: int|
                0 <= r < old(self).rows && 0 <= c < old(self).columns ==> {
                    let cell = #[trigger] final(self).cells()[r][c];
                    &&& cell == old(self).cells()[r][c] || cell == Cell::Blocked
                    &&& sparseness_percent == 0 ==> cell == old(self).cells()[r][c]
                    &&& sparseness_percent == 100 ==> cell == Cell::Blocked
                },
    {
        let mut r: usize = 0;
        while r < self.rows
            invariant
                0 <= r <= self.rows,
                sparseness_percent <= 100,
                self.wf(),
                old(self).wf(),
                self.rows == old(self).rows,
                self.columns == old(self).columns,
                self.start == old(self).start,
                self.goal == old(self).goal,
                forall|i: int, j: int|
                    0 <= i < self.rows && 0 <= j < self.columns ==> {
                        let cell = #[trigger] self.cells()[i][j];
                        if i < r {
                            &&& cell == old(self).cells()[i][j] || cell == Cell::Blocked
                            &&& sparseness_percent == 0 ==> cell == old(self).cells()[i][j]
                            &&& sparseness_percent == 100 ==> cell == Cell::Blocked
                        } else {
                            cell == old(self).cells()[i][j]
                        }
                    },
            decreases self.rows - r,
        {
            let mut c: usize = 0;
            while c < self.columns
                invariant
                    0 <= r < self.rows,
                    0 <= c <= self.columns,
                    sparseness_percent <= 100,
                    self.wf(),
                    old(self).wf(),
                    self.rows == old(self).rows,
                    self.columns == old(self).columns,
                    self.start == old(self).start,
                    self.goal == old(self).goal,
                    forall|i: int, j: int|
                        0 <= i < self.rows && 0 <= j < self.columns ==> {
                            let cell = #[trigger] self.cells()[i][j];
                            if i < r || (i == r && j < c) {
                                &&& cell == old(self).cells()[i][j] || cell == Cell::Blocked
                                &&& sparseness_percent == 0 ==> cell == old(self).cells()[i][j]
                                &&& sparseness_percent == 100 ==> cell == Cell::Blocked
                            } else {
                                cell == old(self).cells()[i][j]
                            }
                        },
                decreases self.columns - c,
            {
                if draw(sparseness_percent, 100) {
                    self.grid[r][c] = Cell::Blocked;
                }
                c += 1;
            }
            r += 1;
        }
    }

    /// A maze in which the cells that `blocked` marks are blocked, with
    /// `start` and `goal` marked.
    pub fn new_with_blocked_cells(
        rows: usize,
        columns: usize,
        start: MazeLocation,
        goal: MazeLocation,
        blocked: &Vec<Vec<bool>>,
    ) -> (maze: Self)
        requires
            rows <= i32::MAX,
            columns <= i32::MAX,
            0 <= start.row < rows && 0 <= start.column < columns,
            0 <= goal.row < rows && 0 <= goal.column < columns,
            blocked@.len() == rows,
            forall|r: int| 0 <= r < rows ==> (#[trigger] blocked@[r])@.len() == columns,
        ensures
            maze.wf(),
            maze.rows == rows,
            maze.columns == columns,
            maze.start == start,
            maze.goal == goal,
            forall|r: int, c: int|
                0 <= r < rows && 0 <= c < columns ==> #[trigger] maze.cells()[r][c] == (if r == goal.row && c
                    == goal.column {
                    Cell::Goal
                } else if r == start.row && c == start.column {
                    Cell::Start
                } else if blocked@[r]@[c] {
                    Cell::Blocked
                } else {
                    Cell::Empty
                }),
    {
        let mut maze = Self::new_with_with_and_height(rows, columns);
        maze.start = start;
        maze.goal = goal;
        let mut r: usize = 0;
        while r < rows
            invariant
                0 <= r <= rows,
                maze.wf(),
                maze.rows == rows,
                maze.columns == columns,
                maze.start == start,
                maze.goal == goal,
                blocked@.len() == rows,
                forall|i: int| 0 <= i < rows ==> (#[trigger] blocked@[i])@.len() == columns,
                forall|i: int, j: int|
                    0 <= i < rows && 0 <= j < columns ==> #[trigger] maze.cells()[i][j] == (if i < r
                        && blocked@[i]@[j] {
                        Cell::Blocked
                    } else {
                        Cell::Empty
                    }),
            decreases rows - r,
        {
            let mut c: usize = 0;
            while c < columns
                invariant
                    0 <= r < rows,
                    0 <= c <= columns,
                    maze.wf(),
                    maze.rows == rows,
                    maze.columns == columns,
                    maze.start == start,
                    maze.goal == goal,
                    blocked@.len() == rows,
                    forall|i: int| 0 <= i < rows ==> (#[trigger] blocked@[i])@.len() == columns,
                    forall|i: int, j: int|
                        0 <= i < rows && 0 <= j < columns ==> #[trigger] maze.cells()[i][j] == (if (i < r || (i
                            == r && j < c)) && blocked@[i]@[j] {
                            Cell::Blocked
                        } else {
                            Cell::Empty
                        }),
                decreases columns - c,
            {
                if blocked[r][c] {
                    maze.grid[r][c] = Cell::Blocked;
                }
                c += 1;
            }
            r += 1;
        }
        let ghost before = maze.cells();
        maze.mark_start_and_goal();
        proof {
            assert forall|r: int, c: int| 0 <= r < rows && 0 <= c < columns implies #[trigger] maze.cells()[r][c] == (
            if r == goal.row && c == goal.column {
                Cell::Goal
            } else if r == start.row && c == start.column {
                Cell::Start
            } else if blocked@[r]@[c] {
                Cell::Blocked
            } else {
                Cell::Empty
            }) by {
                assert(before[r][c] == (if blocked@[r]@[c] {
                    Cell::Blocked
                } else {
                    Cell::Empty
                }));
            }
        }
        maze
    }

    pub fn test_goal(&self, loc: MazeLocation) -> (reached: bool)
        ensures
            reached == (self.goal == loc),
    {
        self.goal == loc
    }

    /// Whether `loc` lies inside the maze.
    pub fn is_location_valid(&self, loc: &MazeLocation) -> (ok: bool)
        ensures
            ok == self.valid(*loc),
    {
        loc.row >= 0 && (loc.row as usize) < self.rows && loc.column >= 0 && (loc.column as usize)
            < self.columns
    }

    /// What the cell at `loc` holds.
    pub fn cell_at(&self, loc: MazeLocation) -> (cell: Cell)
        requires
            self.wf(),
            self.valid(loc),
        ensures
            cell == self.cells()[loc.row as int][loc.column as int],
    {
        self.grid[loc.row as usize][loc.column as usize]
    }

    /// The neighbours of `from_loc` in the same row or column that lie
    /// inside the maze and are not blocked: the one above, the one to the
    /// left, the one to the right, the one below.
    pub fn get_successors(&self, from_loc: MazeLocation) -> (successors: Vec<MazeLocation>)
        requires
            self.wf(),
        ensures
            successors@ == self.successors_upto(from_loc, 4),
            forall|i: int|
                0 <= i < successors@.len() ==> self.valid(#[trigger] successors@[i]) && manhattan(
                    from_loc,
                    successors@[i],
                ) == 1 && self.cells()[successors@[i].row as int][successors@[i].column as int]
                    != Cell::Blocked,
    {
        let mut successors: Vec<MazeLocation> = Vec::new();
        let mut k: u8 = 0;
        while k < 4
            invariant
                self.wf(),
                0 <= k <= 4,
                successors@ == self.successors_upto(from_loc, k as int),
                forall|i: int|
                    0 <= i < successors@.len() ==> self.valid(#[trigger] successors@[i]) && manhattan(
                        from_loc,
                        successors@[i],
                    ) == 1 && self.cells()[successors@[i].row as int][successors@[i].column as int]
                        != Cell::Blocked,
            decreases 4 - k,
        {
            let row: i64 = from_loc.row as i64 + (if k == 0 {
                -1i64
            } else if k == 3 {
                1i64
            } else {
                0i64
            });
            let column: i64 = from_loc.column as i64 + (if k == 1 {
                -1i64
            } else if k == 2 {
                1i64
            } else {
                0i64
            });
            assert((row as int, column as int) == neighbour(from_loc, k as int));
            if row >= 0 && column >= 0 && row <= i32::MAX as i64 && column <= i32::MAX as i64 {
                let new_position = MazeLocation { row: row as i32, column: column as i32 };
                if self.is_location_valid(&new_position) {
                    let maze_value = self.grid[new_position.row as usize][new_position.column as usize];
                    if maze_value != Cell::Blocked {
                        successors.push(new_position);
                    }
                }
            }
            k += 1;
        }
        successors
    }

    /// Marks the cells of the start and of the goal.
    pub fn mark_start_and_goal(&mut self)
        requires
            old(self).wf(),
            old(self).valid(old(self).start),
            old(self).valid(old(self).goal),
        ensures
            final(self).wf(),
            final(self).rows == old(self).rows,
            final(self).columns == old(self).columns,
            final(self).start == old(self).start,
            final(self).goal == old(self).goal,
            final(self).cells() == with_cell(
                with_cell(old(self).cells(), old(self).start, Cell::Start),
                old(self).goal,
                Cell::Goal,
            ),
    {
        self.put(self.start, Cell::Start);
        self.put(self.goal, Cell::Goal);
    }

    /// Replaces what the cell at `loc` holds.
    fn put(&mut self, loc: MazeLocation, cell: Cell)
        requires
            old(self).wf(),
            old(self).valid(loc),
        ensures
            final(self).wf(),
            final(self).rows == old(self).rows,
            final(self).columns == old(self).columns,
            final(self).start == old(self).start,
            final(self).goal == old(self).goal,
            final(self).cells() == with_cell(old(self).cells(), loc, cell),
    {
        self.grid[loc.row as usize][loc.column as usize] = cell;
        assert(self.cells() =~= with_cell(old(self).cells(), loc, cell));
    }

    /// Marks each place of `path` as part of the path, then the start and the goal.
    pub fn mark_path(&mut self, path: Vec<MazeLocation>)
        requires
            old(self).wf(),
            old(self).valid(old(self).start),
            old(self).valid(old(self).goal),
            forall|i: int| 0 <= i < path@.len() ==> old(self).valid(#[trigger] path@[i]),
        ensures
            final(self).wf(),
            final(self).rows == old(self).rows,
            final(self).columns == old(self).columns,
            final(self).start == old(self).start,
            final(self).goal == old(self).goal,
            final(self).cells() == with_cell(
                with_cell(painted(old(self).cells(), path@), old(self).start, Cell::Start),
                old(self).goal,
                Cell::Goal,
            ),
    {
        let mut i: usize = 0;
        while i < path.len()
            invariant
                0 <= i <= path@.len(),
                self.wf(),
                self.rows == old(self).rows,
                self.columns == old(self).columns,
                self.start == old(self).start,
                self.goal == old(self).goal,
                forall|k: int| 0 <= k < path@.len() ==> self.valid(#[trigger] path@[k]),
                self.cells() == painted(old(self).cells(), path@.take(i as int)),
            decreases path@.len() - i,
        {
            proof {
                assert(path@.take(i + 1).drop_last() =~= path@.take(i as int));
                assert(path@.take(i + 1).last() == path@[i as int]);
            }
            self.put(path[i], Cell::Path);
            i += 1;
        }
        proof {
            assert(path@.take(path@.len() as int) =~= path@);
        }
        self.mark_start_and_goal();
    }

    /// Takes every mark of a path away, then marks the start and the goal.
    pub fn clear_path(&mut self)
        requires
            old(self).wf(),
            old(self).valid(old(self).start),
            old(self).valid(old(self).goal),
        ensures
            final(self).wf(),
            final(self).rows == old(self).rows,
            final(self).columns == old(self).columns,
            final(self).start == old(self).start,
            final(self).goal == old(self).goal,
            final(self).cells() == with_cell(
                with_cell(cleared(old(self).cells()), old(self).start, Cell::Start),
                old(self).goal,
                Cell::Goal,
            ),
    {
        let mut r: usize = 0;
        while r < self.rows
            invariant
                0 <= r <= self.rows,
                self.wf(),
                old(self).wf(),
                self.rows == old(self).rows,
                self.columns == old(self).columns,
                self.start == old(self).start,
                self.goal == old(self).goal,
                forall|i: int, j: int|
                    0 <= i < self.rows && 0 <= j < self.columns ==> #[trigger] self.cells()[i][j] == (if i < r {
                        cleared(old(self).cells())[i][j]
                    } else {
                        old(self).cells()[i][j]
                    }),
            decreases self.rows - r,
        {
            let mut c: usize = 0;
            while c < self.columns
                invariant
                    0 <= r < self.rows,
                    0 <= c <= self.columns,
                    self.wf(),
                    old(self).wf(),
                    self.rows == old(self).rows,
                    self.columns == old(self).columns,
                    self.start == old(self).start,
                    self.goal == old(self).goal,
                    forall|i: int, j: int|
                        0 <= i < self.rows && 0 <= j < self.columns ==> #[trigger] self.cells()[i][j] == (if i < r
                            || (i == r && j < c) {
                            cleared(old(self).cells())[i][j]
                        } else {
                            old(self).cells()[i][j]
                        }),
                decreases self.columns - c,
            {
                if self.grid[r][c] == Cell::Path {
                    self.grid[r][c] = Cell::Empty;
                }
                c += 1;
            }
            r += 1;
        }
        proof {
            assert(self.cells() =~~= cleared(old(self).cells()));
        }
        self.mark_start_and_goal();
    }

    /// The number of horizontal and vertical steps between `loc` and the goal.
    pub fn distance_to_goal(&self, loc: MazeLocation) -> (distance: u32)
        requires
            magnitude(loc.column - self.goal.column) <= i32::MAX,
            magnitude(loc.row - self.goal.row) <= i32::MAX,
        ensures
            distance == manhattan(self.goal, loc),
    {
        self.goal.manhattan_distance_to(loc)
    }
}

} // verus!
