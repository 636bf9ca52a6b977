//! A grid of letters in which words are laid out in a row, down a column or
//! along a diagonal.
use rand::distributions::Uniform;
use rand::Rng;
use vstd::prelude::*;
use vstd::string::StringSliceAdditionalSpecFns;

verus! {

/// A place in the grid.
#[derive(Clone, Copy, Debug, Hash, PartialEq, Eq, PartialOrd, Ord, Structural)]
pub struct GridLocation {
    pub row: i32,
    pub column: i32,
}

/// A grid of letters.
#[derive(Clone, Debug)]
pub struct WordGrid {
    pub rows: usize,
    pub columns: usize,
    pub grid: Vec<Vec<char>>,
}

/// Draws a capital letter: `sample` of rand with the uniform distribution
/// from `A` to `Z`, on the generator of the current thread. The contract
/// says that the letter lies in that range, and nothing more.
#[verifier::external_body]
fn random_letter() -> (letter: char)
    ensures
        'A' <= letter <= 'Z',
{
    rand::thread_rng().sample(Uniform::from('A'..='Z'))
}

/// The places of a word of `word_length` letters that starts at `row` and
/// `column` and moves by `down` rows and `right` columns from letter to letter.
pub open spec fn line(row: int, column: int, down: int, right: int, word_length: nat) -> Seq<GridLocation> {
    Seq::new(
        word_length,
        |k: int| GridLocation { row: (row + k * down) as i32, column: (column + k * right) as i32 },
    )
}

/// The letters with the one in row `r` and column `c` replaced.
pub open spec fn with_letter(letters: Seq<Seq<char>>, r: int, c: int, letter: char) -> Seq<Seq<char>> {
    letters.update(r, letters[r].update(c, letter))
}

/// The letters after the first `upto` bytes of a word were written, each
/// to the place with its number.
pub open spec fn written(
    letters: Seq<Seq<char>>,
    word: Seq<u8>,
    locations: Seq<GridLocation>,
    upto: int,
) -> Seq<Seq<char>>
    decreases upto,
{
    if upto <= 0 {
        letters
    } else {
        with_letter(
            written(letters, word, locations, upto - 1),
            locations[upto - 1].row as int,
            locations[upto - 1].column as int,
            word[upto - 1] as char,
        )
    }
}

impl WordGrid {
    /// The grid has the size that `rows` and `columns` give.
    pub open spec fn wf(&self) -> bool {
        &&& self.grid@.len() == self.rows
        &&& forall|r: int| 0 <= r < self.rows ==> (#[trigger] self.grid@[r])@.len() == self.columns
    }

    /// The letters, row by row.
    pub open spec fn letters(&self) -> Seq<Seq<char>> {
        Seq::new(self.grid@.len(), |r: int| self.grid@[r]@)
    }

    /// The candidate places for a word of `word_length` letters that starts
    /// at `row` and `column`: to the right, diagonally to the right, down,
    /// diagonally to the left, each where the grid has the room.
    pub open spec fn places_from(&self, row: int, column: int, word_length: nat) -> Seq<Seq<GridLocation>> {
        let fits_right = column + word_length <= self.columns;
        let fits_down = row + word_length <= self.rows;
        let fits_left = column - word_length >= 0;
        let right = if word_length > 0 && fits_right {
            seq![line(row, column, 0, 1, word_length)]
        } else {
            Seq::empty()
        };
        let diagonal_right = if word_length > 0 && fits_right && fits_down {
            seq![line(row, column, 1, 1, word_length)]
        } else {
            Seq::empty()
        };
        let down = if word_length > 0 && fits_down {
            seq![line(row, column, 1, 0, word_length)]
        } else {
            Seq::empty()
        };
        let diagonal_left = if word_length > 0 && fits_down && fits_left {
            seq![line(row, column, 1, -1, word_length)]
        } else {
            Seq::empty()
        };
        right + diagonal_right + down + diagonal_left
    }

    /// The candidate places for a word of `word_length` letters that starts
    /// in one of the first `cells` cells, counted row by row.
    pub open spec fn places_upto(&self, cells: int, word_length: nat) -> Seq<Seq<GridLocation>>
        decreases cells,
    {
        if cells <= 0 || self.columns == 0 {
            Seq::empty()
        } else {
            self.places_upto(cells - 1, word_length) + self.places_from(
                (cells - 1) / (self.columns as int),
                (cells - 1) % (self.columns as int),
                word_length,
            )
        }
    }

    /// A grid without cells.
    pub fn new() -> (made: Self)
        ensures
            made.rows == 0,
            made.columns == 0,
            made.grid@.len() == 0,
            made.wf(),
    {
        WordGrid { rows: 0, columns: 0, grid: Vec::new() }
    }

    /// A grid of the letter `A`.
    pub fn new_with_with_and_height(rows: usize, columns: usize) -> (made: Self)
        ensures
            made.wf(),
            made.rows == rows,
            made.columns == columns,
            forall|r: int, c: int| 0 <= r < rows && 0 <= c < columns ==> #[trigger] made.letters()[r][c] == 'A',
    {
        let mut grid: Vec<Vec<char>> = Vec::new();
        let mut r: usize = 0;
        while r < rows
            invariant
                0 <= r <= rows,
                grid@.len() == r,
                forall|i: int| 0 <= i < r ==> (#[trigger] grid@[i])@.len() == columns,
                forall|i: int, j: int| 0 <= i < r && 0 <= j < columns ==> #[trigger] grid@[i]@[j] == 'A',
            decreases rows - r,
        {
            let mut row: Vec<char> = Vec::new();
            let mut c: usize = 0;
            while c < columns
                invariant
                    0 <= c <= columns,
                    row@.len() == c,
                    forall|j: int| 0 <= j < c ==> row@[j] == 'A',
                decreases columns - c,
            {
                row.push('A');
                c += 1;
            }
            grid.push(row);
            r += 1;
        }
        WordGrid { rows, columns, grid }
    }

    /// A grid of random capital letters.
    pub fn new_with_setup(rows: usize, columns: usize) -> (made: Self)
        ensures
            made.wf(),
            made.rows == rows,
            made.columns == columns,
            forall|r: int, c: int|
                0 <= r < rows && 0 <= c < columns ==> 'A' <= #[trigger] made.letters()[r][c] <= 'Z',
    {
        let mut made = Self::new_with_with_and_height(rows, columns);
        made.randomly_fill_cells();
        made
    }

    /// Replaces the letter in row `row` and column `column`.
    fn put(&mut self, row: usize, column: usize, letter: char)
        requires
            old(self).wf(),
            row < old(self).rows,
            column < old(self).columns,
        ensures
            final(self).wf(),
            final(self).rows == old(self).rows,
            final(self).columns == old(self).columns,
            final(self).letters() == with_letter(old(self).letters(), row as int, column as int, letter),
    {
        self.grid[row][column] = letter;
        assert(self.letters() =~= with_letter(old(self).letters(), row as int, column as int, letter));
    }

    /// Puts a random capital letter into every cell.
    pub fn randomly_fill_cells(&mut self)
        requires
            old(self).wf(),
        ensures
            final(self).wf(),
            final(self).rows == old(self).rows,
            final(self).columns == old(self).columns,
            forall|r: int, c: int|
                0 <= r < old(self).rows && 0 <= c < old(self).columns ==> 'A' <= #[trigger] final(self).letters()[r][c]
                    <= 'Z',
    {
        let mut r: usize = 0;
        while r < self.rows
            invariant
                0 <= r <= self.rows,
                self.wf(),
                self.rows == old(self).rows,
                self.columns == old(self).columns,
                forall|i: int, j: int|
                    0 <= i < r && 0 <= j < self.columns ==> 'A' <= #[trigger] self.letters()[i][j] <= 'Z',
            decreases self.rows - r,
        {
            let mut c: usize = 0;
            while c < self.columns
                invariant
                    0 <= r < self.rows,
                    0 <= c <= self.columns,
                    self.wf(),
                    self.rows == old(self).rows,
                    self.columns == old(self).columns,
                    forall|i: int, j: int|
                        0 <= i < r && 0 <= j < self.columns ==> 'A' <= #[trigger] self.letters()[i][j] <= 'Z',
                    forall|j: int| 0 <= j < c ==> 'A' <= #[trigger] self.letters()[r as int][j] <= 'Z',
                decreases self.columns - c,
            {
                let ghost before = self.letters();
                let letter = random_letter();
                self.put(r, c, letter);
                proof {
                    assert forall|i: int, j: int| 0 <= i < r && 0 <= j < self.columns implies 'A'
                        <= #[trigger] self.letters()[i][j] <= 'Z' by {
                        assert(self.letters()[i][j] == before[i][j]);
                    }
                    assert forall|j: int| 0 <= j < c + 1 implies 'A' <= #[trigger] self.letters()[r as int][j]
                        <= 'Z' by {
                        if j < c {
                            assert(self.letters()[r as int][j] == before[r as int][j]);
                        }
                    }
                }
                c += 1;
            }
            r += 1;
        }
    }

    /// Writes the letters of `word` to the places given, the first letter
    /// to the first place, as far as both reach.
    pub fn mark_word(&mut self, word: &str, locations: Vec<GridLocation>)
        requires
            old(self).wf(),
            forall|i: int|
                0 <= i < locations@.len() ==> 0 <= (#[trigger] locations@[i]).row < old(self).rows && 0
                    <= locations@[i].column < old(self).columns,
        ensures
            final(self).wf(),
            final(self).rows == old(self).rows,
            final(self).columns == old(self).columns,
            final(self).letters() == written(
                old(self).letters(),
                word.spec_bytes(),
                locations@,
                if word.spec_bytes().len() <= locations@.len() {
                    word.spec_bytes().len() as int
                } else {
                    locations@.len() as int
                },
            ),
    {
        let bytes = word.as_bytes();
        let mut i: usize = 0;
        while i < bytes.len() && i < locations.len()
            invariant
                0 <= i <= bytes@.len(),
                i <= locations@.len(),
                bytes@ == word.spec_bytes(),
                self.wf(),
                self.rows == old(self).rows,
                self.columns == old(self).columns,
                forall|k: int|
                    0 <= k < locations@.len() ==> 0 <= (#[trigger] locations@[k]).row < self.rows && 0
                        <= locations@[k].column < self.columns,
                self.letters() == written(old(self).letters(), bytes@, locations@, i as int),
            decreases bytes@.len() - i,
        {
            let location = locations[i];
            self.put(location.row as usize, location.column as usize, bytes[i] as char);
            i += 1;
        }
    }

    /// The places of a word that runs to the right, if it has a letter.
    pub fn get_right_locations(row: usize, column: usize, word_length: usize) -> (result: Option<
        Vec<GridLocation>,
    >)
        requires
            row <= i32::MAX,
            column + word_length <= i32::MAX,
        ensures
            result.is_some() <==> word_length > 0,
            result matches Some(locations) ==> locations@ == line(
                row as int,
                column as int,
                0,
                1,
                word_length as nat,
            ),
    {
        Self::locations_along(row, column, false, 1, word_length)
    }

    /// The places of a word that runs down and to the right, if it has a letter.
    pub fn get_diagonal_right_locations(row: usize, column: usize, word_length: usize) -> (result: Option<
        Vec<GridLocation>,
    >)
        requires
            row + word_length <= i32::MAX,
            column + word_length <= i32::MAX,
        ensures
            result.is_some() <==> word_length > 0,
            result matches Some(locations) ==> locations@ == line(
                row as int,
                column as int,
                1,
                1,
                word_length as nat,
            ),
    {
        Self::locations_along(row, column, true, 1, word_length)
    }

    /// The places of a word that runs down, if it has a letter.
    pub fn get_down_locations(row: usize, column: usize, word_length: usize) -> (result: Option<
        Vec<GridLocation>,
    >)
        requires
            row + word_length <= i32::MAX,
            column <= i32::MAX,
        ensures
            result.is_some() <==> word_length > 0,
            result matches Some(locations) ==> locations@ == line(
                row as int,
                column as int,
                1,
                0,
                word_length as nat,
            ),
    {
        Self::locations_along(row, column, true, 0, word_length)
    }

    /// The places of a word that runs down and to the left, if it has a letter.
    pub fn get_diagonal_left_locations(row: usize, column: usize, word_length: usize) -> (result: Option<
        Vec<GridLocation>,
    >)
        requires
            row + word_length <= i32::MAX,
            column <= i32::MAX,
            word_length <= column + 1,
        ensures
            result.is_some() <==> word_length > 0,
            result matches Some(locations) ==> locations@ == line(
                row as int,
                column as int,
                1,
                -1,
                word_length as nat,
            ),
    {
        Self::locations_along(row, column, true, -1, word_length)
    }

    /// The places of a word that starts at `row` and `column` and moves
    /// down or not, and by `right` columns, from letter to letter.
    fn locations_along(row: usize, column: usize, down: bool, right: i32, word_length: usize) -> (result: Option<
        Vec<GridLocation>,
    >)
        requires
            -1 <= right <= 1,
            row + (if down { word_length as int } else { 0 }) <= i32::MAX,
            column <= i32::MAX,
            right == 1 ==> column + word_length <= i32::MAX,
            right == -1 ==> word_length <= column + 1,
        ensures
            result.is_some() <==> word_length > 0,
            result matches Some(locations) ==> locations@ == line(
                row as int,
                column as int,
                if down { 1 } else { 0 },
                right as int,
                word_length as nat,
            ),
    {
        let mut locations: Vec<GridLocation> = Vec::new();
        let mut k: usize = 0;
        while k < word_length
            invariant
                0 <= k <= word_length,
                -1 <= right <= 1,
                row + (if down { word_length as int } else { 0 }) <= i32::MAX,
                column <= i32::MAX,
                right == 1 ==> column + word_length <= i32::MAX,
                right == -1 ==> word_length <= column + 1,
                locations@.len() == k,
                forall|j: int|
                    0 <= j < k ==> #[trigger] locations@[j] == (GridLocation {
                        row: (row + j * (if down { 1int } else { 0int })) as i32,
                        column: (column + j * right) as i32,
                    }),
            decreases word_length - k,
        {
            let r: i32 = if down {
                (row + k) as i32
            } else {
                row as i32
            };
            let c: i32 = if right == 1 {
                (column + k) as i32
            } else if right == -1 {
                (column - k) as i32
            } else {
                column as i32
            };
            locations.push(GridLocation { row: r, column: c });
            k += 1;
        }
        if locations.len() > 0 {
            assert(locations@ =~= line(
                row as int,
                column as int,
                if down { 1 } else { 0 },
                right as int,
                word_length as nat,
            ));
            Some(locations)
        } else {
            None
        }
    }

    /// Every way to lay a word of as many letters as `word` has bytes into
    /// the grid: for each cell, row by row, the candidate places that start there.
    pub fn generate_domain(&self, word: &str) -> (domain: Vec<Vec<GridLocation>>)
        requires
            self.rows + word.spec_bytes().len() <= i32::MAX,
            self.columns + word.spec_bytes().len() <= i32::MAX,
        ensures
            self.columns > 0 ==> domain@.len() == self.places_upto(
                self.rows * self.columns,
                word.spec_bytes().len(),
            ).len(),
            self.columns > 0 ==> forall|i: int|
                0 <= i < domain@.len() ==> (#[trigger] domain@[i])@ == self.places_upto(
                    self.rows * self.columns,
                    word.spec_bytes().len(),
                )[i],
            self.columns == 0 ==> domain@.len() == 0,
    {
        let mut domain: Vec<Vec<GridLocation>> = Vec::new();
        let word_length = word.as_bytes().len();
        let ghost n = word_length as nat;
        let mut row: usize = 0;
        while row < self.rows
            invariant
                0 <= row <= self.rows,
                n == word_length,
                self.rows + word_length <= i32::MAX,
                self.columns + word_length <= i32::MAX,
                self.columns > 0 ==> domain@.len() == self.places_upto(row * self.columns, n).len(),
                self.columns > 0 ==> forall|i: int|
                    0 <= i < domain@.len() ==> (#[trigger] domain@[i])@ == self.places_upto(row * self.columns, n)[i],
                self.columns == 0 ==> domain@.len() == 0,
            decreases self.rows - row,
        {
            let mut column: usize = 0;
            while column < self.columns
                invariant
                    0 <= row < self.rows,
                    0 <= column <= self.columns,
                    n == word_length,
                    self.rows + word_length <= i32::MAX,
                    self.columns + word_length <= i32::MAX,
                    domain@.len() == self.places_upto(row * self.columns + column, n).len(),
                    forall|i: int|
                        0 <= i < domain@.len() ==> (#[trigger] domain@[i])@ == self.places_upto(
                            row * self.columns + column,
                            n,
                        )[i],
                decreases self.columns - column,
            {
                let ghost before = domain@;
                let ghost cell = row * self.columns + column;
                proof {
                    assert(cell / (self.columns as int) == row && cell % (self.columns as int) == column) by (nonlinear_arith)
                        requires
                            cell == row * self.columns + column,
                            0 <= column < self.columns,
                            0 <= row,
                    ;
                    assert(self.places_upto(cell + 1, n) == self.places_upto(cell, n) + self.places_from(
                        row as int,
                        column as int,
                        n,
                    ));
                }
                if column + word_length <= self.columns {
                    if let Some(right_locations) = Self::get_right_locations(row, column, word_length) {
                        domain.push(right_locations);
                    }
                    if row + word_length <= self.rows {
                        if let Some(diagonal_right_locations) = Self::get_diagonal_right_locations(
                            row,
                            column,
                            word_length,
                        ) {
                            domain.push(diagonal_right_locations);
                        }
                    }
                }
                if row + word_length <= self.rows {
                    if let Some(down_locations) = Self::get_down_locations(row, column, word_length) {
                        domain.push(down_locations);
                    }
                    if column >= word_length {
                        if let Some(diagonal_left_locations) = Self::get_diagonal_left_locations(
                            row,
                            column,
                            word_length,
                        ) {
                            domain.push(diagonal_left_locations);
                        }
                    }
                }
                proof {
                    let added = self.places_from(row as int, column as int, n);
                    let views = Seq::new(domain@.len(), |i: int| domain@[i]@);
                    let old_views = Seq::new(before.len(), |i: int| before[i]@);
                    assert(old_views =~= self.places_upto(cell, n));
                    assert(views =~= old_views + added);
                    assert(views =~= self.places_upto(cell + 1, n));
                    assert forall|i: int| 0 <= i < domain@.len() implies (#[trigger] domain@[i])@ == self.places_upto(
                        cell + 1,
                        n,
                    )[i] by {
                        assert(views[i] == domain@[i]@);
                    }
                }
                column += 1;
            }
            proof {
                assert(row * self.columns + self.columns == (row + 1) * self.columns) by (nonlinear_arith);
            }
            row += 1;
        }
        domain
    }
}

} // verus!
