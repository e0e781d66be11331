//! Queens on a chess board that do not attack each other.

use vstd::prelude::*;

verus! {

/// A queen on one of the two squares attacks the other: they share a row, a column or a
/// diagonal (or are one square).
pub open spec fn attacks(r1: int, c1: int, r2: int, c2: int) -> bool {
    r1 == r2 || c1 == c2 || r1 - c1 == r2 - c2 || r1 + c1 == r2 + c2
}

/// `a` comes before `b` when the squares are read row by row.
pub open spec fn reads_before(a: (usize, usize), b: (usize, usize)) -> bool {
    a.0 < b.0 || (a.0 == b.0 && a.1 < b.1)
}

/// The largest board on which queens are placed.
pub const MAX_SIZE: usize = 0x7fff_ffff;

/// A queen stands in row `r` and column `c` of the squares `grid`.
pub open spec fn queen_on(grid: Seq<Seq<bool>>, r: int, c: int) -> bool {
    grid[r][c]
}

/// No queen on the `n` rows and columns of `grid` attacks the square in row `row` and
/// column `col`.
pub open spec fn grid_free(grid: Seq<Seq<bool>>, n: int, row: int, col: int) -> bool {
    forall|r: int, c: int|
        0 <= r < n && 0 <= c < n && #[trigger] queen_on(grid, r, c) ==> !attacks(row, col, r, c)
}

/// The squares `grid` with a queen in row `r` and column `c`.
pub open spec fn with_queen(grid: Seq<Seq<bool>>, r: int, c: int) -> Seq<Seq<bool>> {
    grid.update(r, grid[r].update(c, true))
}

/// The squares after a queen was put into every column from `column` on: in each column into
/// the first row whose square no queen attacks and from which the columns behind it can be
/// filled too. Nothing where the columns cannot be filled.
pub open spec fn solved(grid: Seq<Seq<bool>>, n: int, column: int) -> Option<Seq<Seq<bool>>>
    decreases n - column, n + 1,
{
    if column >= n || n < 0 {
        Some(grid)
    } else {
        tried_rows(grid, n, column, 0)
    }
}

/// As `solved`, with the rows before `row` left out for the queen of column `column`.
pub open spec fn tried_rows(grid: Seq<Seq<bool>>, n: int, column: int, row: int) -> Option<
    Seq<Seq<bool>>,
>
    decreases n - column, n - row,
{
    if row >= n || column >= n || row < 0 {
        None
    } else if grid_free(grid, n, row, column) {
        match solved(with_queen(grid, row, column), n, column + 1) {
            Some(filled) => Some(filled),
            None => tried_rows(grid, n, column, row + 1),
        }
    } else {
        tried_rows(grid, n, column, row + 1)
    }
}

pub struct ChessBoard {
    board: Vec<Vec<bool>>,
    n: usize,
}

impl ChessBoard {
    /// The number of rows, and of columns.
    pub closed spec fn size(&self) -> nat {
        self.n as nat
    }

    /// A queen stands in row `r` and column `c`.
    pub closed spec fn queen(&self, r: int, c: int) -> bool {
        self.board@[r]@[c]
    }

    /// The squares of the board, row by row: `true` where a queen stands.
    pub closed spec fn grid(&self) -> Seq<Seq<bool>> {
        Seq::new(self.board@.len(), |r: int| self.board@[r]@)
    }

    /// The queens of the board are those of its squares.
    pub proof fn lemma_grid(&self)
        requires
            self.wf(),
        ensures
            self.grid().len() == self.size(),
            forall|r: int| 0 <= r < self.size() ==> (#[trigger] self.grid()[r]).len() == self.size(),
            forall|r: int, c: int|
                0 <= r < self.size() && 0 <= c < self.size() ==> #[trigger] self.queen(r, c)
                    == queen_on(self.grid(), r, c),
            forall|row: int, col: int|
                #![trigger self.free(row, col)]
                #![trigger grid_free(self.grid(), self.size() as int, row, col)]
                self.free(row, col) == grid_free(self.grid(), self.size() as int, row, col),
    {
        assert forall|r: int| 0 <= r < self.size() implies (#[trigger] self.grid()[r]).len()
            == self.size() by {
            assert(self.board@[r]@.len() == self.n);
        }
        assert forall|row: int, col: int|
            #![trigger self.free(row, col)]
            #![trigger grid_free(self.grid(), self.size() as int, row, col)]
            self.free(row, col) == grid_free(self.grid(), self.size() as int, row, col) by {
            if self.free(row, col) {
                assert forall|r: int, c: int|
                    0 <= r < self.size() && 0 <= c < self.size() && #[trigger] queen_on(
                        self.grid(),
                        r,
                        c,
                    ) implies !attacks(row, col, r, c) by {
                    assert(self.queen(r, c));
                }
            }
            if grid_free(self.grid(), self.size() as int, row, col) {
                assert forall|r: int, c: int|
                    0 <= r < self.size() && 0 <= c < self.size() && #[trigger] self.queen(
                        r,
                        c,
                    ) implies !attacks(row, col, r, c) by {
                    assert(queen_on(self.grid(), r, c));
                }
            }
        }
    }

    /// A queen stands `d` squares away from row `row` and column `col` on a diagonal: down
    /// or up, to the right or to the left.
    pub closed spec fn queen_away(&self, row: int, col: int, down: bool, right: bool, d: int) -> bool {
        self.queen(
            if down {
                row + d
            } else {
                row - d
            },
            if right {
                col + d
            } else {
                col - d
            },
        )
    }

    /// The board has `size()` rows of `size()` squares.
    pub closed spec fn wf(&self) -> bool {
        &&& self.board@.len() == self.n
        &&& forall|r: int| 0 <= r < self.n ==> (#[trigger] self.board@[r])@.len() == self.n
    }

    /// No queen of the board attacks the square in row `row` and column `col`.
    pub open spec fn free(&self, row: int, col: int) -> bool {
        forall|r: int, c: int|
            0 <= r < self.size() && 0 <= c < self.size() && #[trigger] self.queen(r, c)
                ==> !attacks(row, col, r, c)
    }

    /// A queen stands in column `c`.
    pub open spec fn column_taken(&self, c: int) -> bool {
        exists|r: int| 0 <= r < self.size() && #[trigger] self.queen(r, c)
    }

    /// No two queens of the board attack each other.
    pub open spec fn peaceful(&self) -> bool {
        forall|r1: int, c1: int, r2: int, c2: int|
            0 <= r1 < self.size() && 0 <= c1 < self.size() && 0 <= r2 < self.size() && 0 <= c2
                < self.size() && #[trigger] self.queen(r1, c1) && #[trigger] self.queen(r2, c2)
                && (r1 != r2 || c1 != c2) ==> !attacks(r1, c1, r2, c2)
    }

    /// The queens of the board stand where those of `other` stand.
    pub open spec fn same_queens(&self, other: &ChessBoard) -> bool {
        &&& self.size() == other.size()
        &&& forall|r: int, c: int|
            0 <= r < self.size() && 0 <= c < self.size() ==> #[trigger] self.queen(r, c)
                == other.queen(r, c)
    }

    /// An empty board of `n` rows and columns.
    pub fn new(n: usize) -> (board: ChessBoard)
        ensures
            board.wf(),
            board.size() == n,
            forall|r: int, c: int| 0 <= r < n && 0 <= c < n ==> !#[trigger] board.queen(r, c),
    {
        let mut rows: Vec<Vec<bool>> = Vec::new();
        let mut r: usize = 0;
        while r < n
            invariant
                r <= n,
                rows@.len() == r,
                forall|k: int|
                    0 <= k < r ==> (#[trigger] rows@[k])@.len() == n && forall|c: int|
                        0 <= c < n ==> !rows@[k]@[c],
            decreases n - r,
        {
            rows.push(vec![false; n]);
            r += 1;
        }
        ChessBoard { n: n, board: rows }
    }

    /// The number of rows, and of columns.
    pub fn dimension(&self) -> (n: usize)
        ensures
            n == self.size(),
    {
        self.n
    }

    /// Puts a queen into every column, so that no two attack each other, where that can be
    /// done by going through the columns from the first and, in each, through the rows
    /// from the first; tells whether it was done.
    pub fn place_queens(&mut self) -> (placed: bool)
        requires
            old(self).wf(),
            old(self).size() <= MAX_SIZE,
        ensures
            final(self).wf(),
            final(self).size() == old(self).size(),
            placed == solved(old(self).grid(), old(self).size() as int, 0) is Some,
            final(self).grid() == if placed {
                solved(old(self).grid(), old(self).size() as int, 0).unwrap()
            } else {
                old(self).grid()
            },
            !placed ==> final(self).same_queens(old(self)),
            placed && old(self).peaceful() ==> final(self).peaceful(),
            placed ==> forall|c: int|
                0 <= c < final(self).size() ==> #[trigger] final(self).column_taken(c),
    {
        self.place_queens_r(0)
    }

    /// Puts a queen into every column from `column` on: into the first row of the column
    /// whose square no queen attacks and from which the columns behind can be done too.
    /// Where no row will do, the board is left as it was.
    pub fn place_queens_r(&mut self, column: usize) -> (placed: bool)
        requires
            old(self).wf(),
            old(self).size() <= MAX_SIZE,
        ensures
            final(self).wf(),
            final(self).size() == old(self).size(),
            placed == solved(old(self).grid(), old(self).size() as int, column as int) is Some,
            final(self).grid() == if placed {
                solved(old(self).grid(), old(self).size() as int, column as int).unwrap()
            } else {
                old(self).grid()
            },
            !placed ==> final(self).same_queens(old(self)),
            placed && old(self).peaceful() ==> final(self).peaceful(),
            placed ==> forall|c: int|
                column <= c < final(self).size() ==> #[trigger] final(self).column_taken(c),
            forall|r: int, c: int|
                0 <= r < old(self).size() && 0 <= c < old(self).size() && #[trigger] old(self).queen(r, c) ==> final(self).queen(r, c),
        decreases old(self).size() - column,
    {
        if column < self.n {
            let mut r: usize = 0;
            while r < self.n
                invariant
                    r <= self.n,
                    column < self.n,
                    self.n == old(self).n,
                    self.wf(),
                    self.size() <= MAX_SIZE,
                    self.same_queens(old(self)),
                    self.grid() == old(self).grid(),
                    solved(old(self).grid(), self.n as int, column as int) == tried_rows(
                        old(self).grid(),
                        self.n as int,
                        column as int,
                        r as int,
                    ),
                decreases self.n - r,
            {
                proof {
                    self.lemma_grid();
                }
                if self.is_valid(r, column) {
                    let ghost before = *self;
                    self.board[r][column] = true;
                    proof {
                        assert(self.wf());
                        assert(self.grid() =~= with_queen(before.grid(), r as int, column as int)) by {
                            assert forall|k: int| 0 <= k < self.n implies #[trigger] self.grid()[k]
                                =~= with_queen(before.grid(), r as int, column as int)[k] by {
                                assert(before.grid()[k] == before.board@[k]@);
                            }
                        }
                        assert(self.queen(r as int, column as int));
                        assert forall|r1: int, c1: int|
                            0 <= r1 < self.n && 0 <= c1 < self.n && (r1 != r
                                || c1 != column) implies self.queen(r1, c1) == before.queen(
                            r1,
                            c1,
                        ) by {}
                    }
                    let ghost filled = *self;
                    if self.place_queens_r(column + 1) {
                        proof {
                            assert(self.queen(r as int, column as int));
                            if old(self).peaceful() {
                                assert(before.peaceful());
                                assert(filled.peaceful()) by {
                                    assert forall|r1: int, c1: int, r2: int, c2: int|
                                        0 <= r1 < filled.size() && 0 <= c1 < filled.size() && 0
                                            <= r2 < filled.size() && 0 <= c2 < filled.size()
                                            && #[trigger] filled.queen(r1, c1)
                                            && #[trigger] filled.queen(r2, c2) && (r1 != r2 || c1
                                            != c2) implies !attacks(r1, c1, r2, c2) by {
                                        if r1 == r && c1 == column {
                                            assert(before.queen(r2, c2));
                                        } else if r2 == r && c2 == column {
                                            assert(before.queen(r1, c1));
                                        } else {
                                            assert(before.queen(r1, c1));
                                            assert(before.queen(r2, c2));
                                        }
                                    }
                                }
                            }
                            assert forall|r0: int, c0: int|
                                0 <= r0 < old(self).size() && 0 <= c0 < old(self).size()
                                    && #[trigger] old(self).queen(r0, c0) implies self.queen(
                                r0,
                                c0,
                            ) by {
                                assert(before.queen(r0, c0));
                                assert(filled.queen(r0, c0));
                            }
                        }
                        return true;
                    }
                    let ghost failed = *self;
                    self.board[r][column] = false;
                    proof {
                        assert(failed.grid() == filled.grid());
                        assert forall|r1: int, c1: int|
                            0 <= r1 < self.n && 0 <= c1 < self.n && (r1 != r
                                || c1 != column) implies self.queen(r1, c1) == failed.queen(
                            r1,
                            c1,
                        ) by {}
                        assert(!before.queen(r as int, column as int)) by {
                            if before.queen(r as int, column as int) {
                                assert(attacks(r as int, column as int, r as int, column as int));
                            }
                        }
                        assert forall|r1: int, c1: int|
                            0 <= r1 < self.n && 0 <= c1 < self.n implies #[trigger] self.queen(
                            r1,
                            c1,
                        ) == before.queen(r1, c1) by {
                            if r1 != r || c1 != column {
                                assert(self.queen(r1, c1) == failed.queen(r1, c1));
                                assert(failed.queen(r1, c1) == filled.queen(r1, c1));
                                assert(filled.queen(r1, c1) == before.queen(r1, c1));
                            }
                        }
                        assert(self.grid() =~= before.grid()) by {
                            assert forall|k: int| 0 <= k < self.n implies #[trigger] self.grid()[k]
                                =~= before.grid()[k] by {
                                assert(before.grid()[k] == before.board@[k]@);
                                assert(self.grid()[k] == self.board@[k]@);
                                assert forall|c1: int| 0 <= c1 < self.n implies self.board@[k]@[c1]
                                    == before.board@[k]@[c1] by {
                                    assert(self.queen(k, c1) == before.queen(k, c1));
                                }
                            }
                        }
                    }
                }
                r += 1;
            }
            false
        } else {
            true
        }
    }

    /// Whether no queen attacks the square in row `row` and column `col`.
    pub fn is_valid(&self, row: usize, col: usize) -> (valid: bool)
        requires
            self.wf(),
            row < self.size(),
            col < self.size(),
            self.size() <= MAX_SIZE,
        ensures
            valid == self.free(row as int, col as int),
    {
        let mut k: usize = 0;
        while k < self.n
            invariant
                self.wf(),
                k <= self.n,
                row < self.n,
                col < self.n,
                forall|m: int| 0 <= m < k ==> !self.queen(m, col as int),
                forall|m: int| 0 <= m < k ==> !self.queen(row as int, m),
            decreases self.n - k,
        {
            if self.board[k][col] {
                assert(self.queen(k as int, col as int));
                assert(attacks(row as int, col as int, k as int, col as int));
                return false;
            }
            if self.board[row][k] {
                assert(self.queen(row as int, k as int));
                assert(attacks(row as int, col as int, row as int, k as int));
                return false;
            }
            k += 1;
        }
        let mut i: usize = 0;
        let (mut left_lower, mut left_upper, mut right_lower, mut right_upper) = (
            true,
            true,
            true,
            true,
        );

        while left_lower || left_upper || right_lower || right_upper
            invariant
                self.wf(),
                row < self.n,
                col < self.n,
                self.n <= MAX_SIZE,
                i <= self.n,
                left_upper == (i <= row && i <= col),
                left_lower == (row + i < self.n && i <= col),
                right_lower == (row + i < self.n && col + i < self.n),
                right_upper == (i <= row && col + i < self.n),
                forall|m: int| 0 <= m < self.n ==> !self.queen(m, col as int),
                forall|m: int| 0 <= m < self.n ==> !self.queen(row as int, m),
                forall|d: int|
                    0 <= d < i && d <= row && d <= col ==> !#[trigger] self.queen_away(
                        row as int,
                        col as int,
                        false,
                        false,
                        d,
                    ),
                forall|d: int|
                    0 <= d < i && row + d < self.n && d <= col ==> !#[trigger] self.queen_away(
                        row as int,
                        col as int,
                        true,
                        false,
                        d,
                    ),
                forall|d: int|
                    0 <= d < i && row + d < self.n && col + d < self.n
                        ==> !#[trigger] self.queen_away(row as int, col as int, true, true, d),
                forall|d: int|
                    0 <= d < i && d <= row && col + d < self.n ==> !#[trigger] self.queen_away(
                        row as int,
                        col as int,
                        false,
                        true,
                        d,
                    ),
            decreases self.n - i,
        {
            if left_upper && self.board[row - i][col - i] {
                assert(self.queen(row - i, col - i));
                assert(attacks(row as int, col as int, row - i, col - i));
                return false;
            }
            if left_lower && self.board[row + i][col - i] {
                assert(self.queen(row + i, col - i));
                assert(attacks(row as int, col as int, row + i, col - i));
                return false;
            }
            if right_lower && self.board[row + i][col + i] {
                assert(self.queen(row + i, col + i));
                assert(attacks(row as int, col as int, row + i, col + i));
                return false;
            }
            if right_upper && self.board[row - i][col + i] {
                assert(self.queen(row - i, col + i));
                assert(attacks(row as int, col as int, row - i, col + i));
                return false;
            }
            i += 1;
            left_upper = row as i64 - i as i64 >= 0 && col as i64 - i as i64 >= 0;
            left_lower = row + i < self.n && col as i64 - i as i64 >= 0;

            right_lower = row + i < self.n && col + i < self.n;
            right_upper = row as i64 - i as i64 >= 0 && col + i < self.n;
        }
        proof {
            assert forall|r: int, c: int|
                0 <= r < self.size() && 0 <= c < self.size() && #[trigger] self.queen(
                    r,
                    c,
                ) implies !attacks(row as int, col as int, r, c) by {
                if r - c == row - col {
                    if r <= row {
                        assert(!self.queen_away(row as int, col as int, false, false, row - r));
                    } else {
                        assert(!self.queen_away(row as int, col as int, true, true, r - row));
                    }
                } else if r + c == row + col {
                    if r <= row {
                        assert(!self.queen_away(row as int, col as int, false, true, row - r));
                    } else {
                        assert(!self.queen_away(row as int, col as int, true, false, r - row));
                    }
                }
            }
        }
        true
    }

    /// The squares of the queens, read row by row.
    pub fn queen_coordinates(&self) -> (locations: Vec<(usize, usize)>)
        requires
            self.wf(),
        ensures
            forall|r: int, c: int|
                0 <= r < self.size() && 0 <= c < self.size() ==> (#[trigger] self.queen(r, c)
                    <==> locations@.contains((r as usize, c as usize))),
            forall|k: int|
                0 <= k < locations@.len() ==> (#[trigger] locations@[k]).0 < self.size()
                    && locations@[k].1 < self.size(),
            forall|i: int, j: int|
                0 <= i < j < locations@.len() ==> reads_before(locations@[i], locations@[j]),
    {
        let mut locations: Vec<(usize, usize)> = Vec::new();
        let mut r: usize = 0;
        while r < self.n
            invariant
                self.wf(),
                r <= self.n,
                forall|r0: int, c0: int|
                    0 <= r0 < r && 0 <= c0 < self.n ==> (#[trigger] self.queen(r0, c0)
                        <==> locations@.contains((r0 as usize, c0 as usize))),
                forall|k: int|
                    0 <= k < locations@.len() ==> (#[trigger] locations@[k]).0 < r
                        && locations@[k].1 < self.n,
                forall|i: int, j: int|
                    0 <= i < j < locations@.len() ==> reads_before(locations@[i], locations@[j]),
            decreases self.n - r,
        {
            let mut c: usize = 0;
            while c < self.n
                invariant
                    self.wf(),
                    r < self.n,
                    c <= self.n,
                    forall|r0: int, c0: int|
                        0 <= r0 < self.n && 0 <= c0 < self.n && (r0 < r || (r0 == r && c0 < c))
                            ==> (#[trigger] self.queen(r0, c0) <==> locations@.contains(
                            (r0 as usize, c0 as usize),
                        )),
                    forall|k: int|
                        0 <= k < locations@.len() ==> ((#[trigger] locations@[k]).0 < r || (
                        locations@[k].0 == r && locations@[k].1 < c)) && locations@[k].1 < self.n,
                    forall|i: int, j: int|
                        0 <= i < j < locations@.len() ==> reads_before(
                            locations@[i],
                            locations@[j],
                        ),
                decreases self.n - c,
            {
                let ghost before = locations@;
                if self.board[r][c] {
                    locations.push((r, c));
                    proof {
                        assert(locations@[before.len() as int] == (r, c));
                        assert forall|r0: int, c0: int|
                            0 <= r0 < self.n && 0 <= c0 < self.n && (r0 < r || (r0 == r && c0 < c
                                + 1)) implies (#[trigger] self.queen(r0, c0)
                            <==> locations@.contains((r0 as usize, c0 as usize))) by {
                            let cell = (r0 as usize, c0 as usize);
                            if r0 == r && c0 == c {
                            } else {
                                if before.contains(cell) {
                                    let k = choose|k: int| 0 <= k < before.len() && before[k] == cell;
                                    assert(locations@[k] == cell);
                                }
                                if locations@.contains(cell) {
                                    let k = choose|k: int|
                                        0 <= k < locations@.len() && locations@[k] == cell;
                                    assert(before[k] == cell);
                                }
                            }
                        }
                    }
                } else {
                    proof {
                        let cell = (r, c);
                        if before.contains(cell) {
                            let k = choose|k: int| 0 <= k < before.len() && before[k] == cell;
                            assert(before[k].1 < c || before[k].0 < r);
                        }
                    }
                }
                c += 1;
            }
            r += 1;
        }
        locations
    }

    /// Takes all queens from the board.
    pub fn reset(&mut self)
        requires
            old(self).wf(),
        ensures
            final(self).wf(),
            final(self).size() == old(self).size(),
            forall|r: int, c: int|
                0 <= r < final(self).size() && 0 <= c < final(self).size() ==> !#[trigger] final(self).queen(r, c),
    {
        let mut r: usize = 0;
        while r < self.n
            invariant
                self.wf(),
                self.n == old(self).n,
                r <= self.n,
                forall|r0: int, c0: int|
                    0 <= r0 < r && 0 <= c0 < self.n ==> !#[trigger] self.queen(r0, c0),
            decreases self.n - r,
        {
            let mut c: usize = 0;
            while c < self.n
                invariant
                    self.wf(),
                    self.n == old(self).n,
                    r < self.n,
                    c <= self.n,
                    forall|r0: int, c0: int|
                        0 <= r0 < r && 0 <= c0 < self.n ==> !#[trigger] self.queen(r0, c0),
                    forall|c0: int| 0 <= c0 < c ==> !#[trigger] self.queen(r as int, c0),
                decreases self.n - c,
            {
                let ghost before = *self;
                self.board[r][c] = false;
                proof {
                    assert forall|r0: int, c0: int|
                        0 <= r0 < self.n && 0 <= c0 < self.n && (r0 != r || c0 != c) implies self.queen(
                        r0,
                        c0,
                    ) == before.queen(r0, c0) by {}
                    assert forall|r0: int, c0: int|
                        0 <= r0 < r && 0 <= c0 < self.n implies !#[trigger] self.queen(r0, c0) by {
                        assert(!before.queen(r0, c0));
                    }
                    assert forall|c0: int| 0 <= c0 < c + 1 implies !#[trigger] self.queen(
                        r as int,
                        c0,
                    ) by {
                        if c0 < c {
                            assert(!before.queen(r as int, c0));
                        }
                    }
                }
                c += 1;
            }
            r += 1;
        }
    }
}

} // verus!
