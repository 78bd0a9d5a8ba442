//! A star field: a rectangular map of observed cells, where rows and
//! columns that hold no galaxy are gravitationally distorted and count a
//! million times their width when distances are measured.

use crate::text::index_of;
use vstd::prelude::*;

verus! {

/// A row/column coordinate on a 2D map.
#[derive(Clone, Copy, Debug, PartialEq, Eq, Structural)]
pub struct MapCoord {
    pub row: usize,
    pub col: usize,
}

/// A failure to measure between two points.
#[derive(PartialEq, Eq, Structural, Clone, Copy, Debug)]
pub enum StarFieldError {
    /// A point lies outside the star field.
    OutOfBounds,
}

/// Anything with a rectangular shape: positions convert between flat
/// buffer locations and row/column coordinates.
pub trait Mappable {
    /// The column count of the map.
    spec fn spec_cols(&self) -> usize;

    /// The row count of the map.
    spec fn spec_rows(&self) -> usize;

    fn cols(&self) -> (r: &usize)
        ensures
            *r == self.spec_cols(),
    ;

    fn rows(&self) -> (r: &usize)
        ensures
            *r == self.spec_rows(),
    ;

    /// The coordinate of a flat buffer location, or `None` past the last
    /// row.
    fn get_map_coord(&self, location: usize) -> (r: Option<MapCoord>)
        requires
            self.spec_cols() > 0,
        ensures
            r == if (location as int / self.spec_cols() as int) < self.spec_rows() {
                Some(
                    MapCoord {
                        row: (location as int / self.spec_cols() as int) as usize,
                        col: (location as int % self.spec_cols() as int) as usize,
                    },
                )
            } else {
                None::<MapCoord>
            },
    {
        let row: usize = location / *self.cols();
        let col: usize = location % *self.cols();
        if *self.rows() <= row {
            None
        } else {
            Some(MapCoord { row, col })
        }
    }

    /// The flat buffer location of a coordinate, or `None` when it falls
    /// past the end of the buffer.
    fn get_location(&self, location: MapCoord) -> (r: Option<usize>)
        requires
            self.spec_rows() * self.spec_cols() <= usize::MAX,
            location.row * self.spec_cols() + location.col <= usize::MAX,
        ensures
            r == if location.row * self.spec_cols() + location.col >= self.spec_rows()
                * self.spec_cols() {
                None::<usize>
            } else {
                Some((location.row * self.spec_cols() + location.col) as usize)
            },
    {
        let too_big: usize = *self.rows() * *self.cols();
        let position: usize = location.row * *self.cols() + location.col;
        if position >= too_big {
            None
        } else {
            Some(position)
        }
    }
}

/// One cell of the star field: the observed character and the distance
/// its row and column contribute when crossed.
#[derive(Clone, Copy, Debug)]
pub struct StarCell {
    pub observed: char,
    pub left_right: usize,
    pub top_bottom: usize,
}

impl StarCell {
    /// A fresh cell.
    pub fn new(observed: char, left_right: usize, top_bottom: usize) -> (r: StarCell)
        ensures
            r.observed == observed,
            r.left_right == left_right,
            r.top_bottom == top_bottom,
    {
        StarCell { observed, left_right, top_bottom }
    }

    /// Returns true if this StarCell holds a galaxy, false otherwise.
    pub fn is_galaxy(&self) -> (r: bool)
        ensures
            r == (self.observed == '#'),
    {
        self.observed == '#'
    }
}

/// The star field: its cells in row-major order.
#[derive(Clone, Debug)]
pub struct StarField {
    pub field: Vec<StarCell>,
    pub cols: usize,
    pub rows: usize,
}

impl Mappable for StarField {
    open spec fn spec_cols(&self) -> usize {
        self.cols
    }

    open spec fn spec_rows(&self) -> usize {
        self.rows
    }

    fn cols(&self) -> &usize {
        &self.cols
    }

    fn rows(&self) -> &usize {
        &self.rows
    }
}

/// Row `r` of the field holds no galaxy.
pub open spec fn row_empty(field: Seq<StarCell>, cols: int, r: int) -> bool {
    forall|k: int| 0 <= k < cols ==> (#[trigger] field[r * cols + k]).observed != '#'
}

/// Column `k` of the field holds no galaxy.
pub open spec fn col_empty(field: Seq<StarCell>, cols: int, rows: int, k: int) -> bool {
    forall|r: int| 0 <= r < rows ==> (#[trigger] field[r * cols + k]).observed != '#'
}

/// The text denotes a rectangular star field: every line as wide as the
/// first, no return at the end.
pub open spec fn star_text_wf(s: Seq<char>) -> bool {
    let w = index_of(s, '\n');
    &&& w >= 1
    &&& w < s.len()
    &&& (s.len() as int + 1) % (w + 1) == 0
    &&& forall|i: int| 0 <= i < s.len() ==> ((#[trigger] s[i] == '\n') <==> (i % (w + 1) == w))
}

/// The observed characters of a rectangular text, newlines dropped.
pub open spec fn spec_observed_of(s: Seq<char>) -> Seq<char> {
    let w = index_of(s, '\n');
    let rows = (s.len() as int + 1) / (w + 1);
    Seq::new((rows * w) as nat, |i: int| s[(i / w) * (w + 1) + (i % w)])
}

/// The galaxies of the field taken in row-major order, over the first
/// `n` cells.
pub open spec fn spec_galaxies_prefix(field: Seq<StarCell>, cols: int, n: int) -> Seq<MapCoord>
    decreases n,
{
    if n <= 0 {
        seq![]
    } else if field[n - 1].observed == '#' {
        spec_galaxies_prefix(field, cols, n - 1).push(
            MapCoord { row: ((n - 1) / cols) as usize, col: ((n - 1) % cols) as usize },
        )
    } else {
        spec_galaxies_prefix(field, cols, n - 1)
    }
}

/// The total of the row contributions crossed between `start` and `end`
/// along a fixed column.
pub open spec fn row_span_sum(
    field: Seq<StarCell>,
    cols: int,
    start: int,
    end: int,
    col: int,
) -> int
    decreases end - start,
{
    if start >= end {
        0
    } else {
        field[start * cols + col].left_right + row_span_sum(field, cols, start + 1, end, col)
    }
}

/// The total of the column contributions crossed between `start` and
/// `end` along a fixed row.
pub open spec fn col_span_sum(
    field: Seq<StarCell>,
    cols: int,
    row: int,
    start: int,
    end: int,
) -> int
    decreases end - start,
{
    if start >= end {
        0
    } else {
        field[row * cols + start].top_bottom + col_span_sum(field, cols, row, start + 1, end)
    }
}

impl StarField {
    /// The buffer matches the dimensions.
    pub open spec fn wf(self) -> bool {
        &&& self.field@.len() == self.rows * self.cols
        &&& self.cols >= 1
    }

    /// A coordinate lies on the field.
    pub open spec fn spec_is_in(self, coord: MapCoord) -> bool {
        coord.row < self.rows && coord.col < self.cols
    }

    /// Checks to see if a MapCoord is within this StarField.
    fn is_in(&self, coord: MapCoord) -> (r: bool)
        ensures
            r == self.spec_is_in(coord),
    {
        coord.row < self.rows && coord.col < self.cols
    }

    /// Takes a string representation of a star field and creates a
    /// StarField, the gravitational distortion already applied: cells of
    /// rows or columns without a galaxy weigh a million.
    pub fn parse(input: String) -> (r: StarField)
        requires
            input@.len() < usize::MAX,
            vstd::utf8::is_ascii_chars(input@),
            star_text_wf(input@),
        ensures
            r.wf(),
            r.cols == index_of(input@, '\n'),
            r.rows == (input@.len() as int + 1) / (index_of(input@, '\n') + 1),
            forall|i: int|
                0 <= i < r.field@.len() ==> (#[trigger] r.field@[i]).observed == spec_observed_of(
                    input@,
                )[i],
            forall|i: int|
                0 <= i < r.field@.len() ==> (#[trigger] r.field@[i]).left_right == (if row_empty(
                    r.field@,
                    r.cols as int,
                    i / (r.cols as int),
                ) {
                    1000000int
                } else {
                    1int
                }),
            forall|i: int|
                0 <= i < r.field@.len() ==> (#[trigger] r.field@[i]).top_bottom == (if !row_empty(
                    r.field@,
                    r.cols as int,
                    i / (r.cols as int),
                ) && col_empty(r.field@, r.cols as int, r.rows as int, i % (r.cols as int)) {
                    1000000int
                } else {
                    1int
                }),
    {
        let the_text: &str = input.as_str();
        proof {
            assert(vstd::string::is_ascii(the_text));
        }
        let len: usize = the_text.unicode_len();
        let mut w: usize = 0;
        while w < len && (the_text.get_ascii(w) as char) != '\n'
            invariant
                w <= len,
                len == the_text@.len(),
                vstd::string::is_ascii(the_text),
                forall|j: int| 0 <= j < w ==> the_text@[j] != '\n',
            decreases len - w,
        {
            w = w + 1;
        }
        proof {
            if w < len {
                crate::text::lemma_index_of_is(the_text@, '\n', w as int);
            } else {
                crate::text::lemma_index_of_is(the_text@, '\n', len as int);
            }
        }
        let col_count: usize = w;
        let row_count: usize = (len + 1) / (w + 1);
        let ghost obs = spec_observed_of(input@);
        let mut field: Vec<StarCell> = Vec::new();
        let mut r_idx: usize = 0;
        while r_idx < row_count
            invariant
                len == the_text@.len(),
                vstd::string::is_ascii(the_text),
                star_text_wf(the_text@),
                obs == spec_observed_of(the_text@),
                w == index_of(the_text@, '\n'),
                col_count == w,
                row_count == (len + 1) / (w + 1),
                r_idx <= row_count,
                field@.len() == r_idx * w,
                forall|j: int|
                    0 <= j < field@.len() ==> #[trigger] field@[j] == (StarCell {
                        observed: obs[j],
                        left_right: 1,
                        top_bottom: 1,
                    }),
            decreases row_count - r_idx,
        {
            let mut k: usize = 0;
            while k < col_count
                invariant
                    len == the_text@.len(),
                    vstd::string::is_ascii(the_text),
                    star_text_wf(the_text@),
                    obs == spec_observed_of(the_text@),
                    w == index_of(the_text@, '\n'),
                    col_count == w,
                    row_count == (len + 1) / (w + 1),
                    r_idx < row_count,
                    k <= col_count,
                    field@.len() == r_idx * w + k,
                    forall|j: int|
                        0 <= j < field@.len() ==> #[trigger] field@[j] == (StarCell {
                            observed: obs[j],
                            left_right: 1,
                            top_bottom: 1,
                        }),
                decreases col_count - k,
            {
                proof {
                    lemma_star_index(the_text@, r_idx as int, k as int);
                }
                let pos: usize = r_idx * (col_count + 1) + k;
                let b: u8 = the_text.get_ascii(pos);
                let c: char = b as char;
                proof {
                    assert(the_text@[pos as int] <= '\u{7f}');
                    assert(c == the_text@[pos as int]);
                    lemma_star_cell(the_text@, r_idx as int, k as int);
                }
                field.push(StarCell::new(c, 1, 1));
                k = k + 1;
            }
            proof {
                assert((r_idx as int + 1) * (w as int) == r_idx as int * (w as int) + w)
                    by (nonlinear_arith);
            }
            r_idx = r_idx + 1;
        }
        proof {
            lemma_star_shape(the_text@);
        }
        let undistorted = StarField { field, cols: col_count, rows: row_count };
        let ghost before = undistorted.field@;
        let distorted = Self::apply_distortion(undistorted);
        proof {
            assert forall|i: int| 0 <= i < distorted.field@.len() implies {
                &&& (#[trigger] distorted.field@[i]).left_right == (if row_empty(
                    distorted.field@,
                    col_count as int,
                    i / (col_count as int),
                ) {
                    1000000int
                } else {
                    1int
                })
                &&& distorted.field@[i].top_bottom == (if !row_empty(
                    distorted.field@,
                    col_count as int,
                    i / (col_count as int),
                ) && col_empty(
                    distorted.field@,
                    col_count as int,
                    row_count as int,
                    i % (col_count as int),
                ) {
                    1000000int
                } else {
                    1int
                })
            } by {
                vstd::arithmetic::div_mod::lemma_mod_bound(i, col_count as int);
                vstd::arithmetic::div_mod::lemma_fundamental_div_mod(i, col_count as int);
                assert(0 <= i / (col_count as int) < row_count as int) by (nonlinear_arith)
                    requires
                        i == col_count as int * (i / (col_count as int)) + (i % (
                        col_count as int)),
                        0 <= i < row_count as int * col_count as int,
                        0 <= i % (col_count as int) < col_count as int,
                        col_count >= 1,
                ;
                assert(row_empty(distorted.field@, col_count as int, i / (col_count as int))
                    == row_empty(before, col_count as int, i / (col_count as int)));
                assert(col_empty(
                    distorted.field@,
                    col_count as int,
                    row_count as int,
                    i % (col_count as int),
                ) == col_empty(before, col_count as int, row_count as int, i % (
                col_count as int)));
            }
        }
        distorted
    }

    /// Accounts for the gravitational distortion: every cell of a row
    /// without a galaxy has its row contribution raised to a million,
    /// and every other cell of a column without a galaxy has its column
    /// contribution raised the same way.
    pub fn apply_distortion(input: StarField) -> (r: StarField)
        requires
            input.wf(),
        ensures
            r.wf(),
            r.cols == input.cols,
            r.rows == input.rows,
            r.field@.len() == input.field@.len(),
            forall|i: int|
                0 <= i < r.field@.len() ==> (#[trigger] r.field@[i]).observed
                    == input.field@[i].observed,
            forall|i: int|
                0 <= i < r.field@.len() ==> (#[trigger] r.field@[i]).left_right == (if row_empty(
                    input.field@,
                    input.cols as int,
                    i / (input.cols as int),
                ) {
                    1000000int
                } else {
                    1int
                }),
            forall|i: int|
                0 <= i < r.field@.len() ==> (#[trigger] r.field@[i]).top_bottom == (if !row_empty(
                    input.field@,
                    input.cols as int,
                    i / (input.cols as int),
                ) && col_empty(
                    input.field@,
                    input.cols as int,
                    input.rows as int,
                    i % (input.cols as int),
                ) {
                    1000000int
                } else {
                    1int
                }),
            forall|t: int|
                0 <= t < r.rows ==> #[trigger] row_empty(r.field@, r.cols as int, t)
                    == row_empty(input.field@, input.cols as int, t),
            forall|t: int|
                0 <= t < r.cols ==> #[trigger] col_empty(r.field@, r.cols as int, r.rows as int, t)
                    == col_empty(input.field@, input.cols as int, input.rows as int, t),
    {
        let cols = input.cols;
        let rows = input.rows;
        // mark the rows and the columns that hold no galaxy
        let mut empty_rows: Vec<bool> = Vec::new();
        let mut ri: usize = 0;
        while ri < rows
            invariant
                input.wf(),
                cols == input.cols,
                rows == input.rows,
                ri <= rows,
                empty_rows@.len() == ri,
                forall|t: int|
                    0 <= t < ri ==> #[trigger] empty_rows@[t] == row_empty(
                        input.field@,
                        cols as int,
                        t,
                    ),
            decreases rows - ri,
        {
            let mut is_empty = true;
            let mut k: usize = 0;
            while k < cols
                invariant
                    input.wf(),
                    cols == input.cols,
                    rows == input.rows,
                    ri < rows,
                    k <= cols,
                    is_empty == (forall|m: int|
                        0 <= m < k ==> (#[trigger] input.field@[ri as int * cols as int
                            + m]).observed != '#'),
                decreases cols - k,
            {
                proof {
                    assert(vstd::std_specs::vec::spec_vec_len(&input.field)
                        == input.field@.len());
                    lemma_cell_index(input.field@.len() as int, rows as int, cols as int,
                        ri as int, k as int);
                }
                if input.field[ri * cols + k].is_galaxy() {
                    is_empty = false;
                }
                k = k + 1;
            }
            empty_rows.push(is_empty);
            ri = ri + 1;
        }
        let mut empty_columns: Vec<bool> = Vec::new();
        let mut ci: usize = 0;
        while ci < cols
            invariant
                input.wf(),
                cols == input.cols,
                rows == input.rows,
                ci <= cols,
                empty_columns@.len() == ci,
                forall|t: int|
                    0 <= t < ci ==> #[trigger] empty_columns@[t] == col_empty(
                        input.field@,
                        cols as int,
                        rows as int,
                        t,
                    ),
            decreases cols - ci,
        {
            let mut is_empty = true;
            let mut rr: usize = 0;
            while rr < rows
                invariant
                    input.wf(),
                    cols == input.cols,
                    rows == input.rows,
                    ci < cols,
                    rr <= rows,
                    is_empty == (forall|m: int|
                        0 <= m < rr ==> (#[trigger] input.field@[m * cols as int
                            + ci as int]).observed != '#'),
                decreases rows - rr,
            {
                proof {
                    assert(vstd::std_specs::vec::spec_vec_len(&input.field)
                        == input.field@.len());
                    lemma_cell_index(input.field@.len() as int, rows as int, cols as int,
                        rr as int, ci as int);
                }
                if input.field[rr * cols + ci].is_galaxy() {
                    is_empty = false;
                }
                rr = rr + 1;
            }
            empty_columns.push(is_empty);
            ci = ci + 1;
        }
        // rebuild the field with the distorted contributions
        let mut extended_field: Vec<StarCell> = Vec::new();
        let mut r2: usize = 0;
        while r2 < rows
            invariant
                input.wf(),
                cols == input.cols,
                rows == input.rows,
                empty_rows@.len() == rows,
                forall|t: int|
                    0 <= t < rows ==> #[trigger] empty_rows@[t] == row_empty(
                        input.field@,
                        cols as int,
                        t,
                    ),
                empty_columns@.len() == cols,
                forall|t: int|
                    0 <= t < cols ==> #[trigger] empty_columns@[t] == col_empty(
                        input.field@,
                        cols as int,
                        rows as int,
                        t,
                    ),
                r2 <= rows,
                extended_field@.len() == r2 * cols,
                forall|j: int|
                    0 <= j < extended_field@.len() ==> #[trigger] extended_field@[j]
                        == (StarCell {
                        observed: input.field@[j].observed,
                        left_right: if row_empty(input.field@, cols as int, j / (cols as int)) {
                            1000000
                        } else {
                            1
                        },
                        top_bottom: if !row_empty(input.field@, cols as int, j / (cols as int))
                            && col_empty(
                            input.field@,
                            cols as int,
                            rows as int,
                            j % (cols as int),
                        ) {
                            1000000
                        } else {
                            1
                        },
                    }),
            decreases rows - r2,
        {
            let mut k2: usize = 0;
            while k2 < cols
                invariant
                    input.wf(),
                    cols == input.cols,
                    rows == input.rows,
                    empty_rows@.len() == rows,
                    forall|t: int|
                        0 <= t < rows ==> #[trigger] empty_rows@[t] == row_empty(
                            input.field@,
                            cols as int,
                            t,
                        ),
                    empty_columns@.len() == cols,
                    forall|t: int|
                        0 <= t < cols ==> #[trigger] empty_columns@[t] == col_empty(
                            input.field@,
                            cols as int,
                            rows as int,
                            t,
                        ),
                    r2 < rows,
                    k2 <= cols,
                    extended_field@.len() == r2 * cols + k2,
                    forall|j: int|
                        0 <= j < extended_field@.len() ==> #[trigger] extended_field@[j]
                            == (StarCell {
                            observed: input.field@[j].observed,
                            left_right: if row_empty(
                                input.field@,
                                cols as int,
                                j / (cols as int),
                            ) {
                                1000000
                            } else {
                                1
                            },
                            top_bottom: if !row_empty(
                                input.field@,
                                cols as int,
                                j / (cols as int),
                            ) && col_empty(
                                input.field@,
                                cols as int,
                                rows as int,
                                j % (cols as int),
                            ) {
                                1000000
                            } else {
                                1
                            },
                        }),
                decreases cols - k2,
            {
                proof {
                    assert(vstd::std_specs::vec::spec_vec_len(&input.field)
                        == input.field@.len());
                    lemma_cell_index(input.field@.len() as int, rows as int, cols as int,
                        r2 as int, k2 as int);
                    vstd::arithmetic::div_mod::lemma_fundamental_div_mod_converse(
                        r2 as int * cols as int + k2 as int,
                        cols as int,
                        r2 as int,
                        k2 as int,
                    );
                }
                let here = input.field[r2 * cols + k2];
                let lr: usize = if empty_rows[r2] {
                    1000000
                } else {
                    1
                };
                let tb: usize = if !empty_rows[r2] && empty_columns[k2] {
                    1000000
                } else {
                    1
                };
                extended_field.push(StarCell::new(here.observed, lr, tb));
                k2 = k2 + 1;
            }
            proof {
                assert((r2 as int + 1) * (cols as int) == r2 as int * (cols as int) + cols)
                    by (nonlinear_arith);
            }
            r2 = r2 + 1;
        }
        let result = StarField { field: extended_field, cols, rows };
        proof {
            assert forall|t: int| 0 <= t < rows implies #[trigger] row_empty(
                result.field@,
                cols as int,
                t,
            ) == row_empty(input.field@, cols as int, t) by {
                lemma_row_empty_same(input.field@, result.field@, cols as int, rows as int, t);
            }
            assert forall|t: int| 0 <= t < cols implies #[trigger] col_empty(
                result.field@,
                cols as int,
                rows as int,
                t,
            ) == col_empty(input.field@, cols as int, rows as int, t) by {
                lemma_col_empty_same(input.field@, result.field@, cols as int, rows as int, t);
            }
        }
        result
    }

    /// Returns the coordinates of all galaxies in the StarField, in
    /// row-major order.
    pub fn galaxies(&self) -> (r: Vec<MapCoord>)
        requires
            self.wf(),
        ensures
            r@ == spec_galaxies_prefix(self.field@, self.cols as int, self.field@.len() as int),
    {
        let mut found: Vec<MapCoord> = Vec::new();
        let mut i: usize = 0;
        while i < self.field.len()
            invariant
                self.wf(),
                i <= self.field@.len(),
                found@ == spec_galaxies_prefix(self.field@, self.cols as int, i as int),
            decreases self.field@.len() - i,
        {
            if self.field[i].is_galaxy() {
                let row: usize = i / self.cols;
                let col: usize = i % self.cols;
                found.push(MapCoord { row, col });
            }
            i = i + 1;
        }
        found
    }

    /// Returns the relative distance between two coordinates on the
    /// StarField: the distorted widths of the rows and columns crossed.
    ///
    /// Will return an Error if one of the points is outside of the
    /// StarField.
    pub fn distance_between(&self, point_one: MapCoord, point_two: MapCoord) -> (r: Result<
        u64,
        StarFieldError,
    >)
        requires
            self.wf(),
            self.rows * self.cols <= usize::MAX,
            ({
                let start_row = if point_one.row <= point_two.row {
                    point_one.row
                } else {
                    point_two.row
                };
                let end_row = if point_one.row <= point_two.row {
                    point_two.row
                } else {
                    point_one.row
                };
                let start_col = if point_one.col <= point_two.col {
                    point_one.col
                } else {
                    point_two.col
                };
                let end_col = if point_one.col <= point_two.col {
                    point_two.col
                } else {
                    point_one.col
                };
                row_span_sum(
                    self.field@,
                    self.cols as int,
                    start_row as int,
                    end_row as int,
                    start_col as int,
                ) + col_span_sum(
                    self.field@,
                    self.cols as int,
                    start_row as int,
                    start_col as int,
                    end_col as int,
                ) <= usize::MAX
            }),
        ensures
            ({
                let start_row = if point_one.row <= point_two.row {
                    point_one.row
                } else {
                    point_two.row
                };
                let end_row = if point_one.row <= point_two.row {
                    point_two.row
                } else {
                    point_one.row
                };
                let start_col = if point_one.col <= point_two.col {
                    point_one.col
                } else {
                    point_two.col
                };
                let end_col = if point_one.col <= point_two.col {
                    point_two.col
                } else {
                    point_one.col
                };
                if self.spec_is_in(point_one) && self.spec_is_in(point_two) {
                    r == Ok::<u64, StarFieldError>(
                        (row_span_sum(
                            self.field@,
                            self.cols as int,
                            start_row as int,
                            end_row as int,
                            start_col as int,
                        ) + col_span_sum(
                            self.field@,
                            self.cols as int,
                            start_row as int,
                            start_col as int,
                            end_col as int,
                        )) as u64,
                    )
                } else {
                    r == Err::<u64, StarFieldError>(StarFieldError::OutOfBounds)
                }
            }),
    {
        if !self.is_in(point_one) || !self.is_in(point_two) {
            return Err(StarFieldError::OutOfBounds);
        }
        let start_row = if point_one.row <= point_two.row {
            point_one.row
        } else {
            point_two.row
        };
        let end_row = if point_one.row <= point_two.row {
            point_two.row
        } else {
            point_one.row
        };
        let start_col = if point_one.col <= point_two.col {
            point_one.col
        } else {
            point_two.col
        };
        let end_col = if point_one.col <= point_two.col {
            point_two.col
        } else {
            point_one.col
        };
        let ghost total_row = row_span_sum(self.field@, self.cols as int, start_row as int,
            end_row as int, start_col as int);
        let ghost total_col = col_span_sum(self.field@, self.cols as int, start_row as int,
            start_col as int, end_col as int);
        proof {
            lemma_row_span_nonneg(self.field@, self.cols as int, start_row as int, end_row as int,
                start_col as int);
            lemma_col_span_nonneg(self.field@, self.cols as int, start_row as int,
                start_col as int, end_col as int);
        }
        let mut total_distance: usize = 0;
        let mut x: usize = start_row;
        while x < end_row
            invariant
                self.wf(),
                self.rows * self.cols <= usize::MAX,
                start_row <= x <= end_row,
                end_row < self.rows,
                start_col < self.cols,
                total_row + total_col <= usize::MAX,
                total_col >= 0,
                total_distance + row_span_sum(self.field@, self.cols as int, x as int,
                    end_row as int, start_col as int) == total_row,
                total_distance <= total_row,
            decreases end_row - x,
        {
            proof {
                assert(vstd::std_specs::vec::spec_vec_len(&self.field) == self.field@.len());
                lemma_cell_index(self.field@.len() as int, self.rows as int, self.cols as int,
                    x as int, start_col as int);
                lemma_row_span_nonneg(self.field@, self.cols as int, x as int + 1, end_row as int,
                    start_col as int);
            }
            total_distance = total_distance + self.field[x * self.cols + start_col].left_right;
            x = x + 1;
        }
        let mut y: usize = start_col;
        while y < end_col
            invariant
                self.wf(),
                self.rows * self.cols <= usize::MAX,
                start_col <= y <= end_col,
                end_col < self.cols,
                start_row < self.rows,
                total_row + total_col <= usize::MAX,
                total_row >= 0,
                total_distance + col_span_sum(self.field@, self.cols as int, start_row as int,
                    y as int, end_col as int) == total_row + total_col,
                total_distance <= total_row + total_col,
            decreases end_col - y,
        {
            proof {
                assert(vstd::std_specs::vec::spec_vec_len(&self.field) == self.field@.len());
                lemma_cell_index(self.field@.len() as int, self.rows as int, self.cols as int,
                    start_row as int, y as int);
                lemma_col_span_nonneg(self.field@, self.cols as int, start_row as int,
                    y as int + 1, end_col as int);
            }
            total_distance = total_distance + self.field[start_row * self.cols + y].top_bottom;
            y = y + 1;
        }
        Ok(total_distance as u64)
    }
}

/// A cell position inside the rectangle lies inside the buffer.
proof fn lemma_cell_index(len: int, rows: int, cols: int, r: int, k: int)
    requires
        len == rows * cols,
        0 <= r < rows,
        0 <= k < cols,
    ensures
        0 <= r * cols + k < len,
{
    assert(r * cols + k < rows * cols) by (nonlinear_arith)
        requires
            0 <= r < rows,
            0 <= k < cols,
    ;
    assert(r * cols + k >= 0) by (nonlinear_arith)
        requires
            0 <= r,
            0 <= k,
            cols >= 1,
    ;
}

/// Row emptiness only reads the observed characters.
proof fn lemma_row_empty_same(a: Seq<StarCell>, b: Seq<StarCell>, cols: int, rows: int, r: int)
    requires
        a.len() == b.len(),
        a.len() == rows * cols,
        0 <= r < rows,
        cols >= 1,
        forall|i: int| 0 <= i < b.len() ==> (#[trigger] b[i]).observed == a[i].observed,
    ensures
        row_empty(b, cols, r) == row_empty(a, cols, r),
{
    assert forall|k: int| 0 <= k < cols implies ((#[trigger] b[r * cols + k]).observed == a[r
        * cols + k].observed) by {
        lemma_cell_index(a.len() as int, rows, cols, r, k);
    }
    if row_empty(a, cols, r) {
        assert forall|k: int| 0 <= k < cols implies (#[trigger] b[r * cols + k]).observed
            != '#' by {
            assert((a[r * cols + k]).observed != '#');
        }
    }
    if row_empty(b, cols, r) {
        assert forall|k: int| 0 <= k < cols implies (#[trigger] a[r * cols + k]).observed
            != '#' by {
            assert((b[r * cols + k]).observed != '#');
        }
    }
}

/// Column emptiness only reads the observed characters.
proof fn lemma_col_empty_same(a: Seq<StarCell>, b: Seq<StarCell>, cols: int, rows: int, k: int)
    requires
        a.len() == b.len(),
        a.len() == rows * cols,
        0 <= k < cols,
        cols >= 1,
        forall|i: int| 0 <= i < b.len() ==> (#[trigger] b[i]).observed == a[i].observed,
    ensures
        col_empty(b, cols, rows, k) == col_empty(a, cols, rows, k),
{
    assert forall|r: int| 0 <= r < rows implies ((#[trigger] b[r * cols + k]).observed == a[r
        * cols + k].observed) by {
        lemma_cell_index(a.len() as int, rows, cols, r, k);
    }
    if col_empty(a, cols, rows, k) {
        assert forall|r: int| 0 <= r < rows implies (#[trigger] b[r * cols + k]).observed
            != '#' by {
            assert((a[r * cols + k]).observed != '#');
        }
    }
    if col_empty(b, cols, rows, k) {
        assert forall|r: int| 0 <= r < rows implies (#[trigger] a[r * cols + k]).observed
            != '#' by {
            assert((b[r * cols + k]).observed != '#');
        }
    }
}

/// Row span totals are never negative.
proof fn lemma_row_span_nonneg(field: Seq<StarCell>, cols: int, start: int, end: int, col: int)
    ensures
        row_span_sum(field, cols, start, end, col) >= 0,
    decreases end - start,
{
    if start < end {
        lemma_row_span_nonneg(field, cols, start + 1, end, col);
    }
}

/// Column span totals are never negative.
proof fn lemma_col_span_nonneg(field: Seq<StarCell>, cols: int, row: int, start: int, end: int)
    ensures
        col_span_sum(field, cols, row, start, end) >= 0,
    decreases end - start,
{
    if start < end {
        lemma_col_span_nonneg(field, cols, row, start + 1, end);
    }
}

/// In a rectangular star text, the flattened position of row `r`,
/// column `k` lies inside the text.
proof fn lemma_star_index(s: Seq<char>, r: int, k: int)
    requires
        star_text_wf(s),
        0 <= r < (s.len() as int + 1) / (index_of(s, '\n') + 1),
        0 <= k < index_of(s, '\n'),
    ensures
        0 <= r * (index_of(s, '\n') + 1) + k < s.len(),
{
    let w = index_of(s, '\n');
    let rows = (s.len() as int + 1) / (w + 1);
    assert((s.len() as int + 1) == rows * (w + 1)) by {
        vstd::arithmetic::div_mod::lemma_fundamental_div_mod(s.len() as int + 1, w + 1);
    }
    assert(r * (w + 1) + k < rows * (w + 1) - 1) by (nonlinear_arith)
        requires
            r < rows,
            0 <= k < w,
            w >= 1,
            0 <= r,
    ;
    assert(r * (w + 1) + k >= 0) by (nonlinear_arith)
        requires
            0 <= r,
            0 <= k,
            w >= 1,
    ;
}

/// The star cell `(r, k)` of a rectangular text is the text character
/// at the flattened position.
proof fn lemma_star_cell(s: Seq<char>, r: int, k: int)
    requires
        star_text_wf(s),
        0 <= r < (s.len() as int + 1) / (index_of(s, '\n') + 1),
        0 <= k < index_of(s, '\n'),
    ensures
        spec_observed_of(s)[r * index_of(s, '\n') + k] == s[r * (index_of(s, '\n') + 1) + k],
{
    let w = index_of(s, '\n');
    let rows = (s.len() as int + 1) / (w + 1);
    assert(0 <= r * w + k < rows * w) by (nonlinear_arith)
        requires
            0 <= r < rows,
            0 <= k < w,
            w >= 1,
    ;
    let i = r * w + k;
    assert(i / w == r && i % w == k) by {
        vstd::arithmetic::div_mod::lemma_fundamental_div_mod_converse(i, w, r, k);
    }
}

/// The cell count of a rectangular star text matches its shape.
proof fn lemma_star_shape(s: Seq<char>)
    requires
        star_text_wf(s),
    ensures
        spec_observed_of(s).len() == ((s.len() as int + 1) / (index_of(s, '\n') + 1)) * index_of(
            s,
            '\n',
        ),
        (s.len() as int + 1) / (index_of(s, '\n') + 1) >= 1,
{
    let w = index_of(s, '\n');
    let rows = (s.len() as int + 1) / (w + 1);
    assert((s.len() as int + 1) == rows * (w + 1)) by {
        vstd::arithmetic::div_mod::lemma_fundamental_div_mod(s.len() as int + 1, w + 1);
    }
    assert(rows >= 1) by (nonlinear_arith)
        requires
            (s.len() as int + 1) == rows * (w + 1),
            s.len() >= 1,
            w >= 1,
    ;
}

} // verus!
