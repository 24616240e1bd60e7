use ndarray::ShapeError;
use vstd::prelude::*;

verus! {

/// A dense two-dimensional table of bit patterns, kept in an `ndarray` array.
///
/// Verus does not look inside: what a matrix holds is named by
/// [`matrix_rows`] and [`matrix_width`], and every operation on the array goes
/// through one of the functions below that call `ndarray`.
#[verifier::external_body]
pub struct Matrix {
    inner: ndarray::Array2<u64>,
}

/// `ndarray`'s error for shapes that do not fit together.
#[verifier::external_type_specification]
#[verifier::external_body]
pub struct ExShapeError(ShapeError);

/// The cells of a matrix, row by row.
pub uninterp spec fn matrix_rows(m: Matrix) -> Seq<Seq<u64>>;

/// The number of columns of a matrix, which its rows alone do not tell when
/// there is no row.
pub uninterp spec fn matrix_width(m: Matrix) -> nat;

/// `n`, or 1 in place of 0.
pub open spec fn nonzero(n: nat) -> nat {
    if n == 0 {
        1
    } else {
        n
    }
}

/// Whether `ndarray` accepts a shape: the product of its axis lengths, zeros
/// left out, is at most `isize::MAX`.
pub open spec fn shape_fits(nrows: nat, ncols: nat) -> bool {
    nonzero(nrows) * nonzero(ncols) <= isize::MAX
}

/// The length of a matrix along an axis: its rows for axis 0, its columns
/// otherwise.
pub open spec fn len_along(axis: usize, m: Matrix) -> nat {
    if axis == 0 {
        matrix_rows(m).len()
    } else {
        matrix_width(m)
    }
}

/// The length of a matrix along the axis other than `axis`.
pub open spec fn len_across(axis: usize, m: Matrix) -> nat {
    if axis == 0 {
        matrix_width(m)
    } else {
        matrix_rows(m).len()
    }
}

/// The lengths of all the parts along an axis, summed.
pub open spec fn total_along(axis: usize, parts: Seq<Matrix>) -> nat
    decreases parts.len(),
{
    if parts.len() == 0 {
        0
    } else {
        total_along(axis, parts.drop_last()) + len_along(axis, parts.last())
    }
}

/// The rows of each part.
pub open spec fn part_rows(parts: Seq<Matrix>) -> Seq<Seq<Seq<u64>>> {
    parts.map_values(|m: Matrix| matrix_rows(m))
}

/// Row `i` of each part.
pub open spec fn row_slices(parts: Seq<Matrix>, i: int) -> Seq<Seq<u64>> {
    parts.map_values(|m: Matrix| matrix_rows(m)[i])
}

/// When the parts can be joined along an axis: there is a part, the axis is
/// one of the two, the parts agree across the axis, and the result's shape
/// fits.
pub open spec fn joins(axis: usize, parts: Seq<Matrix>) -> bool {
    &&& parts.len() > 0
    &&& axis < 2
    &&& forall|i: int|
        0 <= i < parts.len() ==> len_across(axis, #[trigger] parts[i]) == len_across(
            axis,
            parts[0],
        )
    &&& if axis == 0 {
        shape_fits(total_along(axis, parts), matrix_width(parts[0]))
    } else {
        shape_fits(matrix_rows(parts[0]).len(), total_along(axis, parts))
    }
}

/// What joining the parts along an axis gives: along axis 0 the rows of the
/// parts one after another, along axis 1 rows made of the parts' rows side by
/// side.
pub open spec fn is_join(axis: usize, parts: Seq<Matrix>, m: Matrix) -> bool {
    if axis == 0 {
        &&& matrix_rows(m) == part_rows(parts).flatten()
        &&& matrix_width(m) == matrix_width(parts[0])
    } else {
        &&& matrix_rows(m).len() == matrix_rows(parts[0]).len()
        &&& matrix_width(m) == total_along(axis, parts)
        &&& forall|i: int|
            0 <= i < matrix_rows(m).len() ==> #[trigger] matrix_rows(m)[i] == row_slices(
                parts,
                i,
            ).flatten()
    }
}

/// A matrix of the given shape whose rows are cut from `cells` one after
/// another.
pub open spec fn is_row_major(m: Matrix, nrows: nat, ncols: nat, cells: Seq<u64>) -> bool {
    &&& matrix_width(m) == ncols
    &&& matrix_rows(m).len() == nrows
    &&& forall|i: int|
        0 <= i < nrows ==> #[trigger] matrix_rows(m)[i] == cells.subrange(
            i * ncols,
            i * ncols + ncols,
        )
}

/// The rows of a table held as vectors.
pub open spec fn table(rows: Seq<Vec<u64>>) -> Seq<Seq<u64>> {
    rows.map_values(|row: Vec<u64>| row@)
}

/// The width of a table: the length of its first row, 0 when it has none.
pub open spec fn table_width(rows: Seq<Seq<u64>>) -> nat {
    if rows.len() == 0 {
        0
    } else {
        rows[0].len()
    }
}

/// Whether every row of a table is as long as the first.
pub open spec fn is_uniform(rows: Seq<Seq<u64>>) -> bool {
    forall|i: int| 0 <= i < rows.len() ==> (#[trigger] rows[i]).len() == table_width(rows)
}

/// Calls `nrows` of `ndarray`: the number of rows.
#[verifier::external_body]
pub(crate) fn raw_nrows(m: &Matrix) -> (n: usize)
    ensures
        n == matrix_rows(*m).len(),
{
    m.inner.nrows()
}

/// Calls `ncols` of `ndarray`: the number of columns, which is also the
/// length of every row.
#[verifier::external_body]
pub(crate) fn raw_ncols(m: &Matrix) -> (n: usize)
    ensures
        n == matrix_width(*m),
        forall|i: int| 0 <= i < matrix_rows(*m).len() ==> (#[trigger] matrix_rows(*m)[i]).len() == n,
{
    m.inner.ncols()
}

/// Indexes the array with `[row, column]`, which panics out of bounds.
#[verifier::external_body]
pub(crate) fn raw_get(m: &Matrix, row: usize, column: usize) -> (cell: u64)
    requires
        row < matrix_rows(*m).len(),
        column < matrix_width(*m),
    ensures
        cell == matrix_rows(*m)[row as int][column as int],
{
    m.inner[[row, column]]
}

/// Calls `Array2::from_shape_vec` with the shape `(nrows, ncols)`: the cells
/// are taken row by row. It fails when the shape does not fit or does not
/// hold as many cells as were given.
#[verifier::external_body]
pub(crate) fn raw_from_shape_vec(nrows: usize, ncols: usize, cells: Vec<u64>) -> (r: Result<Matrix, ShapeError>)
    ensures
        r is Ok <==> (shape_fits(nrows as nat, ncols as nat) && nrows * ncols == cells@.len()),
        r matches Ok(m) ==> is_row_major(m, nrows as nat, ncols as nat, cells@),
{
    ndarray::Array2::from_shape_vec((nrows, ncols), cells).map(|inner| Matrix { inner })
}

/// Calls `Array2::from_elem` with the shape `(nrows, 1)`: one column of
/// copies of `value`. It panics when the shape does not fit.
#[verifier::external_body]
pub(crate) fn raw_from_elem(nrows: usize, value: u64) -> (m: Matrix)
    requires
        nrows <= isize::MAX,
    ensures
        matrix_width(m) == 1,
        matrix_rows(m) == Seq::new(nrows as nat, |i: int| seq![value]),
{
    Matrix { inner: ndarray::Array2::from_elem((nrows, 1), value) }
}

/// Calls `concatenate` of `ndarray` on views of the parts. It adds up the
/// parts' lengths along the axis unchecked, so the sum has to fit in `usize`;
/// it fails exactly when the parts do not join.
#[verifier::external_body]
pub(crate) fn raw_concatenate(axis: usize, parts: &Vec<Matrix>) -> (r: Result<Matrix, ShapeError>)
    requires
        total_along(axis, parts@) <= usize::MAX,
    ensures
        r is Ok <==> joins(axis, parts@),
        r matches Ok(m) ==> is_join(axis, parts@, m),
{
    let views: Vec<ndarray::ArrayView2<u64>> = parts.iter().map(|p| p.inner.view()).collect();
    ndarray::concatenate(ndarray::Axis(axis), &views).map(|inner| Matrix { inner })
}

/// Calls `slice_axis` of `ndarray` along axis 1 with the range `from..to` and
/// copies the view: the columns `from..to` of every row. It panics on a range
/// that is not within the columns.
#[verifier::external_body]
pub(crate) fn raw_slice_columns(m: &Matrix, from: usize, to: usize) -> (s: Matrix)
    requires
        from <= to <= matrix_width(*m),
        to <= isize::MAX,
    ensures
        matrix_width(s) == to - from,
        matrix_rows(s).len() == matrix_rows(*m).len(),
        forall|i: int|
            0 <= i < matrix_rows(s).len() ==> #[trigger] matrix_rows(s)[i] == matrix_rows(
                *m,
            )[i].subrange(from as int, to as int),
{
    let columns = ndarray::Slice::from(from..to);
    Matrix { inner: m.inner.slice_axis(ndarray::Axis(1), columns).to_owned() }
}

/// Tells whether `ndarray` accepts the shape.
pub fn fits(nrows: usize, ncols: usize) -> (r: bool)
    ensures
        r == shape_fits(nrows as nat, ncols as nat),
{
    let a: usize = if nrows == 0 {
        1
    } else {
        nrows
    };
    let b: usize = if ncols == 0 {
        1
    } else {
        ncols
    };
    let limit: usize = isize::MAX as usize;
    match a.checked_mul(b) {
        Some(product) => product <= limit,
        None => false,
    }
}

impl Matrix {
    /// Builds the matrix of the given shape from its cells, taken row by row.
    /// There is none when the shape does not fit or asks for another number
    /// of cells than were given.
    pub fn from_cells(nrows: usize, ncols: usize, cells: Vec<u64>) -> (r: Option<Matrix>)
        ensures
            r is Some <==> (shape_fits(nrows as nat, ncols as nat) && nrows * ncols
                == cells@.len()),
            r matches Some(m) ==> is_row_major(m, nrows as nat, ncols as nat, cells@),
    {
        match raw_from_shape_vec(nrows, ncols, cells) {
            Ok(m) => Some(m),
            Err(_) => None,
        }
    }

    /// Builds the matrix that has the given rows. There is none when the rows
    /// differ in length or the shape does not fit.
    pub fn from_rows(rows: &Vec<Vec<u64>>) -> (r: Option<Matrix>)
        ensures
            r is Some <==> (is_uniform(table(rows@)) && shape_fits(
                rows@.len(),
                table_width(table(rows@)),
            )),
            r matches Some(m) ==> matrix_rows(m) == table(rows@) && matrix_width(m) == table_width(
                table(rows@),
            ),
    {
        let nrows: usize = rows.len();
        let ncols: usize = if nrows == 0 {
            0
        } else {
            rows[0].len()
        };
        let ghost wanted = table(rows@);
        let mut cells: Vec<u64> = Vec::new();
        let mut i: usize = 0;
        while i < nrows
            invariant
                nrows == rows@.len(),
                wanted == table(rows@),
                ncols == table_width(wanted),
                0 <= i <= nrows,
                cells@.len() == i * ncols,
                forall|k: int| 0 <= k < i ==> (#[trigger] wanted[k]).len() == ncols,
                forall|k: int|
                    0 <= k < i ==> #[trigger] wanted[k] == cells@.subrange(
                        k * ncols,
                        k * ncols + ncols,
                    ),
            decreases nrows - i,
        {
            let row = &rows[i];
            if row.len() != ncols {
                assert(wanted[i as int].len() != table_width(wanted));
                return None;
            }
            let ghost before = cells@;
            let mut j: usize = 0;
            while j < ncols
                invariant
                    row@ == wanted[i as int],
                    row@.len() == ncols,
                    0 <= j <= ncols,
                    before.len() == i * ncols,
                    cells@ == before + row@.subrange(0, j as int),
                decreases ncols - j,
            {
                cells.push(row[j]);
                assert(row@.subrange(0, j as int).push(row@[j as int]) == row@.subrange(
                    0,
                    j + 1,
                ));
                j += 1;
            }
            proof {
                assert(row@.subrange(0, ncols as int) == row@);
                assert((i + 1) * ncols == i * ncols + ncols) by (nonlinear_arith);
                assert forall|k: int| 0 <= k < i + 1 implies #[trigger] wanted[k]
                    == cells@.subrange(k * ncols, k * ncols + ncols) by {
                    if k < i {
                        assert(k * ncols + ncols <= i * ncols) by (nonlinear_arith)
                            requires
                                0 <= k < i,
                                0 <= ncols,
                        ;
                        assert(cells@.subrange(k * ncols, k * ncols + ncols) == before.subrange(
                            k * ncols,
                            k * ncols + ncols,
                        ));
                    } else {
                        assert(cells@.subrange(i * ncols, i * ncols + ncols) == row@);
                    }
                }
            }
            i += 1;
        }
        let made = Matrix::from_cells(nrows, ncols, cells);
        proof {
            if made is Some {
                assert(matrix_rows(made->0) == wanted);
            }
        }
        made
    }

    /// Copies the cells out, row by row.
    pub fn to_rows(&self) -> (rows: Vec<Vec<u64>>)
        ensures
            table(rows@) == matrix_rows(*self),
    {
        let nrows: usize = raw_nrows(self);
        let ncols: usize = raw_ncols(self);
        let mut rows: Vec<Vec<u64>> = Vec::new();
        let mut i: usize = 0;
        while i < nrows
            invariant
                nrows == matrix_rows(*self).len(),
                ncols == matrix_width(*self),
                self.rectangular(),
                0 <= i <= nrows,
                rows@.len() == i,
                forall|k: int| 0 <= k < i ==> (#[trigger] rows@[k])@ == matrix_rows(*self)[k],
            decreases nrows - i,
        {
            let mut row: Vec<u64> = Vec::new();
            let mut j: usize = 0;
            while j < ncols
                invariant
                    i < nrows,
                    nrows == matrix_rows(*self).len(),
                    ncols == matrix_width(*self),
                    matrix_rows(*self)[i as int].len() == ncols,
                    0 <= j <= ncols,
                    row@ == matrix_rows(*self)[i as int].subrange(0, j as int),
                decreases ncols - j,
            {
                row.push(raw_get(self, i, j));
                assert(matrix_rows(*self)[i as int].subrange(0, j as int).push(
                    matrix_rows(*self)[i as int][j as int],
                ) == matrix_rows(*self)[i as int].subrange(0, j + 1));
                j += 1;
            }
            assert(row@ == matrix_rows(*self)[i as int]);
            rows.push(row);
            i += 1;
        }
        assert(table(rows@) == matrix_rows(*self));
        rows
    }

    /// Every row is as long as the matrix is wide. This holds of every
    /// matrix that exists at run time; [`Matrix::ncols`] lets a proof learn it.
    pub open spec fn rectangular(&self) -> bool {
        forall|i: int|
            0 <= i < matrix_rows(*self).len() ==> (#[trigger] matrix_rows(*self)[i]).len()
                == matrix_width(*self)
    }

    /// The number of rows.
    pub fn nrows(&self) -> (n: usize)
        ensures
            n == matrix_rows(*self).len(),
    {
        raw_nrows(self)
    }

    /// The number of columns.
    pub fn ncols(&self) -> (n: usize)
        ensures
            n == matrix_width(*self),
            self.rectangular(),
    {
        raw_ncols(self)
    }

    /// The cell at `row` and `column`, if there is one.
    pub fn get(&self, row: usize, column: usize) -> (cell: Option<u64>)
        ensures
            cell == (if row < matrix_rows(*self).len() && column < matrix_width(*self) {
                Some(matrix_rows(*self)[row as int][column as int])
            } else {
                None
            }),
    {
        if row < raw_nrows(self) && column < raw_ncols(self) {
            Some(raw_get(self, row, column))
        } else {
            None
        }
    }
}

} // verus!
