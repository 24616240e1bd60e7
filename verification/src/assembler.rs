use crate::error::IngestError;
use crate::matrix::{
    fits, len_along, matrix_rows, matrix_width, nonzero, part_rows, raw_concatenate,
    raw_from_elem, raw_slice_columns, row_slices, shape_fits, total_along, Matrix,
};
use vstd::prelude::*;

verus! {

/// The rows of the source matrices, one matrix after another.
pub open spec fn stacked(matrices: Seq<Matrix>) -> Seq<Seq<u64>> {
    part_rows(matrices).flatten()
}

/// The z column: for each layer in turn, as many copies of its z as its row
/// count says.
pub open spec fn z_column(z_values: Seq<u64>, row_counts: Seq<usize>) -> Seq<u64>
    decreases row_counts.len(),
{
    if row_counts.len() == 0 {
        Seq::empty()
    } else {
        z_column(z_values, row_counts.drop_last()) + Seq::new(
            row_counts.last() as nat,
            |k: int| z_values[row_counts.len() - 1],
        )
    }
}

/// The row counts, summed.
pub open spec fn count_sum(row_counts: Seq<usize>) -> nat
    decreases row_counts.len(),
{
    if row_counts.len() == 0 {
        0
    } else {
        count_sum(row_counts.drop_last()) + row_counts.last() as nat
    }
}

/// One row of the result: the first two source fields, the z, the next two
/// source fields.
pub open spec fn assembled_row(source: Seq<u64>, z: u64) -> Seq<u64> {
    seq![source[0], source[1], z, source[2], source[3]]
}

/// When the layers can be assembled: there is a layer, the three lists are
/// aligned, every matrix has the four source fields, the z column is as long
/// as the stacked matrices, and the result fits.
pub open spec fn can_assemble(
    matrices: Seq<Matrix>,
    z_values: Seq<u64>,
    row_counts: Seq<usize>,
) -> bool {
    &&& matrices.len() > 0
    &&& z_values.len() == matrices.len()
    &&& row_counts.len() == matrices.len()
    &&& forall|i: int| 0 <= i < matrices.len() ==> matrix_width(#[trigger] matrices[i]) == 4
    &&& count_sum(row_counts) == stacked(matrices).len()
    &&& shape_fits(stacked(matrices).len(), 5)
}

/// The rows of the assembled matrix: each stacked source row with the z of
/// the same position in the z column.
pub open spec fn assembled_rows(
    matrices: Seq<Matrix>,
    z_values: Seq<u64>,
    row_counts: Seq<usize>,
) -> Seq<Seq<u64>> {
    Seq::new(
        stacked(matrices).len(),
        |r: int| assembled_row(stacked(matrices)[r], z_column(z_values, row_counts)[r]),
    )
}

/// A shape that fits still fits with fewer columns.
proof fn lemma_fits_narrower(nrows: nat, fewer: nat, ncols: nat)
    requires
        0 < fewer <= ncols,
        shape_fits(nrows, ncols),
    ensures
        shape_fits(nrows, fewer),
{
    assert(nonzero(nrows) * fewer <= nonzero(nrows) * ncols) by (nonlinear_arith)
        requires
            fewer <= ncols,
    ;
}

/// A shape that fits has no more rows than `isize::MAX`.
proof fn lemma_fits_rows(nrows: nat, ncols: nat)
    requires
        shape_fits(nrows, ncols),
    ensures
        nrows <= isize::MAX,
{
    assert(nrows <= nonzero(nrows) * nonzero(ncols)) by (nonlinear_arith)
        requires
            nonzero(nrows) >= nrows,
            nonzero(ncols) >= 1,
    ;
}

/// Each value as a row of one cell.
pub open spec fn as_column(values: Seq<u64>) -> Seq<Seq<u64>> {
    values.map_values(|v: u64| seq![v])
}

/// The z column is as long as the row counts add up to.
pub proof fn lemma_z_column_len(z_values: Seq<u64>, row_counts: Seq<usize>)
    ensures
        z_column(z_values, row_counts).len() == count_sum(row_counts),
    decreases row_counts.len(),
{
    if row_counts.len() > 0 {
        lemma_z_column_len(z_values, row_counts.drop_last());
    }
}

/// One more part adds its length to the total along an axis.
pub proof fn lemma_total_push(axis: usize, parts: Seq<Matrix>, m: Matrix)
    ensures
        total_along(axis, parts.push(m)) == total_along(axis, parts) + len_along(axis, m),
{
    assert(parts.push(m).drop_last() =~= parts);
}

/// Stacking one more matrix appends its rows and adds its length.
pub proof fn lemma_stack_step(parts: Seq<Matrix>, m: Matrix)
    ensures
        stacked(parts.push(m)) == stacked(parts) + matrix_rows(m),
        total_along(0, parts.push(m)) == total_along(0, parts) + matrix_rows(m).len(),
{
    assert(part_rows(parts.push(m)) =~= part_rows(parts).push(matrix_rows(m)));
    part_rows(parts).lemma_flatten_push(matrix_rows(m));
    lemma_total_push(0, parts, m);
}

/// Three sequences flattened are the three one after another.
proof fn lemma_flatten_three(a: Seq<u64>, b: Seq<u64>, c: Seq<u64>)
    ensures
        seq![a, b, c].flatten() == a + b + c,
{
    let one = seq![a];
    one.lemma_flatten_singleton();
    one.lemma_flatten_push(b);
    one.push(b).lemma_flatten_push(c);
    assert(one.push(b).push(c) =~= seq![a, b, c]);
}

/// The row counts of a prefix add up to no more than all of them.
proof fn lemma_count_sum_prefix(row_counts: Seq<usize>, i: int)
    requires
        0 <= i <= row_counts.len(),
    ensures
        count_sum(row_counts.take(i)) <= count_sum(row_counts),
    decreases row_counts.len(),
{
    if i == row_counts.len() {
        assert(row_counts.take(i) =~= row_counts);
    } else {
        lemma_count_sum_prefix(row_counts.drop_last(), i);
        assert(row_counts.drop_last().take(i) =~= row_counts.take(i));
    }
}

/// One more layer adds its row count and appends its copies of z.
proof fn lemma_count_step(z_values: Seq<u64>, row_counts: Seq<usize>, i: int)
    requires
        0 <= i < row_counts.len(),
    ensures
        count_sum(row_counts.take(i + 1)) == count_sum(row_counts.take(i)) + row_counts[i],
        z_column(z_values, row_counts.take(i + 1)) == z_column(z_values, row_counts.take(i))
            + Seq::new(row_counts[i] as nat, |k: int| z_values[i]),
{
    assert(row_counts.take(i + 1).drop_last() =~= row_counts.take(i));
}

/// The z column does not depend on the z of layers that have no row count.
pub proof fn lemma_z_column_agree(first: Seq<u64>, second: Seq<u64>, row_counts: Seq<usize>)
    requires
        forall|i: int| 0 <= i < row_counts.len() ==> first[i] == second[i],
    ensures
        z_column(first, row_counts) == z_column(second, row_counts),
    decreases row_counts.len(),
{
    if row_counts.len() > 0 {
        lemma_z_column_agree(first, second, row_counts.drop_last());
        assert(Seq::new(row_counts.last() as nat, |k: int| first[row_counts.len() - 1])
            =~= Seq::new(row_counts.last() as nat, |k: int| second[row_counts.len() - 1]));
    }
}

/// The stacked rows are as many as the matrices' lengths add up to.
pub proof fn lemma_stacked_len(parts: Seq<Matrix>)
    ensures
        stacked(parts).len() == total_along(0, parts),
    decreases parts.len(),
{
    if parts.len() == 0 {
        assert(part_rows(parts) =~= Seq::<Seq<Seq<u64>>>::empty());
    } else {
        lemma_stacked_len(parts.drop_last());
        lemma_stack_step(parts.drop_last(), parts.last());
        assert(parts.drop_last().push(parts.last()) =~= parts);
    }
}

/// The stacked rows are as many as the matrices' lengths add up to, and each
/// is a row of a matrix of the common width.
proof fn lemma_stacked(parts: Seq<Matrix>, width: nat)
    requires
        forall|i: int| 0 <= i < parts.len() ==> (#[trigger] parts[i]).rectangular(),
        forall|i: int| 0 <= i < parts.len() ==> matrix_width(#[trigger] parts[i]) == width,
    ensures
        stacked(parts).len() == total_along(0, parts),
        forall|r: int| 0 <= r < stacked(parts).len() ==> (#[trigger] stacked(parts)[r]).len() == width,
    decreases parts.len(),
{
    if parts.len() == 0 {
        assert(part_rows(parts) =~= Seq::<Seq<Seq<u64>>>::empty());
    } else {
        let front = parts.drop_last();
        let m = parts.last();
        lemma_stacked(front, width);
        lemma_stack_step(front, m);
        assert(front.push(m) =~= parts);
        assert(m.rectangular());
    }
}

/// Adds up the rows of the matrices and finds their common width. There is
/// no answer without a matrix, when two widths differ, or when the rows are
/// more than a `usize` counts.
fn measure(matrices: &Vec<Matrix>) -> (r: Option<(usize, usize)>)
    ensures
        r is Some <==> (matrices@.len() > 0 && total_along(0, matrices@) <= usize::MAX
            && forall|i: int|
            0 <= i < matrices@.len() ==> matrix_width(#[trigger] matrices@[i]) == matrix_width(
                matrices@[0],
            )),
        r matches Some((total, width)) ==> total == total_along(0, matrices@) && width
            == matrix_width(matrices@[0]),
        forall|i: int| 0 <= i < matrices@.len() ==> (#[trigger] matrices@[i]).rectangular(),
{
    let n: usize = matrices.len();
    let mut total: usize = 0;
    let mut overflow: bool = false;
    let mut uniform: bool = true;
    let mut width: usize = 0;
    let mut i: usize = 0;
    while i < n
        invariant
            n == matrices@.len(),
            0 <= i <= n,
            forall|k: int| 0 <= k < i ==> (#[trigger] matrices@[k]).rectangular(),
            i > 0 ==> width == matrix_width(matrices@[0]),
            uniform <==> forall|k: int|
                0 <= k < i ==> matrix_width(#[trigger] matrices@[k]) == matrix_width(
                    matrices@[0],
                ),
            overflow ==> total_along(0, matrices@.take(i as int)) > usize::MAX,
            !overflow ==> total == total_along(0, matrices@.take(i as int)),
        decreases n - i,
    {
        let m = &matrices[i];
        let columns: usize = m.ncols();
        let rows: usize = m.nrows();
        if i == 0 {
            width = columns;
        }
        if columns != width {
            uniform = false;
        }
        proof {
            lemma_stack_step(matrices@.take(i as int), matrices@[i as int]);
            assert(matrices@.take(i as int).push(matrices@[i as int]) =~= matrices@.take(i + 1));
        }
        if !overflow {
            match total.checked_add(rows) {
                Some(sum) => {
                    total = sum;
                },
                None => {
                    overflow = true;
                },
            }
        }
        i += 1;
    }
    assert(matrices@.take(n as int) =~= matrices@);
    if n == 0 || overflow || !uniform {
        None
    } else {
        Some((total, width))
    }
}

/// Adds up the row counts, unless the sum is more than a `usize` holds.
fn sum_counts(row_counts: &Vec<usize>) -> (r: Option<usize>)
    ensures
        r is Some <==> count_sum(row_counts@) <= usize::MAX,
        r matches Some(total) ==> total == count_sum(row_counts@),
{
    let n: usize = row_counts.len();
    let mut total: usize = 0;
    let mut overflow: bool = false;
    let mut i: usize = 0;
    while i < n
        invariant
            n == row_counts@.len(),
            0 <= i <= n,
            overflow ==> count_sum(row_counts@.take(i as int)) > usize::MAX,
            !overflow ==> total == count_sum(row_counts@.take(i as int)),
        decreases n - i,
    {
        proof {
            lemma_count_step(Seq::empty(), row_counts@, i as int);
        }
        if !overflow {
            match total.checked_add(row_counts[i]) {
                Some(sum) => {
                    total = sum;
                },
                None => {
                    overflow = true;
                },
            }
        }
        i += 1;
    }
    assert(row_counts@.take(n as int) =~= row_counts@);
    if overflow {
        None
    } else {
        Some(total)
    }
}

/// Builds one column per layer, holding as many copies of the layer's z as
/// its row count says.
fn z_columns(z_values: &Vec<u64>, row_counts: &Vec<usize>) -> (columns: Vec<Matrix>)
    requires
        z_values@.len() == row_counts@.len(),
        count_sum(row_counts@) <= isize::MAX,
    ensures
        columns@.len() == row_counts@.len(),
        forall|i: int| 0 <= i < columns@.len() ==> matrix_width(#[trigger] columns@[i]) == 1,
        forall|i: int| 0 <= i < columns@.len() ==> (#[trigger] columns@[i]).rectangular(),
        stacked(columns@) == as_column(z_column(z_values@, row_counts@)),
        total_along(0, columns@) == count_sum(row_counts@),
{
    let n: usize = row_counts.len();
    let mut columns: Vec<Matrix> = Vec::new();
    let mut i: usize = 0;
    assert(part_rows(columns@) =~= Seq::<Seq<Seq<u64>>>::empty());
    assert(as_column(z_column(z_values@, row_counts@.take(0))) =~= Seq::<Seq<u64>>::empty());
    while i < n
        invariant
            n == row_counts@.len(),
            z_values@.len() == n,
            count_sum(row_counts@) <= isize::MAX,
            0 <= i <= n,
            columns@.len() == i,
            forall|k: int| 0 <= k < i ==> matrix_width(#[trigger] columns@[k]) == 1,
            forall|k: int| 0 <= k < i ==> (#[trigger] columns@[k]).rectangular(),
            stacked(columns@) == as_column(z_column(z_values@, row_counts@.take(i as int))),
            total_along(0, columns@) == count_sum(row_counts@.take(i as int)),
        decreases n - i,
    {
        let count: usize = row_counts[i];
        let z: u64 = z_values[i];
        proof {
            lemma_count_step(z_values@, row_counts@, i as int);
            lemma_count_sum_prefix(row_counts@, i + 1);
        }
        let column = raw_from_elem(count, z);
        proof {
            lemma_stack_step(columns@, column);
            let before = z_column(z_values@, row_counts@.take(i as int));
            let copies = Seq::new(count as nat, |k: int| z);
            assert(copies =~= Seq::new(count as nat, |k: int| z_values@[i as int]));
            assert(as_column(before + copies) =~= as_column(before) + matrix_rows(column));
        }
        columns.push(column);
        i += 1;
    }
    assert(row_counts@.take(n as int) =~= row_counts@);
    columns
}

/// Assembles the layers into one matrix of five columns: the source rows of
/// all matrices in their order, each with the z of its place in the z column
/// between its second and its third field.
///
/// The layers that cannot be assembled give `ShapeMismatch`.
pub fn assemble(
    matrices: &Vec<Matrix>,
    z_values: &Vec<u64>,
    row_counts: &Vec<usize>,
) -> (r: Result<Matrix, IngestError>)
    ensures
        r is Ok <==> can_assemble(matrices@, z_values@, row_counts@),
        r matches Ok(m) ==> matrix_width(m) == 5 && matrix_rows(m) == assembled_rows(
            matrices@,
            z_values@,
            row_counts@,
        ),
        r matches Err(e) ==> e == IngestError::ShapeMismatch,
{
    let n: usize = matrices.len();
    let measured = measure(matrices);
    proof {
        lemma_stacked_len(matrices@);
        if shape_fits(stacked(matrices@).len(), 5) {
            lemma_fits_rows(stacked(matrices@).len(), 5);
        }
        if n > 0 && (forall|i: int|
            0 <= i < matrices@.len() ==> matrix_width(#[trigger] matrices@[i]) == matrix_width(
                matrices@[0],
            )) {
            lemma_stacked(matrices@, matrix_width(matrices@[0]));
        }
    }
    let (total, width) = match measured {
        Some(pair) => pair,
        None => {
            return Err(IngestError::ShapeMismatch);
        },
    };
    if z_values.len() != n || row_counts.len() != n || width != 4 {
        return Err(IngestError::ShapeMismatch);
    }
    if !fits(total, 5) {
        return Err(IngestError::ShapeMismatch);
    }
    proof {
        lemma_fits_narrower(total as nat, 4, 5);
    }
    match sum_counts(row_counts) {
        Some(sum) => {
            if sum != total {
                return Err(IngestError::ShapeMismatch);
            }
        },
        None => {
            return Err(IngestError::ShapeMismatch);
        },
    }
    proof {
        lemma_fits_rows(total as nat, 5);
    }
    let columns = z_columns(z_values, row_counts);
    proof {
        lemma_z_column_len(z_values@, row_counts@);
        lemma_stacked(columns@, 1);
        assert(shape_fits(total as nat, 1)) by (nonlinear_arith)
            requires
                total <= isize::MAX,
        ;
    }
    let source = match raw_concatenate(0, matrices) {
        Ok(m) => m,
        Err(_) => {
            return Err(IngestError::ShapeMismatch);
        },
    };
    let z = match raw_concatenate(0, &columns) {
        Ok(m) => m,
        Err(_) => {
            return Err(IngestError::ShapeMismatch);
        },
    };
    let left = raw_slice_columns(&source, 0, 2);
    let right = raw_slice_columns(&source, 2, 4);
    let ghost left_part = left;
    let ghost z_part = z;
    let ghost right_part = right;
    let mut parts: Vec<Matrix> = Vec::new();
    parts.push(left);
    parts.push(z);
    parts.push(right);
    proof {
        let none = Seq::<Matrix>::empty();
        assert(parts@ =~= none.push(left_part).push(z_part).push(right_part));
        lemma_total_push(1, none, left_part);
        lemma_total_push(1, none.push(left_part), z_part);
        lemma_total_push(1, none.push(left_part).push(z_part), right_part);
        assert(total_along(1, parts@) == 5);
    }
    match raw_concatenate(1, &parts) {
        Ok(m) => {
            proof {
                let wanted = assembled_rows(matrices@, z_values@, row_counts@);
                let zs = z_column(z_values@, row_counts@);
                assert forall|i: int| 0 <= i < wanted.len() implies #[trigger] matrix_rows(m)[i]
                    == wanted[i] by {
                    let row = stacked(matrices@)[i];
                    assert(matrix_rows(z_part)[i] == as_column(zs)[i]);
                    assert(row_slices(parts@, i) =~= seq![
                        row.subrange(0, 2),
                        seq![zs[i]],
                        row.subrange(2, 4),
                    ]);
                    lemma_flatten_three(row.subrange(0, 2), seq![zs[i]], row.subrange(2, 4));
                    assert(row.subrange(0, 2) + seq![zs[i]] + row.subrange(2, 4) =~= assembled_row(
                        row,
                        zs[i],
                    ));
                }
                assert(matrix_rows(m) =~= wanted);
            }
            Ok(m)
        },
        Err(_) => Err(IngestError::ShapeMismatch),
    }
}

} // verus!
