use crate::assembler::{
    assemble, assembled_row, assembled_rows, can_assemble, count_sum, lemma_stack_step,
    lemma_stacked_len, lemma_z_column_agree, lemma_z_column_len, stacked, z_column,
};
use crate::coordinator::{ingest, ingest_error, is_ingested, picked};
use crate::decoder::{
    all_numbers, decode_error, has_four_fields, is_decoding, layer_numbers, values_of, Layer,
    Reading,
};
use crate::error::IngestError;
use crate::locator::{
    check_names, folder_order, has_valid_name, is_arrangement, is_valid_z, is_z_order,
    z_values_of,
};
use crate::number::order_key;
use crate::matrix::{matrix_rows, matrix_width, nonzero, shape_fits, Matrix};
use vstd::prelude::*;

verus! {

/// The z of a layer of valid name.
pub open spec fn layer_z(layer: Layer) -> u64 {
    layer.candidate.z.unwrap()
}

/// The rows that one layer gives to the result: each row of its file with the
/// layer's z between the second and the third field.
pub open spec fn layer_output(layer: Layer) -> Seq<Seq<u64>> {
    layer_numbers(layer).map_values(|row: Seq<u64>| assembled_row(row, layer_z(layer)))
}

/// The rows of the result: those of each layer, layer after layer.
pub open spec fn output_rows(chosen: Seq<Layer>) -> Seq<Seq<u64>> {
    chosen.map_values(|layer: Layer| layer_output(layer)).flatten()
}

/// The rows of all the layers' files, counted.
pub open spec fn row_total(chosen: Seq<Layer>) -> nat
    decreases chosen.len(),
{
    if chosen.len() == 0 {
        0
    } else {
        row_total(chosen.drop_last()) + layer_numbers(chosen.last()).len()
    }
}

/// Whether decoded layers can be assembled: there is a layer, and the
/// result fits.
pub open spec fn shapes_join(chosen: Seq<Layer>) -> bool {
    &&& chosen.len() > 0
    &&& shape_fits(row_total(chosen), 5)
}

/// Why the layers, taken in their order, give no matrix, if they give none:
/// the error of the first layer that cannot be decoded, or else
/// `ShapeMismatch` when the decoded layers cannot be assembled.
pub open spec fn pipeline_error(chosen: Seq<Layer>) -> Option<IngestError> {
    match ingest_error(chosen) {
        Some(e) => Some(e),
        None => if shapes_join(chosen) {
            None
        } else {
            Some(IngestError::ShapeMismatch)
        },
    }
}

/// Whether `r` is what ingesting and assembling the layers in their order
/// gives.
pub open spec fn is_outcome(chosen: Seq<Layer>, r: Result<Matrix, IngestError>) -> bool {
    match r {
        Ok(m) => {
            &&& pipeline_error(chosen) is None
            &&& matrix_width(m) == 5
            &&& matrix_rows(m).len() == row_total(chosen)
            &&& matrix_rows(m) == output_rows(chosen)
        },
        Err(e) => pipeline_error(chosen) == Some(e),
    }
}

/// Whether every layer's name is valid.
pub open spec fn all_names_valid(layers: Seq<Layer>) -> bool {
    forall|i: int| 0 <= i < layers.len() ==> has_valid_name((#[trigger] layers[i]).candidate)
}

/// What reading the stems gave, layer by layer.
pub open spec fn layer_names(layers: Seq<Layer>) -> Seq<Option<u64>> {
    layers.map_values(|layer: Layer| layer.candidate.z)
}

/// The z of every layer.
pub open spec fn layer_z_values(layers: Seq<Layer>) -> Seq<u64> {
    layers.map_values(|layer: Layer| layer_z(layer))
}

/// Whether `r` is what a listed set of layers gives: `MalformedName` when a
/// name is malformed, and else the outcome of the layers in the order of the
/// list.
pub open spec fn is_selected_outcome(layers: Seq<Layer>, r: Result<Matrix, IngestError>) -> bool {
    if all_names_valid(layers) {
        is_outcome(layers, r)
    } else {
        r matches Err(e) && e == IngestError::MalformedName
    }
}

/// Whether `r` is what the layers found in a folder give: `NotFound` when
/// there is none, `MalformedName` when a name is malformed, and else the
/// outcome of the layers in some z-order.
pub open spec fn is_folder_outcome(layers: Seq<Layer>, r: Result<Matrix, IngestError>) -> bool {
    if layers.len() == 0 {
        r matches Err(e) && e == IngestError::NotFound
    } else if all_names_valid(layers) {
        exists|order: Seq<usize>|
            is_z_order(order, layer_z_values(layers)) && is_outcome(
                #[trigger] picked(layers, order),
                r,
            )
    } else {
        r matches Err(e) && e == IngestError::MalformedName
    }
}

/// One more layer appends its rows to the result and adds their number.
pub proof fn lemma_output_step(chosen: Seq<Layer>, layer: Layer)
    ensures
        output_rows(chosen.push(layer)) == output_rows(chosen) + layer_output(layer),
        row_total(chosen.push(layer)) == row_total(chosen) + layer_numbers(layer).len(),
{
    let outputs = chosen.map_values(|l: Layer| layer_output(l));
    assert(chosen.push(layer).map_values(|l: Layer| layer_output(l)) =~= outputs.push(
        layer_output(layer),
    ));
    outputs.lemma_flatten_push(layer_output(layer));
    assert(chosen.push(layer).drop_last() =~= chosen);
}

/// The result has one row for each row of the layers' files.
pub proof fn lemma_output_row_count(chosen: Seq<Layer>)
    ensures
        output_rows(chosen).len() == row_total(chosen),
    decreases chosen.len(),
{
    if chosen.len() == 0 {
        assert(chosen.map_values(|l: Layer| layer_output(l)) =~= Seq::<Seq<Seq<u64>>>::empty());
    } else {
        lemma_output_row_count(chosen.drop_last());
        lemma_output_step(chosen.drop_last(), chosen.last());
        assert(chosen.drop_last().push(chosen.last()) =~= chosen);
    }
}

/// Taking one layer out takes its rows from the count.
pub proof fn lemma_row_total_remove(chosen: Seq<Layer>, k: int)
    requires
        0 <= k < chosen.len(),
    ensures
        row_total(chosen) == row_total(chosen.remove(k)) + layer_numbers(chosen[k]).len(),
    decreases chosen.len(),
{
    if k == chosen.len() - 1 {
        assert(chosen.remove(k) =~= chosen.drop_last());
    } else {
        lemma_row_total_remove(chosen.drop_last(), k);
        assert(chosen.remove(k).drop_last() =~= chosen.drop_last().remove(k));
        assert(chosen.remove(k).last() == chosen.last());
    }
}

/// The layers have as many rows in any arrangement as in the order they were
/// given in.
pub proof fn lemma_row_total_arranged(layers: Seq<Layer>, order: Seq<usize>)
    requires
        layers.len() <= usize::MAX,
        is_arrangement(order, layers.len()),
    ensures
        row_total(picked(layers, order)) == row_total(layers),
    decreases layers.len(),
{
    let n = layers.len();
    if n == 0 {
        assert(picked(layers, order) =~= Seq::<Layer>::empty());
    } else {
        let top = (n - 1) as usize;
        assert(order.contains(top));
        let k = choose|k: int| 0 <= k < order.len() && order[k] == top;
        let rest = order.remove(k);
        assert forall|i: int| 0 <= i < rest.len() implies #[trigger] rest[i] < n - 1 by {
            if i < k {
                assert(rest[i] == order[i]);
            } else {
                assert(rest[i] == order[i + 1]);
            }
        }
        assert(rest.no_duplicates()) by {
            assert forall|a: int, b: int|
                0 <= a < rest.len() && 0 <= b < rest.len() && a != b implies rest[a]
                != rest[b] by {
                let a0 = if a < k {
                    a
                } else {
                    a + 1
                };
                let b0 = if b < k {
                    b
                } else {
                    b + 1
                };
                assert(rest[a] == order[a0]);
                assert(rest[b] == order[b0]);
            }
        }
        assert forall|j: usize| j < n - 1 implies #[trigger] rest.contains(j) by {
            assert(order.contains(j));
            let i = choose|i: int| 0 <= i < order.len() && order[i] == j;
            if i < k {
                assert(rest[i] == j);
            } else {
                assert(rest[i - 1] == j);
            }
        }
        assert(is_arrangement(rest, (n - 1) as nat));
        lemma_row_total_arranged(layers.drop_last(), rest);
        assert(picked(layers, order).remove(k) =~= picked(layers.drop_last(), rest)) by {
            assert forall|i: int| 0 <= i < rest.len() implies picked(layers, order).remove(k)[i]
                == picked(layers.drop_last(), rest)[i] by {
                if i < k {
                    assert(rest[i] == order[i]);
                } else {
                    assert(rest[i] == order[i + 1]);
                }
            }
        }
        lemma_row_total_remove(picked(layers, order), k);
    }
}

/// Listed layers give the same result whenever they are read: two
/// outcomes agree on failure, on the error and on every row.
pub proof fn lemma_selected_is_determined(
    layers: Seq<Layer>,
    first: Result<Matrix, IngestError>,
    second: Result<Matrix, IngestError>,
)
    requires
        is_selected_outcome(layers, first),
        is_selected_outcome(layers, second),
    ensures
        first is Ok <==> second is Ok,
        first is Ok ==> matrix_rows(first->Ok_0) == matrix_rows(second->Ok_0),
        first is Err ==> first->Err_0 == second->Err_0,
{
}

/// Whether no two layers have the same z.
pub open spec fn has_distinct_z(z_values: Seq<u64>) -> bool {
    forall|i: int, j: int|
        0 <= i < z_values.len() && 0 <= j < z_values.len() && i != j ==> order_key(z_values[i])
            != order_key(z_values[j])
}

/// Two z-orders of layers of distinct z agree up to any position.
proof fn lemma_z_order_prefix(
    first: Seq<usize>,
    second: Seq<usize>,
    z_values: Seq<u64>,
    upto: int,
)
    requires
        is_z_order(first, z_values),
        is_z_order(second, z_values),
        has_distinct_z(z_values),
        0 <= upto <= z_values.len(),
    ensures
        forall|t: int| 0 <= t < upto ==> first[t] == second[t],
    decreases upto,
{
    if upto > 0 {
        lemma_z_order_prefix(first, second, z_values, upto - 1);
        let i = upto - 1;
        let a = first[i];
        let b = second[i];
        if a != b {
            assert(second.contains(a));
            let j = choose|j: int| 0 <= j < second.len() && second[j] == a;
            assert(j > i) by {
                if j < i {
                    assert(first[j] == second[j]);
                }
            }
            assert(first.contains(b));
            let k = choose|k: int| 0 <= k < first.len() && first[k] == b;
            assert(k > i) by {
                if k < i {
                    assert(first[k] == second[k]);
                }
            }
            assert(order_key(z_values[second[i] as int]) <= order_key(
                z_values[second[j] as int],
            ));
            assert(order_key(z_values[first[i] as int]) <= order_key(z_values[first[k] as int]));
        }
    }
}

/// Layers of distinct z have one z-order only.
pub proof fn lemma_z_order_is_unique(first: Seq<usize>, second: Seq<usize>, z_values: Seq<u64>)
    requires
        is_z_order(first, z_values),
        is_z_order(second, z_values),
        has_distinct_z(z_values),
    ensures
        first == second,
{
    lemma_z_order_prefix(first, second, z_values, z_values.len() as int);
    assert(first =~= second);
}

/// Layers found in a folder give the same result whenever they are read,
/// as long as no two of them have the same z: two outcomes agree on failure,
/// on the error and on every row.
pub proof fn lemma_folder_is_determined(
    layers: Seq<Layer>,
    first: Result<Matrix, IngestError>,
    second: Result<Matrix, IngestError>,
)
    requires
        is_folder_outcome(layers, first),
        is_folder_outcome(layers, second),
        has_distinct_z(layer_z_values(layers)),
    ensures
        first is Ok <==> second is Ok,
        first is Ok ==> matrix_rows(first->Ok_0) == matrix_rows(second->Ok_0),
        first is Err ==> first->Err_0 == second->Err_0,
{
    if layers.len() > 0 && all_names_valid(layers) {
        let z_values = layer_z_values(layers);
        let a = choose|order: Seq<usize>|
            is_z_order(order, z_values) && is_outcome(#[trigger] picked(layers, order), first);
        let b = choose|order: Seq<usize>|
            is_z_order(order, z_values) && is_outcome(#[trigger] picked(layers, order), second);
        lemma_z_order_is_unique(a, b, z_values);
    }
}

/// Whether a layer is valid: its name is a finite number and its file holds
/// rows of four numbers.
pub open spec fn is_valid_layer(layer: Layer) -> bool {
    &&& has_valid_name(layer.candidate)
    &&& layer.table matches Reading::Rows(rows)
    &&& has_four_fields(values_of(rows@))
    &&& all_numbers(values_of(rows@))
}

/// Whether all the layers are valid.
pub open spec fn all_layers_valid(layers: Seq<Layer>) -> bool {
    forall|i: int| 0 <= i < layers.len() ==> is_valid_layer(#[trigger] layers[i])
}

/// The rows of the layers before position `i`, counted: where the rows of
/// layer `i` begin in the result.
pub open spec fn rows_before(chosen: Seq<Layer>, i: int) -> nat {
    row_total(chosen.take(i))
}

/// Whether no layer has a z below that of a layer before it.
pub open spec fn is_in_z_order(chosen: Seq<Layer>) -> bool {
    forall|i: int, j: int|
        0 <= i <= j < chosen.len() ==> order_key(layer_z(chosen[i])) <= order_key(
            layer_z(chosen[j]),
        )
}

/// Row `r` of layer `i` stands in the result after all the rows of the
/// layers before it, with the z of layer `i` in its third column: where a
/// row stands depends on the positions of the layers alone.
pub proof fn lemma_output_row(chosen: Seq<Layer>, i: int, r: int)
    requires
        0 <= i < chosen.len(),
        0 <= r < layer_numbers(chosen[i]).len(),
    ensures
        rows_before(chosen, i) + r < output_rows(chosen).len(),
        output_rows(chosen)[rows_before(chosen, i) + r] == assembled_row(
            layer_numbers(chosen[i])[r],
            layer_z(chosen[i]),
        ),
    decreases chosen.len(),
{
    let front = chosen.drop_last();
    let last = chosen.last();
    lemma_output_step(front, last);
    assert(front.push(last) =~= chosen);
    lemma_output_row_count(front);
    if i == chosen.len() - 1 {
        assert(chosen.take(i) =~= front);
    } else {
        lemma_output_row(front, i, r);
        assert(front.take(i) =~= chosen.take(i));
        assert(front[i] == chosen[i]);
    }
}

/// Every row of the result has the z of some layer in its third column, and
/// when the layers are in z-order that column never falls.
pub proof fn lemma_z_column_sorted(chosen: Seq<Layer>)
    ensures
        forall|r: int|
            0 <= r < output_rows(chosen).len() ==> exists|i: int|
                0 <= i < chosen.len() && (#[trigger] output_rows(chosen)[r])[2] == layer_z(
                    #[trigger] chosen[i],
                ),
        is_in_z_order(chosen) ==> forall|r: int, s: int|
            0 <= r <= s < output_rows(chosen).len() ==> order_key(
                (#[trigger] output_rows(chosen)[r])[2],
            ) <= order_key((#[trigger] output_rows(chosen)[s])[2]),
    decreases chosen.len(),
{
    if chosen.len() == 0 {
        lemma_output_row_count(chosen);
    } else {
        let front = chosen.drop_last();
        let last = chosen.last();
        lemma_z_column_sorted(front);
        lemma_output_step(front, last);
        assert(front.push(last) =~= chosen);
        let out = output_rows(chosen);
        let before = output_rows(front).len() as int;
        assert forall|r: int| 0 <= r < out.len() implies exists|i: int|
            0 <= i < chosen.len() && (#[trigger] out[r])[2] == layer_z(#[trigger] chosen[i]) by {
            if r < before {
                assert(out[r] == output_rows(front)[r]);
                let i = choose|i: int|
                    0 <= i < front.len() && output_rows(front)[r][2] == layer_z(
                        #[trigger] front[i],
                    );
                assert(chosen[i] == front[i]);
            } else {
                assert(out[r] == layer_output(last)[r - before]);
                assert(chosen[chosen.len() - 1] == last);
            }
        }
        if is_in_z_order(chosen) {
            assert(is_in_z_order(front)) by {
                assert forall|i: int, j: int| 0 <= i <= j < front.len() implies order_key(
                    layer_z(front[i]),
                ) <= order_key(layer_z(front[j])) by {
                    assert(front[i] == chosen[i] && front[j] == chosen[j]);
                }
            }
            assert forall|r: int, s: int| 0 <= r <= s < out.len() implies order_key(
                (#[trigger] out[r])[2],
            ) <= order_key((#[trigger] out[s])[2]) by {
                if s < before {
                    assert(out[r] == output_rows(front)[r]);
                    assert(out[s] == output_rows(front)[s]);
                } else if r < before {
                    assert(out[r] == output_rows(front)[r]);
                    assert(out[s] == layer_output(last)[s - before]);
                    let i = choose|i: int|
                        0 <= i < front.len() && output_rows(front)[r][2] == layer_z(
                            #[trigger] front[i],
                        );
                    assert(chosen[i] == front[i]);
                    assert(chosen[chosen.len() - 1] == last);
                } else {
                    assert(out[r] == layer_output(last)[r - before]);
                    assert(out[s] == layer_output(last)[s - before]);
                }
            }
        }
    }
}

/// Layers that can each be decoded have no first failure.
pub proof fn lemma_no_ingest_error(chosen: Seq<Layer>)
    requires
        forall|i: int| 0 <= i < chosen.len() ==> decode_error(#[trigger] chosen[i]) is None,
    ensures
        ingest_error(chosen) is None,
    decreases chosen.len(),
{
    if chosen.len() > 0 {
        assert forall|i: int| 0 <= i < chosen.drop_last().len() implies decode_error(
            #[trigger] chosen.drop_last()[i],
        ) is None by {
            assert(chosen.drop_last()[i] == chosen[i]);
        }
        lemma_no_ingest_error(chosen.drop_last());
        assert(chosen.last() == chosen[chosen.len() - 1]);
    }
}

/// Valid layers whose result fits give a matrix, in any order they are
/// taken in.
pub proof fn lemma_valid_layers_join(chosen: Seq<Layer>)
    requires
        chosen.len() > 0,
        all_layers_valid(chosen),
        shape_fits(row_total(chosen), 5),
    ensures
        pipeline_error(chosen) is None,
{
    assert forall|i: int| 0 <= i < chosen.len() implies decode_error(#[trigger] chosen[i])
        is None by {
        assert(is_valid_layer(chosen[i]));
        lemma_row_total_remove(chosen, i);
        let count = layer_numbers(chosen[i]).len();
        let total = row_total(chosen);
        assert(nonzero(count) * 4 <= nonzero(total) * 5) by (nonlinear_arith)
            requires
                nonzero(count) <= nonzero(total),
        ;
    }
    lemma_no_ingest_error(chosen);
}

/// A list of one or more valid layers whose result fits is read into a
/// matrix of five columns with one row for each row of the files.
pub proof fn lemma_valid_list_succeeds(layers: Seq<Layer>, r: Result<Matrix, IngestError>)
    requires
        is_selected_outcome(layers, r),
        layers.len() > 0,
        all_layers_valid(layers),
        shape_fits(row_total(layers), 5),
    ensures
        r matches Ok(m) && matrix_width(m) == 5 && matrix_rows(m).len() == row_total(layers),
{
    lemma_valid_layers_join(layers);
    assert forall|i: int| 0 <= i < layers.len() implies has_valid_name(
        (#[trigger] layers[i]).candidate,
    ) by {
        assert(is_valid_layer(layers[i]));
    }
}

/// One or more valid layers found in a folder whose result fits are read
/// into a matrix of five columns with one row for each row of the files.
pub proof fn lemma_valid_folder_succeeds(layers: Seq<Layer>, r: Result<Matrix, IngestError>)
    requires
        is_folder_outcome(layers, r),
        0 < layers.len() <= usize::MAX,
        all_layers_valid(layers),
        shape_fits(row_total(layers), 5),
    ensures
        r matches Ok(m) && matrix_width(m) == 5 && matrix_rows(m).len() == row_total(layers),
{
    assert forall|i: int| 0 <= i < layers.len() implies has_valid_name(
        (#[trigger] layers[i]).candidate,
    ) by {
        assert(is_valid_layer(layers[i]));
    }
    let order = choose|order: Seq<usize>|
        is_z_order(order, layer_z_values(layers)) && is_outcome(
            #[trigger] picked(layers, order),
            r,
        );
    let chosen = picked(layers, order);
    lemma_row_total_arranged(layers, order);
    assert forall|i: int| 0 <= i < chosen.len() implies is_valid_layer(#[trigger] chosen[i]) by {
        assert(is_valid_layer(layers[order[i] as int]));
    }
    lemma_valid_layers_join(chosen);
}

/// In the result of a list, row `r` of the file at position `i` stands
/// after all the rows of the files before it and holds the file's first two
/// fields, the z of the file, and its last two fields.
pub proof fn lemma_listed_row(layers: Seq<Layer>, m: Matrix, i: int, r: int)
    requires
        is_selected_outcome(layers, Ok(m)),
        0 <= i < layers.len(),
        0 <= r < layer_numbers(layers[i]).len(),
    ensures
        rows_before(layers, i) + r < matrix_rows(m).len(),
        matrix_rows(m)[rows_before(layers, i) + r] == assembled_row(
            layer_numbers(layers[i])[r],
            layer_z(layers[i]),
        ),
        matrix_rows(m)[rows_before(layers, i) + r][2] == layer_z(layers[i]),
{
    lemma_output_row(layers, i, r);
}

/// In the result of a folder the third column, which holds the z, never
/// falls from one row to the next.
pub proof fn lemma_folder_rows_sorted(layers: Seq<Layer>, m: Matrix)
    requires
        is_folder_outcome(layers, Ok(m)),
    ensures
        forall|r: int, s: int|
            0 <= r <= s < matrix_rows(m).len() ==> order_key((#[trigger] matrix_rows(m)[r])[2])
                <= order_key((#[trigger] matrix_rows(m)[s])[2]),
{
    let order = choose|order: Seq<usize>|
        is_z_order(order, layer_z_values(layers)) && is_outcome(
            #[trigger] picked(layers, order),
            Ok(m),
        );
    let chosen = picked(layers, order);
    assert(is_in_z_order(chosen)) by {
        assert forall|i: int, j: int| 0 <= i <= j < chosen.len() implies order_key(
            layer_z(chosen[i]),
        ) <= order_key(layer_z(chosen[j])) by {
            assert(layer_z(chosen[i]) == layer_z_values(layers)[order[i] as int]);
            assert(layer_z(chosen[j]) == layer_z_values(layers)[order[j] as int]);
        }
    }
    lemma_z_column_sorted(chosen);
}

/// What the assembler makes of ingested layers is the layers' rows, each
/// with the z of its own layer.
proof fn lemma_ingested_rows(
    chosen: Seq<Layer>,
    matrices: Seq<Matrix>,
    z_values: Seq<u64>,
    row_counts: Seq<usize>,
)
    requires
        is_ingested(chosen, matrices, z_values, row_counts),
    ensures
        stacked(matrices).len() == row_total(chosen),
        count_sum(row_counts) == row_total(chosen),
        assembled_rows(matrices, z_values, row_counts) == output_rows(chosen),
    decreases chosen.len(),
{
    lemma_stacked_len(matrices);
    if chosen.len() == 0 {
        assert(chosen.map_values(|l: Layer| layer_output(l)) =~= Seq::<Seq<Seq<u64>>>::empty());
        assert(assembled_rows(matrices, z_values, row_counts) =~= output_rows(chosen));
    } else {
        let front = chosen.drop_last();
        let front_matrices = matrices.drop_last();
        let front_z = z_values.drop_last();
        let front_counts = row_counts.drop_last();
        let layer = chosen.last();
        let m = matrices.last();
        assert(is_ingested(front, front_matrices, front_z, front_counts)) by {
            assert forall|i: int| 0 <= i < front.len() implies {
                &&& is_decoding(#[trigger] front[i], front_matrices[i])
                &&& front[i].candidate.z == Some(front_z[i])
                &&& front_counts[i] == matrix_rows(front_matrices[i]).len()
            } by {
                assert(front[i] == chosen[i]);
            }
        }
        lemma_ingested_rows(front, front_matrices, front_z, front_counts);
        lemma_stacked_len(front_matrices);
        lemma_stack_step(front_matrices, m);
        assert(front_matrices.push(m) =~= matrices);
        lemma_output_step(front, layer);
        assert(front.push(layer) =~= chosen);
        lemma_z_column_agree(z_values, front_z, front_counts);
        lemma_z_column_len(front_z, front_counts);
        lemma_z_column_len(z_values, row_counts);
        let before = stacked(front_matrices).len() as int;
        let whole = assembled_rows(matrices, z_values, row_counts);
        let first = assembled_rows(front_matrices, front_z, front_counts);
        assert(chosen[chosen.len() - 1] == layer);
        assert(matrix_rows(m) == layer_numbers(layer));
        assert(z_values.last() == layer_z(layer));
        assert(whole.len() == first.len() + layer_output(layer).len());
        assert forall|r: int| 0 <= r < whole.len() implies whole[r] == (first + layer_output(
            layer,
        ))[r] by {
            if r < before {
                assert(stacked(matrices)[r] == stacked(front_matrices)[r]);
            } else {
                assert(stacked(matrices)[r] == matrix_rows(m)[r - before]);
                assert(z_column(z_values, row_counts)[r] == z_values.last());
            }
        }
        assert(whole =~= first + layer_output(layer));
    }
}

/// Ingests the layers at the positions that `order` lists and assembles
/// them.
fn run(layers: &Vec<Layer>, order: &Vec<usize>) -> (r: Result<Matrix, IngestError>)
    requires
        forall|i: int| 0 <= i < order@.len() ==> #[trigger] order@[i] < layers@.len(),
    ensures
        is_outcome(picked(layers@, order@), r),
{
    let ghost chosen = picked(layers@, order@);
    let ingested = match ingest(layers, order) {
        Ok(ingested) => ingested,
        Err(e) => {
            return Err(e);
        },
    };
    proof {
        lemma_ingested_rows(
            chosen,
            ingested.matrices@,
            ingested.z_values@,
            ingested.row_counts@,
        );
        assert(can_assemble(ingested.matrices@, ingested.z_values@, ingested.row_counts@)
            <==> shapes_join(chosen)) by {
            assert forall|i: int| 0 <= i < ingested.matrices@.len() implies matrix_width(
                #[trigger] ingested.matrices@[i],
            ) == 4 by {
                assert(is_decoding(chosen[i], ingested.matrices@[i]));
            }
        }
    }
    assemble(&ingested.matrices, &ingested.z_values, &ingested.row_counts)
}

/// Collects what reading the stems gave, layer by layer.
fn names_of_layers(layers: &Vec<Layer>) -> (names: Vec<Option<u64>>)
    ensures
        names@ == layer_names(layers@),
{
    let n: usize = layers.len();
    let mut names: Vec<Option<u64>> = Vec::new();
    let mut i: usize = 0;
    while i < n
        invariant
            n == layers@.len(),
            0 <= i <= n,
            names@ == layer_names(layers@).take(i as int),
        decreases n - i,
    {
        names.push(layers[i].candidate.z);
        assert(layer_names(layers@).take(i as int).push(layers@[i as int].candidate.z)
            =~= layer_names(layers@).take(i + 1));
        i += 1;
    }
    assert(layer_names(layers@).take(n as int) =~= layer_names(layers@));
    names
}

/// Reads the layers of an explicit list into one matrix of five columns,
/// `[x, y, z, field2, field3]`, its rows in the order of the list.
///
/// A malformed name anywhere in the list gives `MalformedName`. Otherwise
/// the first layer that cannot be decoded gives its error, and layers that
/// cannot be assembled, an empty list among them, give `ShapeMismatch`.
pub fn read_selected_layers(layers: &Vec<Layer>) -> (r: Result<Matrix, IngestError>)
    ensures
        is_selected_outcome(layers@, r),
        r matches Ok(m) ==> matrix_width(m) == 5 && matrix_rows(m).len() == row_total(layers@),
{
    let names = names_of_layers(layers);
    match check_names(&names) {
        Ok(_) => {},
        Err(e) => {
            proof {
                if all_names_valid(layers@) {
                    assert forall|i: int| 0 <= i < names@.len() implies is_valid_z(
                        #[trigger] names@[i],
                    ) by {
                        assert(has_valid_name(layers@[i].candidate));
                    }
                }
            }
            return Err(e);
        },
    }
    proof {
        assert forall|i: int| 0 <= i < layers@.len() implies has_valid_name(
            (#[trigger] layers@[i]).candidate,
        ) by {
            assert(is_valid_z(names@[i]));
        }
    }
    let n: usize = layers.len();
    let mut order: Vec<usize> = Vec::new();
    let mut i: usize = 0;
    while i < n
        invariant
            n == layers@.len(),
            0 <= i <= n,
            order@.len() == i,
            forall|k: int| 0 <= k < i ==> #[trigger] order@[k] == k,
        decreases n - i,
    {
        order.push(i);
        i += 1;
    }
    assert(picked(layers@, order@) =~= layers@);
    run(layers, &order)
}

/// Reads the layers that were found in a folder into one matrix of five
/// columns, `[x, y, z, field2, field3]`, its rows sorted by the z of their
/// layers. Layers of equal z come in an order that is not fixed.
///
/// No layer gives `NotFound`, and a malformed name `MalformedName`.
/// Otherwise the first layer in z-order that cannot be decoded gives its
/// error, and layers that cannot be assembled give `ShapeMismatch`.
pub fn read_layers(layers: &Vec<Layer>) -> (r: Result<Matrix, IngestError>)
    ensures
        is_folder_outcome(layers@, r),
        r matches Ok(m) ==> matrix_width(m) == 5 && matrix_rows(m).len() == row_total(layers@),
{
    let names = names_of_layers(layers);
    let order = match folder_order(&names) {
        Ok(order) => order,
        Err(e) => {
            proof {
                if layers@.len() > 0 && all_names_valid(layers@) {
                    assert forall|i: int| 0 <= i < names@.len() implies is_valid_z(
                        #[trigger] names@[i],
                    ) by {
                        assert(has_valid_name(layers@[i].candidate));
                    }
                }
            }
            return Err(e);
        },
    };
    proof {
        assert forall|i: int| 0 <= i < layers@.len() implies has_valid_name(
            (#[trigger] layers@[i]).candidate,
        ) by {
            assert(is_valid_z(names@[i]));
        }
        assert(z_values_of(names@) =~= layer_z_values(layers@));
    }
    let r = run(layers, &order);
    proof {
        assert(is_z_order(order@, layer_z_values(layers@)) && is_outcome(
            picked(layers@, order@),
            r,
        ));
        lemma_row_total_arranged(layers@, order@);
    }
    r
}

/// Reads one layer into a matrix of five columns,
/// `[x, y, z, field2, field3]`: it is the list of that single layer.
pub fn read_layer(layer: Layer) -> (r: Result<Matrix, IngestError>)
    ensures
        is_selected_outcome(seq![layer], r),
        r matches Ok(m) ==> matrix_width(m) == 5 && matrix_rows(m).len() == layer_numbers(
            layer,
        ).len(),
{
    let mut layers: Vec<Layer> = Vec::new();
    layers.push(layer);
    proof {
        assert(layers@ =~= seq![layer]);
        assert(layers@.drop_last() =~= Seq::<Layer>::empty());
        assert(row_total(layers@) == row_total(layers@.drop_last()) + layer_numbers(
            layers@.last(),
        ).len());
    }
    read_selected_layers(&layers)
}

} // verus!
