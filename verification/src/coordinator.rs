use crate::decoder::{decode, decode_error, is_decoding, Layer};
use crate::error::IngestError;
use crate::matrix::{matrix_rows, Matrix};
use vstd::prelude::*;

verus! {

/// The decoded layers, in three lists aligned by position: the matrix, the z
/// and the number of rows of each layer.
pub struct Ingested {
    pub matrices: Vec<Matrix>,
    pub z_values: Vec<u64>,
    pub row_counts: Vec<usize>,
}

/// The layers at the positions that `order` lists.
pub open spec fn picked(layers: Seq<Layer>, order: Seq<usize>) -> Seq<Layer> {
    Seq::new(order.len(), |i: int| layers[order[i] as int])
}

/// The error of the first layer that cannot be decoded, if there is one.
pub open spec fn ingest_error(chosen: Seq<Layer>) -> Option<IngestError>
    decreases chosen.len(),
{
    if chosen.len() == 0 {
        None
    } else {
        match ingest_error(chosen.drop_last()) {
            Some(e) => Some(e),
            None => decode_error(chosen.last()),
        }
    }
}

/// Whether the three lists hold the decoded layers, position by position.
pub open spec fn is_ingested(
    chosen: Seq<Layer>,
    matrices: Seq<Matrix>,
    z_values: Seq<u64>,
    row_counts: Seq<usize>,
) -> bool {
    &&& matrices.len() == chosen.len()
    &&& z_values.len() == chosen.len()
    &&& row_counts.len() == chosen.len()
    &&& forall|i: int|
        0 <= i < chosen.len() ==> {
            &&& is_decoding(#[trigger] chosen[i], matrices[i])
            &&& chosen[i].candidate.z == Some(z_values[i])
            &&& row_counts[i] == matrix_rows(matrices[i]).len()
        }
}

/// The first failure among the layers stays the first when more layers
/// follow.
pub proof fn lemma_error_persists(chosen: Seq<Layer>, k: int)
    requires
        0 <= k <= chosen.len(),
        ingest_error(chosen.take(k)) is Some,
    ensures
        ingest_error(chosen) == ingest_error(chosen.take(k)),
    decreases chosen.len(),
{
    if k == chosen.len() {
        assert(chosen.take(k) =~= chosen);
    } else {
        assert(chosen.drop_last().take(k) =~= chosen.take(k));
        lemma_error_persists(chosen.drop_last(), k);
    }
}

/// Decodes the layers at the positions that `order` lists, one after
/// another, into three lists aligned with `order`. The first layer that
/// cannot be decoded ends the call with its error; no later layer is looked
/// at.
pub fn ingest(layers: &Vec<Layer>, order: &Vec<usize>) -> (r: Result<Ingested, IngestError>)
    requires
        forall|i: int| 0 <= i < order@.len() ==> #[trigger] order@[i] < layers@.len(),
    ensures
        r is Ok <==> ingest_error(picked(layers@, order@)) is None,
        r matches Ok(out) ==> is_ingested(
            picked(layers@, order@),
            out.matrices@,
            out.z_values@,
            out.row_counts@,
        ),
        r matches Err(e) ==> ingest_error(picked(layers@, order@)) == Some(e),
{
    let n: usize = order.len();
    let ghost chosen = picked(layers@, order@);
    let mut matrices: Vec<Matrix> = Vec::new();
    let mut z_values: Vec<u64> = Vec::new();
    let mut row_counts: Vec<usize> = Vec::new();
    let mut i: usize = 0;
    while i < n
        invariant
            n == order@.len(),
            chosen == picked(layers@, order@),
            forall|k: int| 0 <= k < order@.len() ==> #[trigger] order@[k] < layers@.len(),
            0 <= i <= n,
            ingest_error(chosen.take(i as int)) is None,
            is_ingested(chosen.take(i as int), matrices@, z_values@, row_counts@),
        decreases n - i,
    {
        proof {
            assert(chosen.take(i + 1).drop_last() =~= chosen.take(i as int));
        }
        match decode(&layers[order[i]]) {
            Ok(decoded) => {
                matrices.push(decoded.0);
                z_values.push(decoded.1);
                row_counts.push(decoded.2);
            },
            Err(e) => {
                proof {
                    lemma_error_persists(chosen, i + 1);
                }
                return Err(e);
            },
        }
        i += 1;
    }
    assert(chosen.take(n as int) =~= chosen);
    Ok(Ingested { matrices, z_values, row_counts })
}

} // verus!
