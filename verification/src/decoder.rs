use crate::error::IngestError;
use crate::locator::{has_valid_name, Candidate};
use crate::matrix::{matrix_rows, matrix_width, shape_fits, table, Matrix};
use crate::number::finite;
use ndarray_csv::{Array2Reader, ReadError};
use vstd::prelude::*;

verus! {

/// `ndarray_csv`'s error for text that is no table.
#[verifier::external_type_specification]
#[verifier::external_body]
pub struct ExReadError(ReadError);

/// The byte that parts the fields of a line: the space.
pub const FIELD_DELIMITER: u8 = 0x20;

/// The number of fields of every line of a layer file.
pub const FIELDS: usize = 4;

/// The table of tokens that the `csv` reader, told which byte parts the
/// fields and whether the first row is a header, finds in a file's bytes and
/// `ndarray_csv` lays out as rows of equal length; nothing where either
/// refuses the text.
pub uninterp spec fn token_table(bytes: Seq<u8>, delimiter: u8, has_headers: bool) -> Option<Seq<Seq<Seq<char>>>>;

/// The tokens of a table held as vectors of strings.
pub open spec fn tokens_of(rows: Seq<Vec<String>>) -> Seq<Seq<Seq<char>>> {
    rows.map_values(|row: Vec<String>| row@.map_values(|token: String| token@))
}

/// Whether all rows of a table of tokens have the same number of tokens.
pub open spec fn has_equal_rows(tokens: Seq<Seq<Seq<char>>>) -> bool {
    forall|i: int| 0 <= i < tokens.len() ==> (#[trigger] tokens[i]).len() == tokens[0].len()
}

/// Calls `deserialize_array2_dynamic` of `ndarray_csv` for strings on a `csv`
/// reader over the bytes, built with the given delimiter and header flag,
/// and copies the rows of the array that comes back. The rows of an array
/// are equally long.
#[verifier::external_body]
pub(crate) fn read_tokens(bytes: &[u8], delimiter: u8, has_headers: bool) -> (r: Result<Vec<Vec<String>>, ReadError>)
    ensures
        r matches Ok(rows) ==> token_table(bytes@, delimiter, has_headers) == Some(tokens_of(rows@)),
        r matches Ok(rows) ==> has_equal_rows(tokens_of(rows@)),
        r is Err ==> token_table(bytes@, delimiter, has_headers) is None,
{
    let mut builder = csv::ReaderBuilder::new();
    let mut reader = builder.has_headers(has_headers).delimiter(delimiter).from_reader(bytes);
    let tokens: ndarray::Array2<String> = reader.deserialize_array2_dynamic()?;
    Ok(tokens.outer_iter().map(|row| row.to_vec()).collect())
}

/// The table of tokens of a layer file: one record per line, no header row,
/// the fields parted by single spaces.
pub open spec fn layer_tokens(bytes: Seq<u8>) -> Option<Seq<Seq<Seq<char>>>> {
    token_table(bytes, FIELD_DELIMITER, false)
}

/// Splits the bytes of a layer file into its rows of tokens, which are
/// equally long. Text that the reader refuses, such as lines of different
/// numbers of fields, gives `Parse`.
pub fn tokenize(bytes: &[u8]) -> (r: Result<Vec<Vec<String>>, IngestError>)
    ensures
        r matches Ok(rows) ==> layer_tokens(bytes@) == Some(tokens_of(rows@)) && has_equal_rows(
            tokens_of(rows@),
        ),
        r matches Err(e) ==> e == IngestError::Parse && layer_tokens(bytes@) is None,
{
    match read_tokens(bytes, FIELD_DELIMITER, false) {
        Ok(rows) => Ok(rows),
        Err(_) => Err(IngestError::Parse),
    }
}

/// What reading one file gave.
pub enum Reading {
    /// The file could not be opened or read.
    Unreadable,
    /// The text of the file is no table of tokens.
    NotATable,
    /// The rows of the file with each token read as a decimal number: its
    /// bit pattern, or nothing when it is no number.
    Rows(Vec<Vec<Option<u64>>>),
}

/// What the adapter gathered of one file: its path with what reading the
/// stem gave, and what reading the file gave.
pub struct Layer {
    pub candidate: Candidate,
    pub table: Reading,
}

/// The rows of a table of read tokens.
pub open spec fn values_of(rows: Seq<Vec<Option<u64>>>) -> Seq<Seq<Option<u64>>> {
    rows.map_values(|row: Vec<Option<u64>>| row@)
}

/// Whether every token of a table is a number.
pub open spec fn all_numbers(values: Seq<Seq<Option<u64>>>) -> bool {
    forall|i: int, j: int|
        0 <= i < values.len() && 0 <= j < values[i].len() ==> (#[trigger] values[i][j]) is Some
}

/// Whether every row of a table has the four fields of a point.
pub open spec fn has_four_fields(values: Seq<Seq<Option<u64>>>) -> bool {
    forall|i: int| 0 <= i < values.len() ==> (#[trigger] values[i]).len() == FIELDS
}

/// The numbers of a table whose tokens all are numbers.
pub open spec fn numbers(values: Seq<Seq<Option<u64>>>) -> Seq<Seq<u64>> {
    values.map_values(|row: Seq<Option<u64>>| row.map_values(|v: Option<u64>| v.unwrap()))
}

/// Whether a table of read tokens is a layer matrix: every row has four
/// fields, every token is a number, and the shape fits.
pub open spec fn decodes(values: Seq<Seq<Option<u64>>>) -> bool {
    &&& has_four_fields(values)
    &&& all_numbers(values)
    &&& shape_fits(values.len(), FIELDS as nat)
}

/// The rows of numbers that a layer's file holds.
pub open spec fn layer_numbers(layer: Layer) -> Seq<Seq<u64>> {
    match layer.table {
        Reading::Rows(rows) => numbers(values_of(rows@)),
        _ => Seq::empty(),
    }
}

/// Why a layer cannot be decoded, if it cannot: its name is malformed, or
/// else its file could not be read (`Io`), or else what was read is no
/// matrix of four columns of numbers (`Parse`).
pub open spec fn decode_error(layer: Layer) -> Option<IngestError> {
    if !has_valid_name(layer.candidate) {
        Some(IngestError::MalformedName)
    } else {
        match layer.table {
            Reading::Unreadable => Some(IngestError::Io),
            Reading::NotATable => Some(IngestError::Parse),
            Reading::Rows(rows) => if decodes(values_of(rows@)) {
                None
            } else {
                Some(IngestError::Parse)
            },
        }
    }
}

/// Whether `m` is the matrix of a layer's numbers: its rows, in four
/// columns, also when the file has no row.
pub open spec fn is_decoding(layer: Layer, m: Matrix) -> bool {
    &&& matrix_rows(m) == layer_numbers(layer)
    &&& matrix_width(m) == FIELDS
}

/// Decodes one layer: the matrix of its numbers, its z and its number of
/// rows. A line that has not four fields, or a token that is no number,
/// gives `Parse`.
#[verifier::loop_isolation(false)]
pub fn decode(layer: &Layer) -> (r: Result<(Matrix, u64, usize), IngestError>)
    ensures
        r is Ok <==> decode_error(*layer) is None,
        r matches Ok(d) ==> is_decoding(*layer, d.0) && layer.candidate.z == Some(d.1) && d.2
            == matrix_rows(d.0).len(),
        r matches Err(e) ==> decode_error(*layer) == Some(e),
{
    let z: u64 = match layer.candidate.z {
        Some(bits) => bits,
        None => {
            return Err(IngestError::MalformedName);
        },
    };
    if !finite(z) {
        return Err(IngestError::MalformedName);
    }
    let rows = match &layer.table {
        Reading::Rows(rows) => rows,
        Reading::Unreadable => {
            return Err(IngestError::Io);
        },
        Reading::NotATable => {
            return Err(IngestError::Parse);
        },
    };
    let ghost values = values_of(rows@);
    let n: usize = rows.len();
    let mut plain: Vec<Vec<u64>> = Vec::new();
    let mut i: usize = 0;
    while i < n
        invariant
            n == rows@.len(),
            values == values_of(rows@),
            0 <= i <= n,
            plain@.len() == i,
            forall|k: int| 0 <= k < i ==> (#[trigger] values[k]).len() == FIELDS,
            forall|k: int, j: int|
                0 <= k < i && 0 <= j < values[k].len() ==> (#[trigger] values[k][j]) is Some,
            forall|k: int| 0 <= k < i ==> (#[trigger] plain@[k])@ == numbers(values)[k],
        decreases n - i,
    {
        let row = &rows[i];
        let width: usize = row.len();
        if width != FIELDS {
            assert(values[i as int].len() != FIELDS);
            return Err(IngestError::Parse);
        }
        let mut cells: Vec<u64> = Vec::new();
        let mut j: usize = 0;
        while j < width
            invariant
                i < n,
                row@ == values[i as int],
                width == row@.len(),
                0 <= j <= width,
                cells@.len() == j,
                forall|c: int| 0 <= c < j ==> (#[trigger] row@[c]) is Some,
                forall|c: int| 0 <= c < j ==> #[trigger] cells@[c] == row@[c].unwrap(),
            decreases width - j,
        {
            match row[j] {
                Some(bits) => {
                    cells.push(bits);
                },
                None => {
                    assert(values[i as int][j as int] is None);
                    return Err(IngestError::Parse);
                },
            }
            j += 1;
        }
        assert(cells@ =~= numbers(values)[i as int]);
        plain.push(cells);
        i += 1;
    }
    assert(table(plain@) =~= numbers(values));
    let made = if n == 0 {
        Matrix::from_cells(0, FIELDS, Vec::new())
    } else {
        Matrix::from_rows(&plain)
    };
    match made {
        Some(m) => {
            assert(matrix_rows(m) =~= numbers(values));
            Ok((m, z, n))
        },
        None => Err(IngestError::Parse),
    }
}

} // verus!
