use read_layers::coordinator::ingest;
use read_layers::decoder::{decode, tokenize, Layer, Reading};
use read_layers::error::IngestError;
use read_layers::locator::{file_stem, Candidate};
use read_layers::matrix::Matrix;
use read_layers::{read_layer, read_layers, read_selected_layers};

fn parse(token: &str) -> Option<u64> {
    token.parse::<f64>().ok().map(f64::to_bits)
}

fn layer(path: &str, text: &str) -> Layer {
    let table = match tokenize(text.as_bytes()) {
        Ok(rows) => {
            Reading::Rows(rows.iter().map(|row| row.iter().map(|t| parse(t)).collect()).collect())
        }
        Err(_) => Reading::NotATable,
    };
    Layer { candidate: Candidate { path: path.to_string(), z: parse(&file_stem(path)) }, table }
}

fn unreadable(path: &str) -> Layer {
    Layer {
        candidate: Candidate { path: path.to_string(), z: parse(&file_stem(path)) },
        table: Reading::Unreadable,
    }
}

fn numbers(m: &Matrix) -> Vec<Vec<f64>> {
    m.to_rows().iter().map(|row| row.iter().map(|v| f64::from_bits(*v)).collect()).collect()
}

fn strings(rows: &[&[&str]]) -> Vec<Vec<String>> {
    rows.iter().map(|row| row.iter().map(|t| t.to_string()).collect()).collect()
}

#[test]
fn tokenize_splits_lines_and_fields() {
    let rows = tokenize(b"1 2 3 4\n5.5 -6 7e2 8\n").unwrap();
    assert_eq!(rows, strings(&[&["1", "2", "3", "4"], &["5.5", "-6", "7e2", "8"]]));
}

#[test]
fn tokenize_takes_a_last_line_without_newline() {
    let rows = tokenize(b"1 2\n3 4").unwrap();
    assert_eq!(rows, strings(&[&["1", "2"], &["3", "4"]]));
}

#[test]
fn tokenize_of_no_text_is_no_row() {
    assert_eq!(tokenize(b"").unwrap(), Vec::<Vec<String>>::new());
}

#[test]
fn tokenize_keeps_the_empty_field_of_a_double_space() {
    let rows = tokenize(b"1  2\n").unwrap();
    assert_eq!(rows, strings(&[&["1", "", "2"]]));
}

#[test]
fn tokenize_rejects_lines_of_different_numbers_of_fields() {
    assert_eq!(tokenize(b"1 2 3 4\n5 6 7\n9 10 11 12\n"), Err(IngestError::Parse));
}

#[test]
fn tokenize_rejects_text_that_is_not_utf8() {
    assert_eq!(tokenize(&[0x31, 0x20, 0xff, 0xfe, 0x0a]), Err(IngestError::Parse));
}

#[test]
fn decode_gives_matrix_z_and_row_count() {
    let l = layer("scans/2.5.pcd", "1 2 3 4\n5 6 7 8\n");
    let (m, z, count) = decode(&l).ok().unwrap();
    assert_eq!(numbers(&m), vec![vec![1.0, 2.0, 3.0, 4.0], vec![5.0, 6.0, 7.0, 8.0]]);
    assert_eq!(m.ncols(), 4);
    assert_eq!(f64::from_bits(z), 2.5);
    assert_eq!(count, 2);
}

#[test]
fn decode_of_a_file_without_rows_has_four_columns() {
    let l = layer("1.pcd", "");
    let (m, _, count) = decode(&l).ok().unwrap();
    assert_eq!(m.nrows(), 0);
    assert_eq!(m.ncols(), 4);
    assert_eq!(count, 0);
}

#[test]
fn decode_rejects_a_file_whose_lines_all_have_three_fields() {
    let l = layer("d/5.0.pcd", "1 2 3\n4 5 6\n");
    assert_eq!(decode(&l).err(), Some(IngestError::Parse));
}

#[test]
fn decode_rejects_a_file_whose_lines_all_have_five_fields() {
    let l = layer("1.pcd", "1 2 3 4 5\n6 7 8 9 10\n");
    assert_eq!(decode(&l).err(), Some(IngestError::Parse));
}

#[test]
fn decode_rejects_text_that_is_no_table() {
    let l = Layer {
        candidate: Candidate { path: "1.pcd".to_string(), z: parse("1") },
        table: Reading::NotATable,
    };
    assert_eq!(decode(&l).err(), Some(IngestError::Parse));
}

#[test]
fn decode_rejects_a_token_that_is_no_number() {
    let l = layer("1.pcd", "1 2 3 4\n5 six 7 8\n");
    assert_eq!(decode(&l).err(), Some(IngestError::Parse));
}

#[test]
fn decode_rejects_a_line_with_three_fields() {
    let l = layer("1.pcd", "1 2 3 4\n5 6 7\n");
    assert_eq!(decode(&l).err(), Some(IngestError::Parse));
}

#[test]
fn decode_rejects_rows_of_different_lengths() {
    let l = Layer {
        candidate: Candidate { path: "1.pcd".to_string(), z: parse("1") },
        table: Reading::Rows(vec![
            vec![parse("1"), parse("2"), parse("3"), parse("4")],
            vec![parse("5"), parse("6"), parse("7")],
        ]),
    };
    assert_eq!(decode(&l).err(), Some(IngestError::Parse));
}

#[test]
fn decode_hands_on_the_error_of_the_reading() {
    assert_eq!(decode(&unreadable("1.pcd")).err(), Some(IngestError::Io));
}

#[test]
fn decode_looks_at_the_name_first() {
    assert_eq!(decode(&unreadable("first.pcd")).err(), Some(IngestError::MalformedName));
    let l = layer("first.pcd", "1 2 3 4\n");
    assert_eq!(decode(&l).err(), Some(IngestError::MalformedName));
}

#[test]
fn ingest_fills_the_lists_in_the_given_order() {
    let layers = vec![
        layer("7.pcd", "1 1 1 1\n"),
        layer("8.pcd", "2 2 2 2\n3 3 3 3\n"),
        layer("9.pcd", "4 4 4 4\n5 5 5 5\n6 6 6 6\n"),
    ];
    let out = ingest(&layers, &vec![2, 0, 1]).ok().unwrap();
    assert_eq!(out.row_counts, vec![3, 1, 2]);
    let zs: Vec<f64> = out.z_values.iter().map(|z| f64::from_bits(*z)).collect();
    assert_eq!(zs, vec![9.0, 7.0, 8.0]);
    assert_eq!(out.matrices.len(), 3);
    assert_eq!(numbers(&out.matrices[1]), vec![vec![1.0, 1.0, 1.0, 1.0]]);
    assert_eq!(out.matrices[0].nrows(), 3);
}

#[test]
fn ingest_of_no_position_is_three_empty_lists() {
    let layers = vec![layer("7.pcd", "1 1 1 1\n")];
    let out = ingest(&layers, &vec![]).ok().unwrap();
    assert!(out.matrices.is_empty() && out.z_values.is_empty() && out.row_counts.is_empty());
}

#[test]
fn ingest_fails_with_the_first_error_in_order() {
    let layers = vec![layer("1.pcd", "1 2 x 4\n"), unreadable("2.pcd"), layer("3.pcd", "1 2 3 4\n")];
    assert_eq!(ingest(&layers, &vec![0, 1, 2]).err(), Some(IngestError::Parse));
    assert_eq!(ingest(&layers, &vec![2, 1, 0]).err(), Some(IngestError::Io));
    assert_eq!(ingest(&layers, &vec![2]).err(), None);
}

#[test]
fn single_layer_of_three_rows_has_its_z_in_the_third_column() {
    let l = layer("scan/5.0.pcd", "1 2 3 4\n5 6 7 8\n9 10 11 12\n");
    let m = read_layer(l).unwrap();
    assert_eq!(m.nrows(), 3);
    assert_eq!(m.ncols(), 5);
    for row in 0..3 {
        assert_eq!(m.get(row, 2), Some(5.0f64.to_bits()));
    }
    assert_eq!(
        numbers(&m),
        vec![
            vec![1.0, 2.0, 5.0, 3.0, 4.0],
            vec![5.0, 6.0, 5.0, 7.0, 8.0],
            vec![9.0, 10.0, 5.0, 11.0, 12.0],
        ]
    );
}

#[test]
fn single_layer_errors() {
    assert_eq!(read_layer(layer("top.pcd", "1 2 3 4\n")).err(), Some(IngestError::MalformedName));
    assert_eq!(read_layer(unreadable("1.pcd")).err(), Some(IngestError::Io));
    assert_eq!(read_layer(layer("1.pcd", "1 2 3 4\n1 2 3\n")).err(), Some(IngestError::Parse));
    assert_eq!(read_layer(layer("1.pcd", "1 2 3\n")).err(), Some(IngestError::Parse));
    assert_eq!(read_layer(layer("1.pcd", "1 2 3 4 5\n")).err(), Some(IngestError::Parse));
}

#[test]
fn single_layer_whose_lines_all_have_three_fields_is_a_parse_error() {
    let r = read_layer(layer("d/5.0.pcd", "1 2 3\n4 5 6\n"));
    assert_eq!(r.err(), Some(IngestError::Parse));
}

#[test]
fn single_layer_without_rows_has_five_columns() {
    let m = read_layer(layer("1.pcd", "")).unwrap();
    assert_eq!((m.nrows(), m.ncols()), (0, 5));
}

#[test]
fn listed_layers_carry_their_own_z_whatever_its_order() {
    let layers = vec![
        layer("a/2.pcd", "1 1 1 1\n2 2 2 2\n"),
        layer("b/-1.pcd", "3 3 3 3\n"),
        layer("c/2.pcd", "4 4 4 4\n5 5 5 5\n6 6 6 6\n"),
        layer("d/0.5.pcd", "7 7 7 7\n"),
    ];
    let m = read_selected_layers(&layers).unwrap();
    let z: Vec<f64> = numbers(&m).iter().map(|row| row[2]).collect();
    assert_eq!(z, vec![2.0, 2.0, -1.0, 2.0, 2.0, 2.0, 0.5]);
    let first: Vec<f64> = numbers(&m).iter().map(|row| row[0]).collect();
    assert_eq!(first, vec![1.0, 2.0, 3.0, 4.0, 5.0, 6.0, 7.0]);
}

#[test]
fn listed_layers_keep_the_order_of_the_list() {
    let layers = vec![
        layer("d/3.pcd", "30 31 32 33\n"),
        layer("d/1.pcd", "10 11 12 13\n14 15 16 17\n"),
        layer("d/2.pcd", "20 21 22 23\n"),
    ];
    let m = read_selected_layers(&layers).unwrap();
    assert_eq!(
        numbers(&m),
        vec![
            vec![30.0, 31.0, 3.0, 32.0, 33.0],
            vec![10.0, 11.0, 1.0, 12.0, 13.0],
            vec![14.0, 15.0, 1.0, 16.0, 17.0],
            vec![20.0, 21.0, 2.0, 22.0, 23.0],
        ]
    );
}

#[test]
fn folder_layers_are_sorted_by_z() {
    let layers = vec![
        layer("d/3.pcd", "30 31 32 33\n"),
        layer("d/-1.5.pcd", "10 11 12 13\n14 15 16 17\n"),
        layer("d/2.pcd", "20 21 22 23\n"),
    ];
    let m = read_layers(&layers).unwrap();
    assert_eq!(
        numbers(&m),
        vec![
            vec![10.0, 11.0, -1.5, 12.0, 13.0],
            vec![14.0, 15.0, -1.5, 16.0, 17.0],
            vec![20.0, 21.0, 2.0, 22.0, 23.0],
            vec![30.0, 31.0, 3.0, 32.0, 33.0],
        ]
    );
}

#[test]
fn result_has_a_row_for_each_row_of_the_files() {
    let layers = vec![
        layer("4.pcd", "1 2 3 4\n"),
        layer("1.pcd", "1 2 3 4\n1 2 3 4\n1 2 3 4\n"),
        layer("3.pcd", "1 2 3 4\n1 2 3 4\n"),
    ];
    let found = read_layers(&layers).unwrap();
    assert_eq!((found.nrows(), found.ncols()), (6, 5));
    let listed = read_selected_layers(&layers).unwrap();
    assert_eq!((listed.nrows(), listed.ncols()), (6, 5));
}

#[test]
fn reading_again_gives_the_same_rows() {
    let layers: Vec<Layer> = (0..40)
        .map(|i| {
            let z = (i * 17) % 40;
            layer(&format!("d/{}.pcd", z), &format!("{} 0 1 2\n{} 3 4 5\n", i, i))
        })
        .collect();
    let first = read_layers(&layers).unwrap().to_rows();
    for _ in 0..5 {
        assert_eq!(read_layers(&layers).unwrap().to_rows(), first);
    }
    let z: Vec<f64> = first.iter().map(|row| f64::from_bits(row[2])).collect();
    let mut sorted = z.clone();
    sorted.sort_by(|a, b| a.partial_cmp(b).unwrap());
    assert_eq!(z, sorted);
    let listed = read_selected_layers(&layers).unwrap().to_rows();
    assert_eq!(read_selected_layers(&layers).unwrap().to_rows(), listed);
}

#[test]
fn folder_without_layers_is_not_found() {
    assert_eq!(read_layers(&vec![]).err(), Some(IngestError::NotFound));
}

#[test]
fn list_without_layers_does_not_assemble() {
    assert_eq!(read_selected_layers(&vec![]).err(), Some(IngestError::ShapeMismatch));
}

#[test]
fn malformed_name_comes_before_any_reading_error() {
    let layers = vec![unreadable("1.pcd"), layer("name.pcd", "1 2 3 4\n")];
    assert_eq!(read_layers(&layers).err(), Some(IngestError::MalformedName));
    assert_eq!(read_selected_layers(&layers).err(), Some(IngestError::MalformedName));
}

#[test]
fn first_failing_layer_in_order_gives_the_error() {
    let layers = vec![layer("2.pcd", "1 2 3 four\n"), unreadable("1.pcd")];
    assert_eq!(read_selected_layers(&layers).err(), Some(IngestError::Parse));
    assert_eq!(read_layers(&layers).err(), Some(IngestError::Io));
}

#[test]
fn a_file_of_another_width_among_others_is_a_parse_error() {
    let layers = vec![layer("1.pcd", "1 2 3 4\n"), layer("2.pcd", "1 2 3 4 5\n")];
    assert_eq!(read_layers(&layers).err(), Some(IngestError::Parse));
    assert_eq!(read_selected_layers(&layers).err(), Some(IngestError::Parse));
}

#[test]
fn an_empty_file_among_others_adds_no_row() {
    let layers = vec![layer("2.pcd", ""), layer("1.pcd", "1 2 3 4\n"), layer("3.pcd", "")];
    let m = read_layers(&layers).unwrap();
    assert_eq!(numbers(&m), vec![vec![1.0, 2.0, 1.0, 3.0, 4.0]]);
}
