use rsmtxmkt::load_matrix_market;
use rsmtxmkt::MmError;
use rsmtxmkt::SparseMatrixCSR;

fn val(bytes: &[u8]) -> f64 {
    std::str::from_utf8(bytes).unwrap().parse::<f64>().unwrap()
}

fn vals(m: &SparseMatrixCSR) -> Vec<f64> {
    m.values.iter().map(|t| val(t)).collect()
}

#[test]
fn example_three_by_three() {
    let input = b"%%MatrixMarket matrix coordinate real general\n3 3 4\n1 1 10.0\n2 2 20.0\n3 3 30.0\n1 3 5.0\n";
    let m = load_matrix_market(input, 1).unwrap();
    assert_eq!(m.row_count, 3);
    assert_eq!(m.col_count, 3);
    assert_eq!(m.row_pointer, vec![0, 2, 3, 4]);
    assert_eq!(m.column_index, vec![0, 2, 1, 2]);
    assert_eq!(vals(&m), vec![10.0, 5.0, 20.0, 30.0]);
}

#[test]
fn example_with_many_workers() {
    let input = b"%%MatrixMarket matrix coordinate real general\n3 3 4\n1 1 10.0\n2 2 20.0\n3 3 30.0\n1 3 5.0\n";
    let m = load_matrix_market(input, 4).unwrap();
    assert_eq!(m.row_pointer, vec![0, 2, 3, 4]);
    assert_eq!(m.column_index, vec![0, 2, 1, 2]);
    assert_eq!(vals(&m), vec![10.0, 5.0, 20.0, 30.0]);
}

#[test]
fn chunking_invariance_across_worker_counts() {
    let mut body = String::new();
    for r in 1..=9 {
        for c in 1..=9 {
            body.push_str(&format!("{} {} {}.{}\n", r, c, r * 10 + c, c));
        }
    }
    let input = format!("%%MatrixMarket matrix coordinate real general\n9 9 81\n{}", body);
    let one = load_matrix_market(input.as_bytes(), 1).unwrap();
    for workers in 2..=17 {
        let many = load_matrix_market(input.as_bytes(), workers).unwrap();
        assert_eq!(one.row_pointer, many.row_pointer);
        assert_eq!(one.column_index, many.column_index);
        assert_eq!(one.values, many.values);
    }
}

#[test]
fn line_on_exact_chunk_boundary() {
    // With two workers the even cut lands exactly on the start of the
    // second line: each line is 13 bytes, the body 26, so the cut at 13
    // sits right after the first newline.
    let body = b"1 1 100.0000\n2 2 200.0000\n";
    assert_eq!(body.len() % 2, 0);
    let input = [
        b"%%MatrixMarket matrix coordinate real general\n2 2 2\n".as_slice(),
        body.as_slice(),
    ]
    .concat();
    let one = load_matrix_market(&input, 1).unwrap();
    let two = load_matrix_market(&input, 2).unwrap();
    assert_eq!(one.row_pointer, vec![0, 1, 2]);
    assert_eq!(one.row_pointer, two.row_pointer);
    assert_eq!(one.column_index, two.column_index);
    assert_eq!(one.values, two.values);
}

#[test]
fn unsupported_banner_array_format() {
    let input = b"%%MatrixMarket matrix array real\n3 3 4\n";
    match load_matrix_market(input, 1) {
        Err(MmError::UnsupportedFormat(b)) => {
            assert_eq!(b, b"%%MatrixMarket matrix array real".to_vec());
        }
        _ => panic!("expected UnsupportedFormat"),
    }
}

#[test]
fn missing_banner_marker() {
    let input = b"% not a matrix market file\n3 3 4\n";
    assert!(matches!(load_matrix_market(input, 1), Err(MmError::InvalidBanner)));
}

#[test]
fn dimension_line_with_two_tokens() {
    let input = b"%%MatrixMarket matrix coordinate real general\n3 3\n1 1 1.0\n";
    assert!(matches!(load_matrix_market(input, 1), Err(MmError::MalformedDimensions)));
}

#[test]
fn dimension_count_overflow() {
    let input =
        b"%%MatrixMarket matrix coordinate real general\n99999999999999999999999999 3 1\n1 1 1.0\n";
    assert!(matches!(load_matrix_market(input, 1), Err(MmError::MalformedDimensions)));
}

#[test]
fn entry_with_non_numeric_value() {
    let input = b"%%MatrixMarket matrix coordinate real general\n3 3 2\n1 1 10.0\n2 2 oops\n";
    match load_matrix_market(input, 1) {
        Err(MmError::MalformedEntry(l)) => {
            assert_eq!(l, b"2 2 oops".to_vec());
        }
        _ => panic!("expected MalformedEntry"),
    }
}

#[test]
fn first_bad_entry_reported_with_many_workers() {
    let input =
        b"%%MatrixMarket matrix coordinate real general\n3 3 3\n1 1 1.0\n2 2 bad1\n3 3 bad2\n";
    for workers in 1..=5 {
        match load_matrix_market(input, workers) {
            Err(MmError::MalformedEntry(l)) => {
                assert_eq!(l, b"2 2 bad1".to_vec());
            }
            _ => panic!("expected MalformedEntry"),
        }
    }
}

#[test]
fn entry_row_out_of_declared_range() {
    let input = b"%%MatrixMarket matrix coordinate real general\n2 2 1\n3 1 1.0\n";
    assert!(matches!(load_matrix_market(input, 1), Err(MmError::MalformedEntry(_))));
}

#[test]
fn entry_with_zero_index() {
    let input = b"%%MatrixMarket matrix coordinate real general\n2 2 1\n0 1 1.0\n";
    assert!(matches!(load_matrix_market(input, 1), Err(MmError::MalformedEntry(_))));
}

#[test]
fn short_lines_are_skipped_not_errors() {
    let input = b"%%MatrixMarket matrix coordinate real general\n2 2 2\n1 1 1.5\n\n2 2 2.5\n\n";
    let m = load_matrix_market(input, 1).unwrap();
    assert_eq!(m.row_pointer, vec![0, 1, 2]);
    assert_eq!(vals(&m), vec![1.5, 2.5]);
}

#[test]
fn duplicate_coordinates_keep_encounter_order() {
    let input = b"%%MatrixMarket matrix coordinate real general\n2 2 3\n1 1 7.0\n1 1 3.0\n1 1 5.0\n";
    let m = load_matrix_market(input, 1).unwrap();
    assert_eq!(m.row_pointer, vec![0, 3, 3]);
    assert_eq!(m.column_index, vec![0, 0, 0]);
    assert_eq!(vals(&m), vec![7.0, 3.0, 5.0]);
}

#[test]
fn empty_rows_are_backfilled() {
    let input = b"%%MatrixMarket matrix coordinate real general\n5 4 2\n2 1 1.0\n2 4 2.0\n";
    let m = load_matrix_market(input, 1).unwrap();
    assert_eq!(m.row_pointer, vec![0, 0, 2, 2, 2, 2]);
    assert_eq!(m.column_index, vec![0, 3]);
    assert_eq!(vals(&m), vec![1.0, 2.0]);
}

#[test]
fn empty_body_gives_empty_matrix() {
    let input = b"%%MatrixMarket matrix coordinate real general\n4 7 0\n";
    let m = load_matrix_market(input, 3).unwrap();
    assert_eq!(m.row_count, 4);
    assert_eq!(m.col_count, 7);
    assert_eq!(m.row_pointer, vec![0, 0, 0, 0, 0]);
    assert_eq!(m.column_index.len(), 0);
    assert_eq!(m.values.len(), 0);
}

#[test]
fn last_line_without_trailing_newline() {
    let input = b"%%MatrixMarket matrix coordinate real general\n2 2 2\n1 2 1.0\n2 1 2.0";
    let m = load_matrix_market(input, 2).unwrap();
    assert_eq!(m.row_pointer, vec![0, 1, 2]);
    assert_eq!(m.column_index, vec![1, 0]);
    assert_eq!(vals(&m), vec![1.0, 2.0]);
}

#[test]
fn row_pointer_shape_holds_on_loaded_matrix() {
    let input = b"%%MatrixMarket matrix coordinate real general\n6 6 5\n3 2 1.0\n1 6 2.0\n6 6 3.0\n3 1 4.0\n1 1 5.0\n";
    let m = load_matrix_market(input, 2).unwrap();
    assert_eq!(m.row_pointer.len(), m.row_count + 1);
    assert_eq!(m.row_pointer[0], 0);
    for k in 0..m.row_count {
        assert!(m.row_pointer[k] <= m.row_pointer[k + 1]);
    }
    assert_eq!(m.row_pointer[m.row_count], m.column_index.len());
    assert_eq!(m.values.len(), m.column_index.len());
}

#[test]
fn row_slices_sorted_and_rows_recoverable() {
    let input = b"%%MatrixMarket matrix coordinate real general\n4 9 6\n2 9 1.0\n2 1 2.0\n2 4 3.0\n4 2 4.0\n1 5 5.0\n4 1 6.0\n";
    let m = load_matrix_market(input, 3).unwrap();
    for r in 0..m.row_count {
        let lo = m.row_pointer[r];
        let hi = m.row_pointer[r + 1];
        for i in lo..hi {
            assert!(m.column_index[i] < m.col_count);
            if i + 1 < hi {
                assert!(m.column_index[i] <= m.column_index[i + 1]);
            }
        }
    }
    assert_eq!(m.column_index, vec![4, 0, 3, 8, 0, 1]);
}

#[test]
fn round_trip_triples_match_sorted_source() {
    let input = b"%%MatrixMarket matrix coordinate real general\n3 3 5\n3 1 1.0\n1 2 2.0\n2 3 3.0\n1 1 4.0\n3 1 0.5\n";
    let m = load_matrix_market(input, 2).unwrap();
    // Re-expand the compressed form into triples.
    let mut expanded: Vec<(usize, usize, f64)> = Vec::new();
    for r in 0..m.row_count {
        for i in m.row_pointer[r]..m.row_pointer[r + 1] {
            expanded.push((r, m.column_index[i], val(&m.values[i])));
        }
    }
    // Sort the source triples the same way (0-based, stable by (row, col)).
    let mut source: Vec<(usize, usize, f64)> = vec![
        (2, 0, 1.0),
        (0, 1, 2.0),
        (1, 2, 3.0),
        (0, 0, 4.0),
        (2, 0, 0.5),
    ];
    source.sort_by_key(|t| (t.0, t.1));
    assert_eq!(expanded, source);
}

#[test]
fn banner_words_in_any_order() {
    let input = b"%%MatrixMarket real coordinate matrix
1 1 1
1 1 2.0
";
    let m = load_matrix_market(input, 1).unwrap();
    assert_eq!(m.row_pointer, vec![0, 1]);
}

#[test]
fn empty_buffer_has_no_banner() {
    assert!(matches!(load_matrix_market(b"", 1), Err(MmError::InvalidBanner)));
}

#[test]
fn banner_only_file_lacks_dimensions() {
    let input = b"%%MatrixMarket matrix coordinate real general";
    assert!(matches!(load_matrix_market(input, 1), Err(MmError::MalformedDimensions)));
}

#[test]
fn lines_with_wrong_token_count_are_skipped() {
    let input = b"%%MatrixMarket matrix coordinate real general
2 2 2
1 1
1 1 1.0 extra
2 2 9.0
";
    let m = load_matrix_market(input, 1).unwrap();
    assert_eq!(m.row_pointer, vec![0, 0, 1]);
    assert_eq!(vals(&m), vec![9.0]);
}

#[test]
fn double_spaced_line_is_skipped() {
    let input = b"%%MatrixMarket matrix coordinate real general\n2 2 2\n1  1 3.0\n2 2 4.0\n";
    let m = load_matrix_market(input, 1).unwrap();
    assert_eq!(m.row_pointer, vec![0, 0, 1]);
    assert_eq!(vals(&m), vec![4.0]);
}
