use rsmtxmkt::contains_sequence;
use rsmtxmkt::parse_dimensions;
use rsmtxmkt::validate_banner;
use rsmtxmkt::process_chunk;
use rsmtxmkt::load_matrix_market;
use rsmtxmkt::MmError;
use rsmtxmkt::chunk::window_bound;
use rsmtxmkt::numbers::parse_uint;
use rsmtxmkt::float::check_float_token;

#[test]
fn contains_sequence_basics() {
    assert!(contains_sequence(b"%%MatrixMarket matrix", b"%%MatrixMarket"));
    assert!(contains_sequence(b"abc", b""));
    assert!(contains_sequence(b"abcdef", b"cde"));
    assert!(!contains_sequence(b"abcdef", b"ce"));
    assert!(!contains_sequence(b"ab", b"abc"));
}

#[test]
fn parse_dimensions_reads_three_counts() {
    let sh = parse_dimensions(b"3 4 5").unwrap();
    assert_eq!(sh.row_count, 3);
    assert_eq!(sh.col_count, 4);
    assert_eq!(sh.declared_nnz, 5);
    assert!(parse_dimensions(b"3 4").is_none());
    assert!(parse_dimensions(b"3 4 5 6").is_none());
    assert!(parse_dimensions(b"3 x 5").is_none());
    assert!(parse_dimensions(b"").is_none());
    assert!(parse_dimensions(b"-1 4 5").is_none());
}

#[test]
fn validate_banner_checks_descriptors() {
    assert!(validate_banner(b"%%MatrixMarket matrix coordinate real general").is_ok());
    assert!(matches!(
        validate_banner(b"%%MatrixMarket matrix coordinate complex general"),
        Err(MmError::UnsupportedFormat(_))
    ));
    assert!(matches!(validate_banner(b"nothing here"), Err(MmError::InvalidBanner)));
}

#[test]
fn parse_uint_rejects_overflow_and_junk() {
    assert_eq!(parse_uint(b"0"), Some(0));
    assert_eq!(parse_uint(b"12345"), Some(12345));
    assert_eq!(parse_uint(b""), None);
    assert_eq!(parse_uint(b"12a"), None);
    assert_eq!(parse_uint(b"+3"), None);
    assert_eq!(parse_uint(b"99999999999999999999999999999999"), None);
}

#[test]
fn float_tokens_accepted_and_rejected() {
    for good in [
        "0", "10.0", "5.", ".5", "-2.5", "+2.5e-3", "1e3", "1E+4", "inf", "-inf", "Infinity",
        "NaN", "nan", "3.14159",
    ] {
        assert!(check_float_token(good.as_bytes()), "{}", good);
        assert_eq!(good.parse::<f64>().is_ok(), true, "{}", good);
    }
    for bad in ["", ".", "1.2.3", "e5", "1e", "nanx", "in", "1,0", "0x1", "1 0", "--1"] {
        assert!(!check_float_token(bad.as_bytes()), "{}", bad);
        assert_eq!(bad.parse::<f64>().is_ok(), false, "{}", bad);
    }
}

#[test]
fn process_chunk_extracts_triples() {
    let out = process_chunk(b"1 2 1.5\n3 4 2.5\n", 4, 4).unwrap();
    assert_eq!(out.len(), 2);
    assert_eq!(out[0].row, 0);
    assert_eq!(out[0].col, 1);
    assert_eq!(out[0].value, b"1.5".to_vec());
    assert_eq!(out[1].row, 2);
    assert_eq!(out[1].col, 3);
}

#[test]
fn process_chunk_reports_first_bad_line() {
    let err = process_chunk(b"1 1 1.0\n1 1 x\n1 1 y\n", 2, 2).unwrap_err();
    assert_eq!(err, b"1 1 x".to_vec());
}

#[test]
fn windows_tile_the_body() {
    let body = b"1 1 1.0\n22 22 22.25\n3 3 3.5\n";
    for workers in 1..=8 {
        let mut prev = window_bound(body, workers, 0);
        assert_eq!(prev, 0);
        for i in 1..=workers {
            let next = window_bound(body, workers, i);
            assert!(prev <= next);
            // Every boundary other than the ends sits right after a newline.
            if next != 0 && next != body.len() {
                assert_eq!(body[next - 1], b'\n');
            }
            prev = next;
        }
        assert_eq!(prev, body.len());
    }
}

#[test]
fn value_tokens_are_carried_verbatim() {
    let input = b"%%MatrixMarket matrix coordinate real general\n2 2 2\n1 1 1.0e2\n2 2 .125\n";
    let m = load_matrix_market(input, 1).unwrap();
    assert_eq!(m.values[0], b"1.0e2".to_vec());
    assert_eq!(m.values[1], b".125".to_vec());
}
