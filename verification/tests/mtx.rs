use spicy_simulate::solver::matrix::builder::MatrixBuilder;
use spicy_simulate::solver::matrix::csc::CscMatrix;
use spicy_simulate::solver::matrix::error::MatrixError;
use spicy_simulate::solver::matrix::error::MatrixMarketError;
use spicy_simulate::solver::matrix::mtx::line_lossy_trimmed;
use spicy_simulate::solver::matrix::mtx::push_decimal;
use spicy_simulate::solver::matrix::mtx::MtxLine;
use spicy_simulate::solver::matrix::mtx::MtxReader;
use spicy_simulate::solver::matrix::mtx::MtxValue;

fn real_token(bytes: &[u8]) -> Option<f64> {
    std::str::from_utf8(bytes).ok().and_then(|t| t.parse::<f64>().ok())
}

/// Reads a whole MatrixMarket text line by line, as a buffered reader would,
/// dropping zero values and summing duplicates.
fn load(input: &str) -> Result<CscMatrix<f64>, MatrixError> {
    let bytes = input.as_bytes();
    let mut reader = MtxReader::new();
    let mut builder: Option<MatrixBuilder<f64>> = None;
    let mut start = 0;
    while start < bytes.len() {
        let end = match bytes[start..].iter().position(|&c| c == b'\n') {
            Some(k) => start + k + 1,
            None => bytes.len(),
        };
        let line = &bytes[start..end];
        start = end;
        let parsed = reader
            .feed_line(line, |s, e| real_token(&line[s..e]).is_some())
            .map_err(MatrixError::MatrixMarket)?;
        match parsed {
            MtxLine::Size { nrows, ncols, nnz } => {
                let mut b = MatrixBuilder::new(nrows, ncols);
                b.reserve(nnz);
                builder = Some(b);
            }
            MtxLine::Entry(e) => {
                let v = match e.value {
                    MtxValue::Integer(i) => i as f64,
                    MtxValue::Real { start, end } => real_token(&line[start..end]).unwrap(),
                };
                if v != 0.0 {
                    builder.as_mut().unwrap().push(e.col, e.row, v).map_err(MatrixError::Csc)?;
                }
            }
            _ => {}
        }
    }
    reader.finish().map_err(MatrixError::MatrixMarket)?;
    builder.unwrap().build_csc(|a: f64, b: f64| a + b).map_err(MatrixError::Csc)
}

#[test]
fn parse_small_integer_coordinate_general() {
    // 3x3 with duplicates in same position (1,1) and a comment line.
    let mtx = r#"
%%MatrixMarket matrix coordinate integer general
% a comment
3 3 4
1 1 2
1 1 3
3 1 4
2 3 5
"#;

    let a = load(mtx).unwrap();
    assert!(a.check_invariants().is_ok());

    assert_eq!(a.dim.nrows, 3);
    assert_eq!(a.dim.ncols, 3);
    // After combining duplicates at (row=0,col=0): 2+3=5 => 3 unique nnz
    assert_eq!(a.nnz(), 3);

    // Column 0 has rows [0,2] vals [5,4]
    let (r0, v0) = a.col(0);
    assert_eq!(r0, &[0, 2]);
    assert_eq!(v0, &[5.0, 4.0]);

    // Column 2 has row [1] val [5]
    let (r2, v2) = a.col(2);
    assert_eq!(r2, &[1]);
    assert_eq!(v2, &[5.0]);
}

#[test]
fn rejects_non_general_symmetry() {
    let mtx = r#"%%MatrixMarket matrix coordinate integer symmetric
2 2 1
1 1 1
"#;
    let err = load(mtx).unwrap_err();
    match err {
        MatrixError::MatrixMarket(MatrixMarketError::UnsupportedType(s)) => {
            assert!(s.contains("only 'general' symmetry is supported"));
        }
        other => panic!("unexpected error {other:?}"),
    }
}

#[test]
fn real_values_and_bom_are_read() {
    let mtx = "\u{feff}%%MatrixMarket matrix coordinate real general\n2 2 2\n1 2 -1.5e0\n2 1 2.25\n";
    let a = load(mtx).unwrap();
    assert_eq!(a.column_pointers, vec![0, 1, 2]);
    assert_eq!(a.row_indices, vec![1, 0]);
    assert_eq!(a.values, vec![2.25, -1.5]);
}

#[test]
fn entry_count_mismatch_is_reported() {
    let mtx = "%%MatrixMarket matrix coordinate integer general\n2 2 3\n1 1 1\n";
    match load(mtx).unwrap_err() {
        MatrixError::MatrixMarket(MatrixMarketError::EntryCountMismatch { expected, actual }) => {
            assert_eq!((expected, actual), (3, 1));
        }
        other => panic!("unexpected error {other:?}"),
    }
}

#[test]
fn zero_based_index_is_rejected() {
    let mtx = "%%MatrixMarket matrix coordinate integer general\n2 2 1\n0 1 1\n";
    match load(mtx).unwrap_err() {
        MatrixError::MatrixMarket(MatrixMarketError::InvalidEntry { line, msg }) => {
            assert_eq!(line, 3);
            assert_eq!(msg, "MatrixMarket indices are 1-based; found 0");
        }
        other => panic!("unexpected error {other:?}"),
    }
}

#[test]
fn empty_input_and_missing_size() {
    let mut r = MtxReader::new();
    match r.finish().unwrap_err() {
        MatrixMarketError::InvalidBanner(m) => assert_eq!(m, "empty input"),
        other => panic!("unexpected error {other:?}"),
    }
    r.feed_line(b"%%MatrixMarket matrix coordinate real general\n", |_, _| true).unwrap();
    match r.finish().unwrap_err() {
        MatrixMarketError::InvalidSizeLine(m) => assert_eq!(m, "missing size line"),
        other => panic!("unexpected error {other:?}"),
    }
}

#[test]
fn message_lines_are_decoded_and_trimmed() {
    assert_eq!(line_lossy_trimmed(b"1 2 3  \t\r\n"), "1 2 3");
    assert_eq!(line_lossy_trimmed(b"  lead"), "  lead");
    assert_eq!(line_lossy_trimmed(b"ab\xffcd "), "ab\u{fffd}cd");
    assert_eq!(line_lossy_trimmed("x\u{3000}".as_bytes()), "x");
    assert_eq!(line_lossy_trimmed(b""), "");
}

#[test]
fn decimals_are_appended() {
    let mut s = String::from("n=");
    push_decimal(&mut s, 0);
    s.push(' ');
    push_decimal(&mut s, 1907);
    assert_eq!(s, "n=0 1907");
}
