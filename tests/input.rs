use ant_q::cli_utils::{
    adj_matrix_from_text, matrix_source, parse_max_iterations, parse_option, parse_population_size,
    random_adj_matrix, solver, validate_adj_matrix, Algorithm, MatrixSource, ReadAdjMatrixError,
    ReadAlgorithmError,
};
use ant_q::parsing::{parse_rows, parse_u32_line, parse_usize_line};

#[test]
fn menu_options_in_range_only() {
    assert_eq!(parse_option(b"2\n", 1, 2), Some(2));
    assert_eq!(parse_option(b"  1 \r\n", 1, 2), Some(1));
    assert_eq!(parse_option(b"+1", 1, 2), Some(1));
    assert_eq!(parse_option(b"3", 1, 2), None);
    assert_eq!(parse_option(b"0", 1, 2), None);
    assert_eq!(parse_option(b"one", 1, 2), None);
    assert_eq!(parse_option(b"", 1, 2), None);
    assert_eq!(parse_option(b"1 2", 1, 2), None);
}

#[test]
fn algorithm_menu_picks_solver() {
    assert_eq!(solver(b"1\n"), Ok(Algorithm::Greedy));
    assert_eq!(solver(b"2\n"), Ok(Algorithm::AntQ));
    assert_eq!(solver(b"3\n"), Err(ReadAlgorithmError::UnknownAlgorithm));
    assert_eq!(solver(b"x"), Err(ReadAlgorithmError::UnknownAlgorithm));
}

#[test]
fn source_menu_picks_matrix_source() {
    assert_eq!(matrix_source(b"1"), Ok(MatrixSource::File));
    assert_eq!(matrix_source(b" 2 "), Ok(MatrixSource::Random));
    assert_eq!(matrix_source(b"-1"), Err(ReadAdjMatrixError::UnknownSource));
}

#[test]
fn run_sizes_parse_or_fail() {
    assert_eq!(parse_max_iterations(b"100\n"), Ok(100));
    assert_eq!(parse_max_iterations(b"4294967295"), Ok(4294967295));
    assert_eq!(parse_max_iterations(b"4294967296"), Err(ReadAlgorithmError::UnableToParseUnt32));
    assert_eq!(parse_max_iterations(b"-5"), Err(ReadAlgorithmError::UnableToParseUnt32));
    assert_eq!(parse_population_size(b"20"), Ok(20));
    assert_eq!(parse_population_size(b"2x"), Err(ReadAlgorithmError::UnableToParseUsize));
    assert_eq!(parse_population_size(b"+"), Err(ReadAlgorithmError::UnableToParseUsize));
}

#[test]
fn number_lines_follow_std_parsing() {
    for text in [
        "0", "7", "+12", " 0042\t", "4294967295", "4294967296", "", "+", "-0", "1_0", "12a",
        "1\u{a0}", "\u{3000}2\u{2028}", "\u{85}3\u{1680}", "\u{2000}\u{200a}4\u{202f}\u{205f}",
        "5\u{2029}", "\u{a0}", "6\u{a0}7", "8\u{200b}",
    ] {
        assert_eq!(parse_u32_line(text.as_bytes()), text.trim().parse::<u32>().ok(), "{text:?}");
        assert_eq!(parse_usize_line(text.as_bytes()), text.trim().parse::<usize>().ok(), "{text:?}");
    }
    assert_eq!(parse_usize_line(b"18446744073709551615"), Some(usize::MAX));
}

#[test]
fn menu_accepts_unicode_white_space_around_the_choice() {
    assert_eq!(solver("1\u{a0}".as_bytes()), Ok(Algorithm::Greedy));
    assert_eq!(parse_option("\u{3000}2\n".as_bytes(), 1, 2), Some(2));
    assert_eq!(parse_option("2\u{200b}".as_bytes(), 1, 2), None);
}

#[test]
fn rows_split_at_unicode_white_space_like_split_whitespace() {
    let line = "1\u{a0}2\u{3000}3\u{2009}x\u{85}4\u{200b}5 ";
    let expected: Vec<u32> = line.split_whitespace().flat_map(str::parse).collect();
    assert_eq!(expected, vec![1, 2, 3]);
    assert_eq!(parse_rows(line.as_bytes()), vec![expected]);
}

#[test]
fn rows_skip_tokens_that_are_not_numbers() {
    let rows = parse_rows(b"0 1 x 2\r\n3\t+4 99999999999\n\n5");
    assert_eq!(rows, vec![vec![0, 1, 2], vec![3, 4], vec![], vec![5]]);
    assert_eq!(parse_rows(b"1 2\n"), vec![vec![1, 2]]);
    assert!(parse_rows(b"").is_empty());
}

#[test]
fn matrix_text_is_read_and_checked() {
    assert_eq!(
        adj_matrix_from_text(b"0 3 4\n5 0 6\n7 8 0\n"),
        Ok(vec![vec![0, 3, 4], vec![5, 0, 6], vec![7, 8, 0]])
    );
    assert_eq!(adj_matrix_from_text(b""), Ok(vec![]));
    assert_eq!(
        adj_matrix_from_text(b"0 3\n0 0\n"),
        Err(ReadAdjMatrixError::NonDiagonalElementsMustBeGreaterThanZero)
    );
    assert_eq!(
        adj_matrix_from_text(b"0 3\n2 1\n"),
        Err(ReadAdjMatrixError::DiagonalElementsMustBeZero)
    );
    assert_eq!(
        adj_matrix_from_text(b"0 3 9\n2 0\n"),
        Err(ReadAdjMatrixError::RowsAndColumnsCountMismatch)
    );
}

#[test]
fn first_bad_cell_in_row_order_decides_the_error() {
    assert_eq!(
        validate_adj_matrix(vec![vec![0, 0], vec![0, 5]]),
        Err(ReadAdjMatrixError::NonDiagonalElementsMustBeGreaterThanZero)
    );
    assert_eq!(
        validate_adj_matrix(vec![vec![1, 0], vec![3, 0]]),
        Err(ReadAdjMatrixError::DiagonalElementsMustBeZero)
    );
    assert_eq!(
        validate_adj_matrix(vec![vec![0, 2, 0], vec![1]]),
        Err(ReadAdjMatrixError::RowsAndColumnsCountMismatch)
    );
    assert_eq!(
        validate_adj_matrix(vec![vec![0], vec![1, 0]]),
        Err(ReadAdjMatrixError::RowsAndColumnsCountMismatch)
    );
    assert_eq!(validate_adj_matrix(vec![vec![0]]), Ok(vec![vec![0]]));
}

#[test]
fn random_matrix_has_requested_shape_and_range() {
    let matrix = random_adj_matrix(3, 5, 10, 20, Some(1)).unwrap();
    assert_eq!(matrix.len(), 3);
    for row in &matrix {
        assert_eq!(row.len(), 5);
        assert!(row.iter().all(|&v| (10..=20).contains(&v)));
    }
    assert_eq!(Some(matrix), random_adj_matrix(3, 5, 10, 20, Some(1)));
    if let Some(fixed) = random_adj_matrix(2, 2, 7, 7, None) {
        assert_eq!(fixed, vec![vec![7, 7], vec![7, 7]]);
    }
    let wide = random_adj_matrix(4, 50, 0, 1000, Some(9)).unwrap();
    assert!(wide.iter().flatten().any(|&v| v != 0));
    assert!(random_adj_matrix(0, 4, 1, 2, Some(3)).unwrap().is_empty());
}
