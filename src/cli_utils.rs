use vstd::prelude::*;

use crate::models::{matrix_view, AdjMatrix};
use crate::parsing::{matrix_rows, number_of, parse_rows, parse_u32_line, parse_usize_line, trim_blank};
use crate::rand_utils::{random_between, random_provider};

verus! {

/// Why a solver could not be set up from what the user typed.
#[derive(Debug, Clone, Copy, PartialEq, Eq, Structural)]
pub enum ReadAlgorithmError {
    UnknownAlgorithm,
    UnableToParseUnt32,
    UnableToParseUsize,
}

/// Why a cost matrix could not be had.
#[derive(Debug, Clone, Copy, PartialEq, Eq, Structural)]
pub enum ReadAdjMatrixError {
    FileNotFound,
    RowsAndColumnsCountMismatch,
    DiagonalElementsMustBeZero,
    NonDiagonalElementsMustBeGreaterThanZero,
    UnableToParseUnt32,
    UnknownSource,
}

/// The solvers a user can pick.
#[derive(Debug, Clone, Copy, PartialEq, Eq, Structural)]
pub enum Algorithm {
    Greedy,
    AntQ,
}

/// Where a cost matrix can come from.
#[derive(Debug, Clone, Copy, PartialEq, Eq, Structural)]
pub enum MatrixSource {
    File,
    Random,
}

/// The number `line` spells, when it lies between `min_value` and `max_value`.
pub open spec fn option_in_range(line: Seq<u8>, min_value: u32, max_value: u32) -> Option<u32> {
    match number_of(trim_blank(line), u32::MAX as nat) {
        Some(v) => if min_value <= v <= max_value {
            Some(v as u32)
        } else {
            None
        },
        None => None,
    }
}

/// A menu entry typed as a line: its number when it lies between the bounds.
pub fn parse_option(line: &[u8], min_value: u32, max_value: u32) -> (r: Option<u32>)
    ensures
        r == option_in_range(line@, min_value, max_value),
{
    match parse_u32_line(line) {
        Some(choice) => {
            if choice >= min_value && choice <= max_value {
                Some(choice)
            } else {
                None
            }
        },
        None => None,
    }
}

/// The solver picked by the menu line: 1 for the greedy one, 2 for Ant-Q.
pub fn solver(choice: &[u8]) -> (r: Result<Algorithm, ReadAlgorithmError>)
    ensures
        r == match option_in_range(choice@, 1, 2) {
            Some(1) => Ok(Algorithm::Greedy),
            Some(2) => Ok(Algorithm::AntQ),
            _ => Err::<Algorithm, ReadAlgorithmError>(ReadAlgorithmError::UnknownAlgorithm),
        },
{
    match parse_option(choice, 1, 2) {
        Some(1) => Ok(Algorithm::Greedy),
        Some(2) => Ok(Algorithm::AntQ),
        _ => Err(ReadAlgorithmError::UnknownAlgorithm),
    }
}

/// The matrix source picked by the menu line: 1 for a file, 2 for a random matrix.
pub fn matrix_source(choice: &[u8]) -> (r: Result<MatrixSource, ReadAdjMatrixError>)
    ensures
        r == match option_in_range(choice@, 1, 2) {
            Some(1) => Ok(MatrixSource::File),
            Some(2) => Ok(MatrixSource::Random),
            _ => Err::<MatrixSource, ReadAdjMatrixError>(ReadAdjMatrixError::UnknownSource),
        },
{
    match parse_option(choice, 1, 2) {
        Some(1) => Ok(MatrixSource::File),
        Some(2) => Ok(MatrixSource::Random),
        _ => Err(ReadAdjMatrixError::UnknownSource),
    }
}

/// The iteration count typed as a line.
pub fn parse_max_iterations(line: &[u8]) -> (r: Result<u32, ReadAlgorithmError>)
    ensures
        match number_of(trim_blank(line@), u32::MAX as nat) {
            Some(v) => r == Ok::<u32, ReadAlgorithmError>(v as u32),
            None => r == Err::<u32, ReadAlgorithmError>(ReadAlgorithmError::UnableToParseUnt32),
        },
{
    match parse_u32_line(line) {
        Some(v) => Ok(v),
        None => Err(ReadAlgorithmError::UnableToParseUnt32),
    }
}

/// The population size typed as a line.
pub fn parse_population_size(line: &[u8]) -> (r: Result<usize, ReadAlgorithmError>)
    ensures
        match number_of(trim_blank(line@), usize::MAX as nat) {
            Some(v) => r == Ok::<usize, ReadAlgorithmError>(v as usize),
            None => r == Err::<usize, ReadAlgorithmError>(ReadAlgorithmError::UnableToParseUsize),
        },
{
    match parse_usize_line(line) {
        Some(v) => Ok(v),
        None => Err(ReadAlgorithmError::UnableToParseUsize),
    }
}

/// Cell `(r, c)` lies inside the square of side `m.len()` and its row is long enough
/// to hold it.
pub open spec fn cell_present(m: Seq<Seq<u32>>, r: int, c: int) -> bool {
    0 <= r < m.len() && 0 <= c < m.len() && c < m[r].len()
}

/// A cost matrix has zeros on its diagonal and nothing else.
pub open spec fn cell_ok(m: Seq<Seq<u32>>, r: int, c: int) -> bool {
    if r == c {
        m[r][c] == 0
    } else {
        m[r][c] != 0
    }
}

/// `(r1, c1)` comes before `(r2, c2)` in row-major order.
pub open spec fn precedes(r1: int, c1: int, r2: int, c2: int) -> bool {
    r1 < r2 || (r1 == r2 && c1 < c2)
}

/// `(r, c)` is the first present cell, in row-major order, that breaks `cell_ok`.
pub open spec fn is_first_bad_cell(m: Seq<Seq<u32>>, r: int, c: int) -> bool {
    &&& cell_present(m, r, c)
    &&& !cell_ok(m, r, c)
    &&& forall|r2: int, c2: int|
        #![trigger cell_ok(m, r2, c2)]
        cell_present(m, r2, c2) && precedes(r2, c2, r, c) ==> cell_ok(m, r2, c2)
}

pub open spec fn rows_square(m: Seq<Seq<u32>>) -> bool {
    forall|r: int| 0 <= r < m.len() ==> #[trigger] m[r].len() == m.len()
}

/// The verdict on a matrix: the first bad cell decides between the two cell errors;
/// with no bad cell, a row of the wrong length is a mismatch.
pub open spec fn matrix_check(m: Seq<Seq<u32>>) -> Result<(), ReadAdjMatrixError> {
    if exists|r: int, c: int| is_first_bad_cell(m, r, c) {
        let (r, c) = choose|r: int, c: int| is_first_bad_cell(m, r, c);
        if r == c {
            Err(ReadAdjMatrixError::DiagonalElementsMustBeZero)
        } else {
            Err(ReadAdjMatrixError::NonDiagonalElementsMustBeGreaterThanZero)
        }
    } else if !rows_square(m) {
        Err(ReadAdjMatrixError::RowsAndColumnsCountMismatch)
    } else {
        Ok(())
    }
}

/// Checks that `matrix` is a cost matrix: zero diagonal, non-zero elsewhere, square.
pub fn validate_adj_matrix(matrix: AdjMatrix<u32>) -> (r: Result<AdjMatrix<u32>, ReadAdjMatrixError>)
    ensures
        match matrix_check(matrix_view(&matrix)) {
            Ok(_) => r == Ok::<AdjMatrix<u32>, ReadAdjMatrixError>(matrix),
            Err(e) => r == Err::<AdjMatrix<u32>, ReadAdjMatrixError>(e),
        },
{
    let ghost m = matrix_view(&matrix);
    let size = matrix.len();
    let mut row: usize = 0;
    while row < size
        invariant
            m == matrix_view(&matrix),
            size == m.len(),
            row <= size,
            forall|r2: int, c2: int|
                #![trigger cell_ok(m, r2, c2)]
                cell_present(m, r2, c2) && r2 < row ==> cell_ok(m, r2, c2),
        decreases size - row,
    {
        let line = &matrix[row];
        assert(line@ == m[row as int]);
        let mut column: usize = 0;
        while column < size
            invariant
                m == matrix_view(&matrix),
                size == m.len(),
                row < size,
                line@ == m[row as int],
                column <= size,
                forall|r2: int, c2: int|
                    #![trigger cell_ok(m, r2, c2)]
                    cell_present(m, r2, c2) && precedes(r2, c2, row as int, column as int) ==> cell_ok(
                        m,
                        r2,
                        c2,
                    ),
            decreases size - column,
        {
            if column < line.len() {
                let element = line[column];
                if element == 0 && row != column {
                    proof {
                        lemma_first_bad_unique(m, row as int, column as int);
                    }
                    return Err(ReadAdjMatrixError::NonDiagonalElementsMustBeGreaterThanZero);
                }
                if row == column && element != 0 {
                    proof {
                        lemma_first_bad_unique(m, row as int, column as int);
                    }
                    return Err(ReadAdjMatrixError::DiagonalElementsMustBeZero);
                }
            }
            column = column + 1;
        }
        row = row + 1;
    }
    assert(!exists|r: int, c: int| is_first_bad_cell(m, r, c));
    let mut index: usize = 0;
    while index < size
        invariant
            m == matrix_view(&matrix),
            size == m.len(),
            index <= size,
            !exists|r: int, c: int| is_first_bad_cell(m, r, c),
            forall|r: int| 0 <= r < index ==> #[trigger] m[r].len() == m.len(),
        decreases size - index,
    {
        if matrix[index].len() != size {
            assert(m[index as int].len() != m.len());
            return Err(ReadAdjMatrixError::RowsAndColumnsCountMismatch);
        }
        index = index + 1;
    }
    Ok(matrix)
}

/// When `(r, c)` is a first bad cell, it is the one `matrix_check` picks.
proof fn lemma_first_bad_unique(m: Seq<Seq<u32>>, r: int, c: int)
    requires
        is_first_bad_cell(m, r, c),
    ensures
        (choose|r1: int, c1: int| is_first_bad_cell(m, r1, c1)) == (r, c),
{
    let (r1, c1) = choose|r1: int, c1: int| is_first_bad_cell(m, r1, c1);
    assert(is_first_bad_cell(m, r1, c1));
    if precedes(r1, c1, r, c) {
        assert(cell_ok(m, r1, c1));
    } else if precedes(r, c, r1, c1) {
        assert(cell_ok(m, r, c));
    }
}

/// The cost matrix written as text in `text`, one row per line, checked by
/// `validate_adj_matrix`.
pub fn adj_matrix_from_text(text: &[u8]) -> (r: Result<AdjMatrix<u32>, ReadAdjMatrixError>)
    ensures
        match matrix_check(matrix_rows(text@)) {
            Ok(_) => r matches Ok(x) && matrix_view(&x) == matrix_rows(text@),
            Err(e) => r == Err::<AdjMatrix<u32>, ReadAdjMatrixError>(e),
        },
{
    let rows = parse_rows(text);
    assert(matrix_view(&rows) == matrix_rows(text@));
    validate_adj_matrix(rows)
}

/// A `rows_count` by `columns_count` matrix of values drawn uniformly between
/// `min_value` and `max_value`, both included, from the stream of `random_seed`;
/// `None` only when no seed is given and the operating system cannot supply one.
pub fn random_adj_matrix(
    rows_count: usize,
    columns_count: usize,
    min_value: u32,
    max_value: u32,
    random_seed: Option<u64>,
) -> (r: Option<AdjMatrix<u32>>)
    requires
        min_value <= max_value,
    ensures
        random_seed is Some ==> r is Some,
        r matches Some(m) ==> m@.len() == rows_count && (forall|i: int|
            0 <= i < rows_count ==> (#[trigger] m@[i])@.len() == columns_count) && (forall|
            i: int,
            j: int,
        |
            0 <= i < rows_count && 0 <= j < columns_count ==> min_value <= #[trigger] m@[i]@[j]
                <= max_value),
{
    let mut random_provider = match random_provider(random_seed) {
        Some(rng) => rng,
        None => {
            return None;
        },
    };
    let mut matrix: AdjMatrix<u32> = Vec::new();
    let mut i: usize = 0;
    while i < rows_count
        invariant
            min_value <= max_value,
            i <= rows_count,
            matrix@.len() == i,
            forall|k: int| 0 <= k < i ==> (#[trigger] matrix@[k])@.len() == columns_count,
            forall|k: int, j: int|
                0 <= k < i && 0 <= j < columns_count ==> min_value <= #[trigger] matrix@[k]@[j]
                    <= max_value,
        decreases rows_count - i,
    {
        let mut row: Vec<u32> = Vec::new();
        let mut j: usize = 0;
        while j < columns_count
            invariant
                min_value <= max_value,
                j <= columns_count,
                row@.len() == j,
                forall|k: int| 0 <= k < j ==> min_value <= #[trigger] row@[k] <= max_value,
            decreases columns_count - j,
        {
            let element = random_between(&mut random_provider, min_value, max_value);
            row.push(element);
            j = j + 1;
        }
        matrix.push(row);
        i = i + 1;
    }
    Some(matrix)
}

} // verus!
