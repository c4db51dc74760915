use sudoku_solver::{solve, SolveError};

fn grid(rows: [[u16; 9]; 9]) -> Vec<Vec<u16>> {
    rows.iter().map(|row| row.to_vec()).collect()
}

fn box_of(r: usize, c: usize) -> usize {
    (r / 3) * 3 + c / 3
}

fn assert_valid_solution(s: &Vec<Vec<u16>>) {
    assert_eq!(s.len(), 9);
    for r in 0..9 {
        assert_eq!(s[r].len(), 9);
    }
    for unit in 0..9 {
        let mut in_row = [0u32; 10];
        let mut in_column = [0u32; 10];
        let mut in_box = [0u32; 10];
        for r in 0..9 {
            for c in 0..9 {
                let d = s[r][c] as usize;
                assert!((1..=9).contains(&d));
                if r == unit {
                    in_row[d] += 1;
                }
                if c == unit {
                    in_column[d] += 1;
                }
                if box_of(r, c) == unit {
                    in_box[d] += 1;
                }
            }
        }
        for d in 1..=9 {
            assert_eq!(in_row[d], 1);
            assert_eq!(in_column[d], 1);
            assert_eq!(in_box[d], 1);
        }
    }
}

fn assert_keeps_givens(puzzle: &Vec<Vec<u16>>, s: &Vec<Vec<u16>>) {
    for r in 0..9 {
        for c in 0..9 {
            if puzzle[r][c] != 0 {
                assert_eq!(puzzle[r][c], s[r][c]);
            }
        }
    }
}

#[test]
fn classic_puzzle_yields_its_solution() {
    let puzzle = grid([
        [5, 3, 0, 0, 7, 0, 0, 0, 0],
        [6, 0, 0, 1, 9, 5, 0, 0, 0],
        [0, 9, 8, 0, 0, 0, 0, 6, 0],
        [8, 0, 0, 0, 6, 0, 0, 0, 3],
        [4, 0, 0, 8, 0, 3, 0, 0, 1],
        [7, 0, 0, 0, 2, 0, 0, 0, 6],
        [0, 6, 0, 0, 0, 0, 2, 8, 0],
        [0, 0, 0, 4, 1, 9, 0, 0, 5],
        [0, 0, 0, 0, 8, 0, 0, 7, 9],
    ]);
    let expected = grid([
        [5, 3, 4, 6, 7, 8, 9, 1, 2],
        [6, 7, 2, 1, 9, 5, 3, 4, 8],
        [1, 9, 8, 3, 4, 2, 5, 6, 7],
        [8, 5, 9, 7, 6, 1, 4, 2, 3],
        [4, 2, 6, 8, 5, 3, 7, 9, 1],
        [7, 1, 3, 9, 2, 4, 8, 5, 6],
        [9, 6, 1, 5, 3, 7, 2, 8, 4],
        [2, 8, 7, 4, 1, 9, 6, 3, 5],
        [3, 4, 5, 2, 8, 6, 1, 7, 9],
    ]);
    let solved = solve(&puzzle).unwrap();
    assert_eq!(solved, expected);
    assert_valid_solution(&solved);
    assert_keeps_givens(&puzzle, &solved);
}

#[test]
fn hard_puzzle_needs_backtracking() {
    let puzzle = grid([
        [8, 0, 0, 0, 0, 0, 0, 0, 0],
        [0, 0, 3, 6, 0, 0, 0, 0, 0],
        [0, 7, 0, 0, 9, 0, 2, 0, 0],
        [0, 5, 0, 0, 0, 7, 0, 0, 0],
        [0, 0, 0, 0, 4, 5, 7, 0, 0],
        [0, 0, 0, 1, 0, 0, 0, 3, 0],
        [0, 0, 1, 0, 0, 0, 0, 6, 8],
        [0, 0, 8, 5, 0, 0, 0, 1, 0],
        [0, 9, 0, 0, 0, 0, 4, 0, 0],
    ]);
    let expected = grid([
        [8, 1, 2, 7, 5, 3, 6, 4, 9],
        [9, 4, 3, 6, 8, 2, 1, 7, 5],
        [6, 7, 5, 4, 9, 1, 2, 8, 3],
        [1, 5, 4, 2, 3, 7, 8, 9, 6],
        [3, 6, 9, 8, 4, 5, 7, 2, 1],
        [2, 8, 7, 1, 6, 9, 5, 3, 4],
        [5, 2, 1, 9, 7, 4, 3, 6, 8],
        [4, 3, 8, 5, 2, 6, 9, 1, 7],
        [7, 9, 6, 3, 1, 8, 4, 5, 2],
    ]);
    let solved = solve(&puzzle).unwrap();
    assert_eq!(solved, expected);
}

#[test]
fn second_puzzle_keeps_givens_and_is_valid() {
    let puzzle = grid([
        [0, 0, 0, 1, 0, 0, 3, 9, 4],
        [2, 0, 0, 0, 9, 0, 0, 0, 6],
        [5, 0, 0, 0, 0, 0, 0, 0, 0],
        [0, 2, 0, 8, 0, 7, 0, 0, 0],
        [4, 0, 0, 0, 5, 0, 0, 3, 0],
        [8, 6, 3, 0, 0, 0, 0, 7, 0],
        [0, 0, 0, 0, 0, 6, 2, 8, 3],
        [1, 0, 0, 0, 0, 3, 0, 5, 9],
        [0, 0, 0, 0, 8, 0, 0, 0, 0],
    ]);
    let solved = solve(&puzzle).unwrap();
    assert_valid_solution(&solved);
    assert_keeps_givens(&puzzle, &solved);
}

#[test]
fn blank_grid_gets_some_valid_filling() {
    let puzzle = vec![vec![0u16; 9]; 9];
    let solved = solve(&puzzle).unwrap();
    assert_valid_solution(&solved);
}

#[test]
fn two_fives_in_a_row_are_unsolvable() {
    let mut puzzle = vec![vec![0u16; 9]; 9];
    puzzle[0][1] = 5;
    puzzle[0][7] = 5;
    assert_eq!(solve(&puzzle), Err(SolveError::Unsolvable));
}

#[test]
fn clash_in_a_column_or_box_is_unsolvable() {
    let mut column = vec![vec![0u16; 9]; 9];
    column[2][4] = 7;
    column[8][4] = 7;
    assert_eq!(solve(&column), Err(SolveError::Unsolvable));
    let mut in_box = vec![vec![0u16; 9]; 9];
    in_box[3][3] = 2;
    in_box[5][5] = 2;
    assert_eq!(solve(&in_box), Err(SolveError::Unsolvable));
}

#[test]
fn hidden_contradiction_is_unsolvable() {
    // The first cell can hold no digit: its row has 1 to 8 and its column has 9.
    let mut puzzle = vec![vec![0u16; 9]; 9];
    for c in 1..9 {
        puzzle[0][c] = c as u16;
    }
    puzzle[4][0] = 9;
    assert_eq!(solve(&puzzle), Err(SolveError::Unsolvable));
}

#[test]
fn malformed_input_is_reported() {
    assert_eq!(solve(&vec![vec![0u16; 9]; 8]), Err(SolveError::MalformedInput));
    let mut short_row = vec![vec![0u16; 9]; 9];
    short_row[3] = vec![0u16; 8];
    assert_eq!(solve(&short_row), Err(SolveError::MalformedInput));
    let mut big_digit = vec![vec![0u16; 9]; 9];
    big_digit[6][2] = 10;
    assert_eq!(solve(&big_digit), Err(SolveError::MalformedInput));
}

#[test]
fn solved_grid_is_returned_as_is() {
    let full = grid([
        [5, 3, 4, 6, 7, 8, 9, 1, 2],
        [6, 7, 2, 1, 9, 5, 3, 4, 8],
        [1, 9, 8, 3, 4, 2, 5, 6, 7],
        [8, 5, 9, 7, 6, 1, 4, 2, 3],
        [4, 2, 6, 8, 5, 3, 7, 9, 1],
        [7, 1, 3, 9, 2, 4, 8, 5, 6],
        [9, 6, 1, 5, 3, 7, 2, 8, 4],
        [2, 8, 7, 4, 1, 9, 6, 3, 5],
        [3, 4, 5, 2, 8, 6, 1, 7, 9],
    ]);
    assert_eq!(solve(&full), Ok(full.clone()));
}
