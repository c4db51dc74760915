use sudoku_solver::{
    check_grid, check_solved, clone_grid, from_rows, propagate, remove_possibility, suggest_guess,
    to_rows, CandidateSet, Guess, SudokuCell, SudokuGrid, SudokuResult,
};

fn blank() -> Vec<Vec<u16>> {
    vec![vec![0u16; 9]; 9]
}

fn load(rows: &Vec<Vec<u16>>) -> SudokuGrid {
    from_rows(rows).unwrap()
}

fn candidates(grid: &SudokuGrid, r: usize, c: usize) -> Vec<u16> {
    match grid.cells[r * 9 + c] {
        SudokuCell::Unsolved(m) => (1..=9).filter(|d| m.contains(*d)).collect(),
        SudokuCell::Solved(_) => Vec::new(),
    }
}

fn solved_rows() -> Vec<Vec<u16>> {
    vec![
        vec![5, 3, 4, 6, 7, 8, 9, 1, 2],
        vec![6, 7, 2, 1, 9, 5, 3, 4, 8],
        vec![1, 9, 8, 3, 4, 2, 5, 6, 7],
        vec![8, 5, 9, 7, 6, 1, 4, 2, 3],
        vec![4, 2, 6, 8, 5, 3, 7, 9, 1],
        vec![7, 1, 3, 9, 2, 4, 8, 5, 6],
        vec![9, 6, 1, 5, 3, 7, 2, 8, 4],
        vec![2, 8, 7, 4, 1, 9, 6, 3, 5],
        vec![3, 4, 5, 2, 8, 6, 1, 7, 9],
    ]
}

#[test]
fn candidate_set_operations() {
    let full = CandidateSet::full();
    assert_eq!(full.count(), 9);
    for d in 1..=9 {
        assert!(full.contains(d));
    }
    let without_four = full.remove(4);
    assert!(!without_four.contains(4));
    assert!(without_four.contains(5));
    assert_eq!(without_four.count(), 8);
    assert_eq!(without_four.remove(4).count(), 8);
    let mut one = full;
    for d in 1..=9 {
        if d != 6 {
            one = one.remove(d);
        }
    }
    assert_eq!(one.count(), 1);
    assert_eq!(one.sole_member(), 6);
    assert_eq!(one.lowest(), 6);
    assert_eq!(full.remove(1).remove(2).lowest(), 3);
    assert_eq!(one.remove(6).count(), 0);
}

#[test]
fn cells_report_their_state() {
    assert!(SudokuCell::Solved(3).is_solved());
    assert_eq!(SudokuCell::Solved(3).value(), 3);
    assert!(!SudokuCell::Unsolved(CandidateSet::full()).is_solved());
    assert_eq!(SudokuCell::Unsolved(CandidateSet::full()).value(), 0);
    assert!(SudokuResult::Changed.is_changed());
    assert!(!SudokuResult::Unchanged.is_changed());
    assert!(!SudokuResult::Contradiction.is_changed());
}

#[test]
fn rows_round_trip_through_a_grid() {
    let mut rows = blank();
    rows[2][7] = 4;
    let grid = load(&rows);
    assert_eq!(to_rows(&grid), rows);
    assert_eq!(candidates(&grid, 0, 0), vec![1, 2, 3, 4, 5, 6, 7, 8, 9]);
    let copy = clone_grid(&grid);
    assert_eq!(to_rows(&copy), rows);
    assert!(!check_solved(&grid));
    assert!(check_solved(&load(&solved_rows())));
}

#[test]
fn sweep_fixes_a_cell_and_later_cells_see_it() {
    // Row 0 holds 1 to 8, so its last cell becomes 9 during the sweep; the cell below it
    // is visited later in the same sweep and already loses 9.
    let mut rows = blank();
    for c in 0..8 {
        rows[0][c] = c as u16 + 1;
    }
    let mut grid = load(&rows);
    assert_eq!(check_grid(&mut grid), SudokuResult::Changed);
    assert_eq!(grid.cells[8].value(), 9);
    assert!(!candidates(&grid, 1, 8).contains(&9));
    assert_eq!(candidates(&grid, 1, 8), vec![1, 2, 3, 4, 5, 6]);
}

#[test]
fn one_sweep_cascades_along_the_row() {
    // Cell (0, 7) is left with 8 alone and is fixed first; cell (0, 8), visited next in the
    // same sweep, then sees 1 to 8 in its row and is fixed to 9.
    let mut rows = blank();
    for c in 0..7 {
        rows[0][c] = c as u16 + 1;
    }
    rows[5][7] = 9;
    let mut grid = load(&rows);
    assert_eq!(check_grid(&mut grid), SudokuResult::Changed);
    assert_eq!(grid.cells[7].value(), 8);
    assert_eq!(grid.cells[8].value(), 9);
}

#[test]
fn sweep_reports_a_contradiction() {
    let mut rows = blank();
    for c in 0..8 {
        rows[0][c] = c as u16 + 1;
    }
    rows[5][8] = 9;
    let mut grid = load(&rows);
    assert_eq!(check_grid(&mut grid), SudokuResult::Contradiction);
}

#[test]
fn sweep_without_new_digit_is_unchanged() {
    let mut rows = blank();
    rows[4][4] = 5;
    let mut grid = load(&rows);
    assert_eq!(check_grid(&mut grid), SudokuResult::Unchanged);
    assert_eq!(candidates(&grid, 4, 0), vec![1, 2, 3, 4, 6, 7, 8, 9]);
    assert_eq!(candidates(&grid, 0, 0), vec![1, 2, 3, 4, 5, 6, 7, 8, 9]);
    assert_eq!(check_grid(&mut grid), SudokuResult::Unchanged);
}

#[test]
fn fixpoint_on_solved_grid_changes_nothing() {
    let mut grid = load(&solved_rows());
    assert_eq!(check_grid(&mut grid), SudokuResult::Unchanged);
    assert!(propagate(&mut grid));
    assert_eq!(to_rows(&grid), solved_rows());
}

#[test]
fn fixpoint_fills_a_nearly_solved_grid() {
    let mut rows = solved_rows();
    rows[0][0] = 0;
    rows[4][4] = 0;
    rows[8][8] = 0;
    let mut grid = load(&rows);
    assert!(propagate(&mut grid));
    assert_eq!(to_rows(&grid), solved_rows());
}

#[test]
fn guess_is_first_open_cell_with_lowest_candidate() {
    let mut rows = blank();
    rows[0][0] = 1;
    rows[0][1] = 2;
    let mut grid = load(&rows);
    assert!(propagate(&mut grid));
    let guess = suggest_guess(&grid).unwrap();
    assert_eq!((guess.value, guess.row, guess.column), (3, 0, 2));
    assert!(suggest_guess(&load(&solved_rows())).is_none());
}

#[test]
fn removal_excludes_the_guessed_digit() {
    let mut grid = load(&blank());
    let ok = remove_possibility(&mut grid, Guess { value: 1, row: 0, column: 0 });
    assert!(ok);
    assert_eq!(candidates(&grid, 0, 0), vec![2, 3, 4, 5, 6, 7, 8, 9]);
}

#[test]
fn removal_fixes_the_last_candidate() {
    let mut grid = load(&blank());
    let two = CandidateSet::full().remove(1).remove(3).remove(4).remove(5).remove(6).remove(7).remove(8);
    grid.cells[10] = SudokuCell::Unsolved(two);
    assert!(remove_possibility(&mut grid, Guess { value: 2, row: 1, column: 1 }));
    assert_eq!(grid.cells[10].value(), 9);
}

#[test]
fn removal_of_the_only_candidate_fails() {
    let mut grid = load(&blank());
    let mut one = CandidateSet::full();
    for d in 1..9 {
        one = one.remove(d);
    }
    grid.cells[0] = SudokuCell::Unsolved(one);
    assert!(!remove_possibility(&mut grid, Guess { value: 9, row: 0, column: 0 }));
}

#[test]
fn propagation_after_removal_only_narrows() {
    let mut rows = blank();
    rows[0][3] = 4;
    rows[3][0] = 7;
    let mut grid = load(&rows);
    assert!(propagate(&mut grid));
    let before = clone_grid(&grid);
    let guess = suggest_guess(&grid).unwrap();
    assert!(remove_possibility(&mut grid, guess));
    assert!(propagate(&mut grid));
    for r in 0..9 {
        for c in 0..9 {
            match (before.cells[r * 9 + c], grid.cells[r * 9 + c]) {
                (SudokuCell::Solved(a), SudokuCell::Solved(b)) => assert_eq!(a, b),
                (SudokuCell::Solved(_), SudokuCell::Unsolved(_)) => panic!("a fixed digit came undone"),
                (SudokuCell::Unsolved(m), SudokuCell::Solved(d)) => assert!(m.contains(d)),
                (SudokuCell::Unsolved(m), SudokuCell::Unsolved(n)) => {
                    for d in 1..=9 {
                        assert!(!n.contains(d) || m.contains(d));
                    }
                }
            }
        }
    }
    assert!(!candidates(&grid, 0, 0).contains(&guess.value));
}
