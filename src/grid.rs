use vstd::prelude::*;

use crate::candidates::{lemma_count_positive, lemma_count_subset, lemma_full_has, CandidateSet, FULL_MASK};

verus! {

/// The side length of the grid.
pub const SIDE: usize = 9;

/// A cell: a fixed digit, or the digits that remain possible.
#[derive(Clone, Copy)]
pub enum SudokuCell {
    Solved(u16),
    Unsolved(CandidateSet),
}

/// A tentative assignment of `value` to the cell at `row`, `column`.
#[derive(Clone, Copy)]
pub struct Guess {
    pub value: u16,
    pub row: usize,
    pub column: usize,
}

/// Why a puzzle has no answer.
#[derive(Clone, Copy, Debug, PartialEq, Eq, Structural)]
pub enum SolveError {
    /// The input is not nine rows of nine digits from 0 to 9.
    MalformedInput,
    /// No grid that keeps the given digits satisfies the rules.
    Unsolvable,
}

/// Position of the cell at `r`, `c` in the row-major list of cells.
pub open spec fn idx(r: int, c: int) -> int {
    r * 9 + c
}

/// Whether `r`, `c` names a cell of the grid.
pub open spec fn in_grid(r: int, c: int) -> bool {
    0 <= r < 9 && 0 <= c < 9
}

/// The first row (or column) of the band (or stack) that holds `x`.
pub open spec fn box_start(x: int) -> int {
    if x < 3 {
        0
    } else if x < 6 {
        3
    } else {
        6
    }
}

/// Two distinct cells that share a row, a column or a box.
pub open spec fn peers(r1: int, c1: int, r2: int, c2: int) -> bool {
    !(r1 == r2 && c1 == c2) && (r1 == r2 || c1 == c2 || (box_start(r1) == box_start(r2)
        && box_start(c1) == box_start(c2)))
}

impl SudokuCell {
    /// A fixed cell holds a digit from 1 to 9.
    pub open spec fn wf(self) -> bool {
        match self {
            SudokuCell::Solved(d) => 1 <= d <= 9,
            SudokuCell::Unsolved(_) => true,
        }
    }

    /// Whether digit `d` may stand in this cell.
    pub open spec fn allows(self, d: int) -> bool {
        match self {
            SudokuCell::Solved(v) => v == d,
            SudokuCell::Unsolved(m) => m.has(d),
        }
    }

    /// This cell knows at least as much as `old`: a fixed digit stays, candidates only go,
    /// and a newly fixed digit was a candidate.
    pub open spec fn refines(self, old: SudokuCell) -> bool {
        match (old, self) {
            (SudokuCell::Solved(a), SudokuCell::Solved(b)) => a == b,
            (SudokuCell::Solved(_), SudokuCell::Unsolved(_)) => false,
            (SudokuCell::Unsolved(m), SudokuCell::Solved(d)) => m.has(d as int),
            (SudokuCell::Unsolved(m), SudokuCell::Unsolved(n)) => n.subset_of(m),
        }
    }

    /// How many choices are left open in this cell.
    pub open spec fn weight(self) -> nat {
        match self {
            SudokuCell::Solved(_) => 0,
            SudokuCell::Unsolved(m) => m.size(),
        }
    }

    /// The digit of a fixed cell, 0 for an open one.
    pub open spec fn digit(self) -> u16 {
        match self {
            SudokuCell::Solved(d) => d,
            SudokuCell::Unsolved(_) => 0,
        }
    }

    /// Whether the cell holds a fixed digit.
    pub fn is_solved(&self) -> (r: bool)
        ensures
            r == (*self is Solved),
    {
        match *self {
            SudokuCell::Solved(_) => true,
            _ => false,
        }
    }

    /// The digit of a fixed cell, 0 for an open one.
    pub fn value(&self) -> (r: u16)
        ensures
            r == self.digit(),
    {
        match *self {
            SudokuCell::Solved(d) => d,
            SudokuCell::Unsolved(_) => 0,
        }
    }
}

/// Eighty-one cells, row by row.
pub open spec fn grid_wf(g: Seq<SudokuCell>) -> bool {
    g.len() == 81 && forall|i: int| 0 <= i < 81 ==> (#[trigger] g[i]).wf()
}

/// Every cell of the grid is fixed.
pub open spec fn all_solved(g: Seq<SudokuCell>) -> bool {
    forall|i: int| 0 <= i < g.len() ==> #[trigger] g[i] is Solved
}

/// Every cell of `g` refines the same cell of `old`.
pub open spec fn refines_grid(g: Seq<SudokuCell>, old: Seq<SudokuCell>) -> bool {
    g.len() == old.len() && forall|i: int| 0 <= i < g.len() ==> (#[trigger] g[i]).refines(old[i])
}

/// Nine rows of nine digits from 0 to 9, 0 for a blank.
pub open spec fn rows_wf(rows: Seq<Seq<u16>>) -> bool {
    rows.len() == 9 && forall|r: int|
        0 <= r < 9 ==> (#[trigger] rows[r]).len() == 9 && forall|c: int|
            0 <= c < 9 ==> #[trigger] rows[r][c] <= 9
}

/// A filled grid: nine rows of nine digits from 1 to 9, where each row, each column and
/// each box holds each digit exactly once.
pub open spec fn is_solution(s: Seq<Seq<u16>>) -> bool {
    &&& s.len() == 9
    &&& forall|r: int| 0 <= r < 9 ==> (#[trigger] s[r]).len() == 9
    &&& forall|r: int, c: int| in_grid(r, c) ==> 1 <= #[trigger] s[r][c] <= 9
    &&& forall|r1: int, c1: int, r2: int, c2: int|
        in_grid(r1, c1) && in_grid(r2, c2) && peers(r1, c1, r2, c2) ==> #[trigger] s[r1][c1]
            != #[trigger] s[r2][c2]
    &&& covers(s)
}

/// Each row, each column and each box of `s` holds each digit from 1 to 9.
pub open spec fn covers(s: Seq<Seq<u16>>) -> bool {
    &&& forall|r: int, d: int| 0 <= r < 9 && 1 <= d <= 9 ==> #[trigger] row_holds(s, r, d)
    &&& forall|c: int, d: int| 0 <= c < 9 && 1 <= d <= 9 ==> #[trigger] column_holds(s, c, d)
    &&& forall|r: int, c: int, d: int|
        in_grid(r, c) && 1 <= d <= 9 ==> #[trigger] box_holds(s, box_start(r), box_start(c), d)
}

/// Row `r` of `s` holds digit `d`.
pub open spec fn row_holds(s: Seq<Seq<u16>>, r: int, d: int) -> bool {
    exists|c: int| 0 <= c < 9 && #[trigger] s[r][c] == d
}

/// Column `c` of `s` holds digit `d`.
pub open spec fn column_holds(s: Seq<Seq<u16>>, c: int, d: int) -> bool {
    exists|r: int| 0 <= r < 9 && #[trigger] s[r][c] == d
}

/// The box whose top left cell is `br`, `bc` holds digit `d`.
pub open spec fn box_holds(s: Seq<Seq<u16>>, br: int, bc: int, d: int) -> bool {
    exists|a: int, b: int| 0 <= a < 3 && 0 <= b < 3 && #[trigger] s[br + a][bc + b] == d
}

/// The filled grid `s` agrees with what `g` still allows in every cell.
pub open spec fn consistent(g: Seq<SudokuCell>, s: Seq<Seq<u16>>) -> bool {
    forall|r: int, c: int| in_grid(r, c) ==> (#[trigger] g[idx(r, c)]).allows(s[r][c] as int)
}

/// The filled grid `s` keeps every given (non-blank) digit of `rows`.
pub open spec fn extends(rows: Seq<Seq<u16>>, s: Seq<Seq<u16>>) -> bool {
    forall|r: int, c: int| in_grid(r, c) && #[trigger] rows[r][c] != 0 ==> s[r][c] == rows[r][c]
}

/// The cell that a digit of the input stands for: a blank opens it to every digit.
pub open spec fn cell_of_digit(v: u16) -> SudokuCell {
    if v == 0 {
        SudokuCell::Unsolved(CandidateSet { bits: FULL_MASK })
    } else {
        SudokuCell::Solved(v)
    }
}

/// `g` is the grid that the digits `rows` describe.
pub open spec fn describes(g: Seq<SudokuCell>, rows: Seq<Seq<u16>>) -> bool {
    g.len() == 81 && forall|r: int, c: int| in_grid(r, c) ==> #[trigger] g[idx(r, c)] == cell_of_digit(rows[r][c])
}

/// The digits of the grid, row by row, 0 for an open cell.
pub open spec fn rows_of_grid(g: Seq<SudokuCell>) -> Seq<Seq<u16>> {
    Seq::new(9, |r: int| Seq::new(9, |c: int| g[idx(r, c)].digit()))
}

/// The sum of the weights of the first `n` cells.
pub open spec fn freedom(g: Seq<SudokuCell>, n: int) -> nat
    decreases n,
{
    if n <= 0 {
        0
    } else {
        freedom(g, n - 1) + g[n - 1].weight()
    }
}

/// A cell that refines another weighs no more.
pub proof fn lemma_refines_weight(a: SudokuCell, b: SudokuCell)
    requires
        a.refines(b),
    ensures
        a.weight() <= b.weight(),
{
    if let (SudokuCell::Unsolved(n), SudokuCell::Unsolved(m)) = (a, b) {
        assert forall|d: int| #[trigger] crate::candidates::mask_has(n.bits, d) implies
            crate::candidates::mask_has(m.bits, d) by {
            assert(n.has(d));
        }
        lemma_count_subset(n.bits, m.bits, 9);
    }
}

/// Refining a grid never adds freedom; it takes some away where one cell loses weight.
pub proof fn lemma_freedom_refines(g: Seq<SudokuCell>, old: Seq<SudokuCell>, n: int)
    requires
        refines_grid(g, old),
        0 <= n <= g.len(),
    ensures
        freedom(g, n) <= freedom(old, n),
        (exists|j: int| 0 <= j < n && (#[trigger] g[j]).weight() < old[j].weight()) ==> freedom(g, n)
            < freedom(old, n),
    decreases n,
{
    if n > 0 {
        lemma_freedom_refines(g, old, n - 1);
        lemma_refines_weight(g[n - 1], old[n - 1]);
        if exists|j: int| 0 <= j < n && (#[trigger] g[j]).weight() < old[j].weight() {
            let j = choose|j: int| 0 <= j < n && (#[trigger] g[j]).weight() < old[j].weight();
            if j < n - 1 {
                assert(0 <= j < n - 1 && g[j].weight() < old[j].weight());
            }
        }
    }
}

/// Refinement is transitive: what two steps have taken away stays away.
pub proof fn lemma_refines_trans(a: Seq<SudokuCell>, b: Seq<SudokuCell>, c: Seq<SudokuCell>)
    requires
        refines_grid(a, b),
        refines_grid(b, c),
    ensures
        refines_grid(a, c),
{
    assert forall|i: int| 0 <= i < a.len() implies (#[trigger] a[i]).refines(c[i]) by {
        assert(a[i].refines(b[i]));
        assert(b[i].refines(c[i]));
    }
}

/// Excluding a guessed digit and then propagating never brings back a digit that was already
/// ruled out: where the grid after both steps still has an open cell, its candidates are a
/// subset of those that the cell had before the exclusion, and a digit fixed before stays.
pub proof fn lemma_exclusion_keeps_deductions(
    before: Seq<SudokuCell>,
    excluded: Seq<SudokuCell>,
    after: Seq<SudokuCell>,
)
    requires
        refines_grid(excluded, before),
        refines_grid(after, excluded),
    ensures
        refines_grid(after, before),
        forall|i: int|
            0 <= i < after.len() ==> match (#[trigger] before[i], after[i]) {
                (SudokuCell::Unsolved(m), SudokuCell::Unsolved(n)) => n.subset_of(m),
                (SudokuCell::Solved(a), cell) => cell == SudokuCell::Solved(a),
                (SudokuCell::Unsolved(m), SudokuCell::Solved(d)) => m.has(d as int),
            },
{
    lemma_refines_trans(after, excluded, before);
    assert forall|i: int| 0 <= i < after.len() implies match (#[trigger] before[i], after[i]) {
        (SudokuCell::Unsolved(m), SudokuCell::Unsolved(n)) => n.subset_of(m),
        (SudokuCell::Solved(a), cell) => cell == SudokuCell::Solved(a),
        (SudokuCell::Unsolved(m), SudokuCell::Solved(d)) => m.has(d as int),
    } by {
        assert(after[i].refines(before[i]));
    }
}

/// A grid refines itself.
pub proof fn lemma_refines_refl(a: Seq<SudokuCell>)
    ensures
        refines_grid(a, a),
{
    assert forall|i: int| 0 <= i < a.len() implies (#[trigger] a[i]).refines(a[i]) by {
        match a[i] {
            SudokuCell::Solved(_) => {},
            SudokuCell::Unsolved(m) => {
                assert(m.subset_of(m));
            },
        }
    }
}

/// A grid of cells, row by row.
pub struct SudokuGrid {
    pub cells: Vec<SudokuCell>,
}

impl View for SudokuGrid {
    type V = Seq<SudokuCell>;

    open spec fn view(&self) -> Seq<SudokuCell> {
        self.cells@
    }
}

/// The open cell has a candidate left.
pub open spec fn not_empty(cell: SudokuCell) -> bool {
    match cell {
        SudokuCell::Solved(_) => true,
        SudokuCell::Unsolved(m) => m.size() >= 1,
    }
}

/// A filled grid keeps the given digits of `rows` exactly when it agrees with the grid that
/// they describe.
pub proof fn lemma_describes_consistent(g: Seq<SudokuCell>, rows: Seq<Seq<u16>>, s: Seq<Seq<u16>>)
    requires
        describes(g, rows),
        is_solution(s),
    ensures
        consistent(g, s) == extends(rows, s),
{
    if consistent(g, s) {
        assert forall|r: int, c: int| in_grid(r, c) && #[trigger] rows[r][c] != 0 implies s[r][c]
            == rows[r][c] by {
            assert(g[idx(r, c)].allows(s[r][c] as int));
        }
    }
    if extends(rows, s) {
        assert forall|r: int, c: int| in_grid(r, c) implies (#[trigger] g[idx(r, c)]).allows(
            s[r][c] as int,
        ) by {
            if rows[r][c] == 0 {
                lemma_full_has(s[r][c] as int);
            }
        }
    }
}

/// A copy of every cell of the grid.
pub fn clone_grid(grid: &SudokuGrid) -> (r: SudokuGrid)
    ensures
        r@ == grid@,
{
    let mut cells: Vec<SudokuCell> = Vec::new();
    let mut i: usize = 0;
    while i < grid.cells.len()
        invariant
            i <= grid@.len(),
            cells@ == grid@.subrange(0, i as int),
        decreases grid@.len() - i,
    {
        cells.push(grid.cells[i]);
        i = i + 1;
    }
    assert(cells@ =~= grid@);
    SudokuGrid { cells }
}

/// Whether every cell of the grid is fixed.
pub fn check_solved(grid: &SudokuGrid) -> (r: bool)
    ensures
        r == all_solved(grid@),
{
    let mut i: usize = 0;
    while i < grid.cells.len()
        invariant
            i <= grid@.len(),
            forall|j: int| 0 <= j < i ==> #[trigger] grid@[j] is Solved,
        decreases grid@.len() - i,
    {
        if !grid.cells[i].is_solved() {
            return false;
        }
        i = i + 1;
    }
    true
}

/// The next guess: the first open cell, row by row, with its lowest candidate; `None` when
/// every cell is fixed.
pub fn suggest_guess(grid: &SudokuGrid) -> (r: Option<Guess>)
    requires
        grid_wf(grid@),
        forall|i: int| 0 <= i < 81 ==> not_empty(#[trigger] grid@[i]),
    ensures
        r is None <==> all_solved(grid@),
        r matches Some(g) ==> {
            &&& g.row < 9
            &&& g.column < 9
            &&& forall|j: int| 0 <= j < idx(g.row as int, g.column as int) ==> #[trigger] grid@[j] is Solved
            &&& (grid@[idx(g.row as int, g.column as int)] matches SudokuCell::Unsolved(m) && m.has(
                g.value as int,
            ) && forall|d: int| 1 <= d < g.value ==> !#[trigger] m.has(d))
        },
{
    let mut row: usize = 0;
    let mut column: usize = 0;
    let mut i: usize = 0;
    while i < 81
        invariant
            i <= 81,
            i == row * 9 + column,
            column < 9,
            grid_wf(grid@),
            forall|j: int| 0 <= j < 81 ==> not_empty(#[trigger] grid@[j]),
            forall|j: int| 0 <= j < i ==> #[trigger] grid@[j] is Solved,
        decreases 81 - i,
    {
        assert(row < 9);
        if let SudokuCell::Unsolved(m) = grid.cells[i] {
            proof {
                assert(not_empty(grid@[i as int]));
                lemma_count_positive(m.bits, 9);
                let d = choose|d: int| 1 <= d <= 9 && #[trigger] crate::candidates::mask_has(m.bits, d);
                assert(m.has(d));
            }
            let value = m.lowest();
            return Some(Guess { value, row, column });
        }
        i = i + 1;
        if column == 8 {
            column = 0;
            row = row + 1;
        } else {
            column = column + 1;
        }
    }
    None
}

/// Takes the guessed digit out of the candidates of the guessed cell, which must be open.
/// A single candidate left becomes the cell's digit. Returns false where none is left.
pub fn remove_possibility(grid: &mut SudokuGrid, guess: Guess) -> (r: bool)
    requires
        grid_wf(old(grid)@),
        guess.row < 9,
        guess.column < 9,
        old(grid)@[idx(guess.row as int, guess.column as int)] matches SudokuCell::Unsolved(m)
            && m.has(guess.value as int),
    ensures
        ({
            let i = idx(guess.row as int, guess.column as int);
            let rest = old(grid)@[i]->Unsolved_0.without(guess.value as int);
            &&& final(grid)@.len() == 81
            &&& forall|j: int| 0 <= j < 81 && j != i ==> #[trigger] final(grid)@[j] == old(grid)@[j]
            &&& r == (rest.size() > 0)
            &&& rest.size() == 1 ==> (final(grid)@[i] matches SudokuCell::Solved(v) && rest.has(v as int))
            &&& rest.size() != 1 ==> final(grid)@[i] == SudokuCell::Unsolved(rest)
        }),
        grid_wf(final(grid)@),
        refines_grid(final(grid)@, old(grid)@),
        forall|s: Seq<Seq<u16>>| #[trigger] is_solution(s) ==> (consistent(final(grid)@, s) == (
        consistent(old(grid)@, s) && s[guess.row as int][guess.column as int] != guess.value)),
{
    let i = guess.row * 9 + guess.column;
    let ghost before = grid@;
    if let SudokuCell::Unsolved(m) = grid.cells[i] {
        let rest = m.remove(guess.value);
        let n = rest.count();
        let cell = if n == 1 {
            SudokuCell::Solved(rest.sole_member())
        } else {
            SudokuCell::Unsolved(rest)
        };
        grid.cells.set(i, cell);
        proof {
            assert(rest.subset_of(m));
            assert(grid@[i as int].refines(before[i as int]));
            assert forall|s: Seq<Seq<u16>>| #[trigger] is_solution(s) implies (consistent(grid@, s)
                == (consistent(before, s) && s[guess.row as int][guess.column as int]
                != guess.value)) by {
                let x = s[guess.row as int][guess.column as int] as int;
                if consistent(grid@, s) {
                    assert(grid@[i as int].allows(x));
                    lemma_refines_consistent_grid(grid@, before, s);
                }
                if consistent(before, s) && x != guess.value {
                    assert forall|r: int, c: int| in_grid(r, c) implies (#[trigger] grid@[idx(
                        r,
                        c,
                    )]).allows(s[r][c] as int) by {
                        assert(before[idx(r, c)].allows(s[r][c] as int));
                        if idx(r, c) == i {
                            assert(r == guess.row && c == guess.column);
                            assert(rest.has(x));
                        }
                    }
                }
            }
        }
        n > 0
    } else {
        false
    }
}

/// A grid that refines another agrees with every filled grid that it agrees with.
pub proof fn lemma_refines_consistent_grid(g: Seq<SudokuCell>, old: Seq<SudokuCell>, s: Seq<Seq<u16>>)
    requires
        g.len() == 81,
        refines_grid(g, old),
        consistent(g, s),
    ensures
        consistent(old, s),
{
    assert forall|r: int, c: int| in_grid(r, c) implies (#[trigger] old[idx(r, c)]).allows(
        s[r][c] as int,
    ) by {
        assert(g[idx(r, c)].allows(s[r][c] as int));
        assert(g[idx(r, c)].refines(old[idx(r, c)]));
        if let SudokuCell::Unsolved(m) = old[idx(r, c)] {
            if let SudokuCell::Unsolved(n) = g[idx(r, c)] {
                assert(n.has(s[r][c] as int));
            }
        }
    }
}

/// The grid that the digits `rows` describe; `MalformedInput` unless they are nine rows of
/// nine digits from 0 to 9.
pub fn from_rows(rows: &Vec<Vec<u16>>) -> (r: Result<SudokuGrid, SolveError>)
    ensures
        r is Err <==> !rows_wf(rows.deep_view()),
        r is Err ==> r == Err::<SudokuGrid, SolveError>(SolveError::MalformedInput),
        r matches Ok(g) ==> describes(g@, rows.deep_view()) && grid_wf(g@),
{
    if rows.len() != SIDE {
        return Err(SolveError::MalformedInput);
    }
    let mut cells: Vec<SudokuCell> = Vec::new();
    let mut row: usize = 0;
    while row < SIDE
        invariant
            row <= 9,
            rows@.len() == 9,
            cells@.len() == row * 9,
            forall|r: int, c: int| 0 <= r < row && 0 <= c < 9 ==> (#[trigger] cells@[idx(r, c)])
                == cell_of_digit(rows.deep_view()[r][c]),
            forall|r: int| 0 <= r < row ==> (#[trigger] rows.deep_view()[r]).len() == 9 && forall|c: int|
                0 <= c < 9 ==> #[trigger] rows.deep_view()[r][c] <= 9,
        decreases 9 - row,
    {
        let line = &rows[row];
        if line.len() != SIDE {
            assert(rows.deep_view()[row as int].len() != 9);
            return Err(SolveError::MalformedInput);
        }
        let mut column: usize = 0;
        while column < SIDE
            invariant
                row < 9,
                column <= 9,
                rows@.len() == 9,
                line == rows@[row as int],
                line@.len() == 9,
                cells@.len() == row * 9 + column,
                forall|r: int, c: int| 0 <= r < row && 0 <= c < 9 ==> (#[trigger] cells@[idx(r, c)])
                    == cell_of_digit(rows.deep_view()[r][c]),
                forall|c: int| 0 <= c < column ==> (#[trigger] cells@[idx(row as int, c)])
                    == cell_of_digit(rows.deep_view()[row as int][c]),
                forall|r: int| 0 <= r < row ==> (#[trigger] rows.deep_view()[r]).len() == 9 && forall|c: int|
                    0 <= c < 9 ==> #[trigger] rows.deep_view()[r][c] <= 9,
                forall|c: int| 0 <= c < column ==> #[trigger] rows.deep_view()[row as int][c] <= 9,
            decreases 9 - column,
        {
            let v = line[column];
            assert(v == rows.deep_view()[row as int][column as int]);
            if v > 9 {
                return Err(SolveError::MalformedInput);
            }
            let cell = if v == 0 {
                SudokuCell::Unsolved(CandidateSet { bits: FULL_MASK })
            } else {
                SudokuCell::Solved(v)
            };
            cells.push(cell);
            column = column + 1;
        }
        row = row + 1;
    }
    let g = SudokuGrid { cells };
    proof {
        assert forall|i: int| 0 <= i < 81 implies (#[trigger] g@[i]).wf() by {
            let r = i / 9;
            let c = i % 9;
            assert(i == idx(r, c));
        }
    }
    Ok(g)
}

/// The digits of the grid, row by row, 0 for an open cell.
pub fn to_rows(grid: &SudokuGrid) -> (r: Vec<Vec<u16>>)
    requires
        grid@.len() == 81,
    ensures
        r.deep_view() == rows_of_grid(grid@),
{
    let mut out: Vec<Vec<u16>> = Vec::new();
    let mut row: usize = 0;
    while row < SIDE
        invariant
            row <= 9,
            grid@.len() == 81,
            out@.len() == row,
            forall|r: int| 0 <= r < row ==> (#[trigger] out@[r]).deep_view() == rows_of_grid(grid@)[r],
        decreases 9 - row,
    {
        let mut line: Vec<u16> = Vec::new();
        let mut column: usize = 0;
        while column < SIDE
            invariant
                row < 9,
                column <= 9,
                grid@.len() == 81,
                line@.len() == column,
                forall|c: int| 0 <= c < column ==> #[trigger] line@[c] == grid@[idx(row as int, c)].digit(),
            decreases 9 - column,
        {
            line.push(grid.cells[row * 9 + column].value());
            column = column + 1;
        }
        assert(line.deep_view() =~= rows_of_grid(grid@)[row as int]);
        out.push(line);
        row = row + 1;
    }
    assert(out.deep_view() =~= rows_of_grid(grid@));
    out
}

} // verus!
