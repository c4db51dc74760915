use vstd::prelude::*;

use crate::candidates::{lemma_count_has, lemma_count_subset, mask_has};
use crate::grid::{
    all_solved, box_holds, box_start, clone_grid, column_holds, consistent, covers, extends,
    freedom, from_rows, grid_wf, idx, in_grid, is_solution, lemma_describes_consistent,
    lemma_freedom_refines, lemma_refines_consistent_grid, lemma_refines_trans, not_empty, peers,
    refines_grid, remove_possibility, row_holds, rows_of_grid, rows_wf, suggest_guess, to_rows,
    Guess, SolveError, SudokuCell, SudokuGrid,
};
use crate::propagate::{propagate, settled, settled_cell};

verus! {

/// No two cells of the same row, column or box are fixed to the same digit.
pub open spec fn clash_free(g: Seq<SudokuCell>) -> bool {
    forall|r1: int, c1: int, r2: int, c2: int|
        in_grid(r1, c1) && in_grid(r2, c2) && peers(r1, c1, r2, c2) && g[idx(r1, c1)] is Solved
            && g[idx(r2, c2)] is Solved ==> (#[trigger] g[idx(r1, c1)]).digit() != (#[trigger] g[idx(
            r2,
            c2,
        )]).digit()
}

/// The first row (or column) of the band (or stack) that holds `x`.
fn box_start_of(x: usize) -> (r: usize)
    ensures
        r == box_start(x as int),
{
    if x < 3 {
        0
    } else if x < 6 {
        3
    } else {
        6
    }
}

/// Whether two cells are distinct and share a row, a column or a box.
fn are_peers(r1: usize, c1: usize, r2: usize, c2: usize) -> (r: bool)
    ensures
        r == peers(r1 as int, c1 as int, r2 as int, c2 as int),
{
    !(r1 == r2 && c1 == c2) && (r1 == r2 || c1 == c2 || (box_start_of(r1) == box_start_of(r2)
        && box_start_of(c1) == box_start_of(c2)))
}

/// Whether no two cells of the same row, column or box are fixed to the same digit.
pub fn no_clash(grid: &SudokuGrid) -> (r: bool)
    requires
        grid_wf(grid@),
    ensures
        r == clash_free(grid@),
{
    let mut i: usize = 0;
    let mut r1: usize = 0;
    let mut c1: usize = 0;
    while i < 81
        invariant
            i <= 81,
            i == r1 * 9 + c1,
            c1 < 9,
            grid_wf(grid@),
            forall|a1: int, b1: int, a2: int, b2: int|
                in_grid(a1, b1) && in_grid(a2, b2) && idx(a1, b1) < i && peers(a1, b1, a2, b2)
                    && grid@[idx(a1, b1)] is Solved && grid@[idx(a2, b2)] is Solved ==> (
                #[trigger] grid@[idx(a1, b1)]).digit() != (#[trigger] grid@[idx(a2, b2)]).digit(),
        decreases 81 - i,
    {
        assert(r1 < 9);
        let first = grid.cells[i];
        let mut j: usize = 0;
        let mut r2: usize = 0;
        let mut c2: usize = 0;
        while j < 81
            invariant
                i < 81,
                i == r1 * 9 + c1,
                r1 < 9,
                c1 < 9,
                j <= 81,
                j == r2 * 9 + c2,
                c2 < 9,
                grid_wf(grid@),
                first == grid@[i as int],
                forall|a1: int, b1: int, a2: int, b2: int|
                    in_grid(a1, b1) && in_grid(a2, b2) && idx(a1, b1) < i && peers(a1, b1, a2, b2)
                        && grid@[idx(a1, b1)] is Solved && grid@[idx(a2, b2)] is Solved ==> (
                    #[trigger] grid@[idx(a1, b1)]).digit() != (#[trigger] grid@[idx(a2, b2)]).digit(),
                forall|a2: int, b2: int|
                    in_grid(a2, b2) && idx(a2, b2) < j && peers(r1 as int, c1 as int, a2, b2)
                        && first is Solved && grid@[idx(a2, b2)] is Solved ==> first.digit() != (
                    #[trigger] grid@[idx(a2, b2)]).digit(),
            decreases 81 - j,
        {
            assert(r2 < 9);
            let second = grid.cells[j];
            if first.is_solved() && second.is_solved() && are_peers(r1, c1, r2, c2) && first.value()
                == second.value() {
                assert(grid@[idx(r1 as int, c1 as int)] == first);
                assert(grid@[idx(r2 as int, c2 as int)] == second);
                return false;
            }
            j = j + 1;
            if c2 == 8 {
                c2 = 0;
                r2 = r2 + 1;
            } else {
                c2 = c2 + 1;
            }
        }
        assert forall|a1: int, b1: int, a2: int, b2: int|
            in_grid(a1, b1) && in_grid(a2, b2) && idx(a1, b1) < i + 1 && peers(a1, b1, a2, b2)
                && grid@[idx(a1, b1)] is Solved && grid@[idx(a2, b2)] is Solved implies (
            #[trigger] grid@[idx(a1, b1)]).digit() != (#[trigger] grid@[idx(a2, b2)]).digit() by {
            if idx(a1, b1) == i {
                assert(a1 == r1 && b1 == c1);
                assert(idx(a2, b2) < 81);
            }
        }
        i = i + 1;
        if c1 == 8 {
            c1 = 0;
            r1 = r1 + 1;
        } else {
            c1 = c1 + 1;
        }
    }
    true
}

/// Whether row `r` of the grid has a cell fixed to `d`.
fn row_has(grid: &SudokuGrid, r: usize, d: u16) -> (res: bool)
    requires
        grid@.len() == 81,
        r < 9,
    ensures
        res == row_holds(rows_of_grid(grid@), r as int, d as int),
{
    let ghost s = rows_of_grid(grid@);
    let mut c: usize = 0;
    while c < 9
        invariant
            c <= 9,
            r < 9,
            grid@.len() == 81,
            s == rows_of_grid(grid@),
            forall|k: int| 0 <= k < c ==> #[trigger] s[r as int][k] != d,
        decreases 9 - c,
    {
        if grid.cells[r * 9 + c].value() == d {
            assert(s[r as int][c as int] == d);
            return true;
        }
        c = c + 1;
    }
    false
}

/// Whether column `c` of the grid has a cell fixed to `d`.
fn column_has(grid: &SudokuGrid, c: usize, d: u16) -> (res: bool)
    requires
        grid@.len() == 81,
        c < 9,
    ensures
        res == column_holds(rows_of_grid(grid@), c as int, d as int),
{
    let ghost s = rows_of_grid(grid@);
    let mut r: usize = 0;
    while r < 9
        invariant
            r <= 9,
            c < 9,
            grid@.len() == 81,
            s == rows_of_grid(grid@),
            forall|k: int| 0 <= k < r ==> #[trigger] s[k][c as int] != d,
        decreases 9 - r,
    {
        if grid.cells[r * 9 + c].value() == d {
            assert(s[r as int][c as int] == d);
            return true;
        }
        r = r + 1;
    }
    false
}

/// Whether the box whose top left cell is `br`, `bc` has a cell fixed to `d`.
fn box_has(grid: &SudokuGrid, br: usize, bc: usize, d: u16) -> (res: bool)
    requires
        grid@.len() == 81,
        br <= 6,
        bc <= 6,
    ensures
        res == box_holds(rows_of_grid(grid@), br as int, bc as int, d as int),
{
    let ghost s = rows_of_grid(grid@);
    let mut a: usize = 0;
    while a < 3
        invariant
            a <= 3,
            br <= 6,
            bc <= 6,
            grid@.len() == 81,
            s == rows_of_grid(grid@),
            forall|a2: int, b2: int| 0 <= a2 < a && 0 <= b2 < 3 ==> #[trigger] s[br + a2][bc + b2] != d,
        decreases 3 - a,
    {
        let mut b: usize = 0;
        while b < 3
            invariant
                a < 3,
                b <= 3,
                br <= 6,
                bc <= 6,
                grid@.len() == 81,
                s == rows_of_grid(grid@),
                forall|a2: int, b2: int|
                    0 <= a2 < a && 0 <= b2 < 3 ==> #[trigger] s[br + a2][bc + b2] != d,
                forall|b2: int| 0 <= b2 < b ==> #[trigger] s[br + a][bc + b2] != d,
            decreases 3 - b,
        {
            if grid.cells[(br + a) * 9 + bc + b].value() == d {
                assert(s[br + a][bc + b] == d);
                return true;
            }
            b = b + 1;
        }
        a = a + 1;
    }
    false
}

/// Whether each row, each column and each box of the grid has each digit from 1 to 9.
pub fn covers_all(grid: &SudokuGrid) -> (res: bool)
    requires
        grid@.len() == 81,
    ensures
        res == covers(rows_of_grid(grid@)),
{
    let ghost s = rows_of_grid(grid@);
    let mut k: usize = 0;
    while k < 9
        invariant
            k <= 9,
            grid@.len() == 81,
            s == rows_of_grid(grid@),
            forall|r: int, d: int| 0 <= r < k && 1 <= d <= 9 ==> #[trigger] row_holds(s, r, d),
            forall|c: int, d: int| 0 <= c < k && 1 <= d <= 9 ==> #[trigger] column_holds(s, c, d),
        decreases 9 - k,
    {
        let mut d: u16 = 1;
        while d <= 9
            invariant
                k < 9,
                1 <= d <= 10,
                grid@.len() == 81,
                s == rows_of_grid(grid@),
                forall|r: int, e: int| 0 <= r < k && 1 <= e <= 9 ==> #[trigger] row_holds(s, r, e),
                forall|c: int, e: int| 0 <= c < k && 1 <= e <= 9 ==> #[trigger] column_holds(s, c, e),
                forall|e: int| 1 <= e < d ==> #[trigger] row_holds(s, k as int, e),
                forall|e: int| 1 <= e < d ==> #[trigger] column_holds(s, k as int, e),
            decreases 10 - d,
        {
            if !row_has(grid, k, d) || !column_has(grid, k, d) {
                return false;
            }
            d = d + 1;
        }
        k = k + 1;
    }
    let mut i: usize = 0;
    let mut r: usize = 0;
    let mut c: usize = 0;
    while i < 81
        invariant
            i <= 81,
            i == r * 9 + c,
            c < 9,
            grid@.len() == 81,
            s == rows_of_grid(grid@),
            forall|r2: int, d: int| 0 <= r2 < 9 && 1 <= d <= 9 ==> #[trigger] row_holds(s, r2, d),
            forall|c2: int, d: int| 0 <= c2 < 9 && 1 <= d <= 9 ==> #[trigger] column_holds(s, c2, d),
            forall|r2: int, c2: int, d: int|
                in_grid(r2, c2) && idx(r2, c2) < i && 1 <= d <= 9 ==> #[trigger] box_holds(
                    s,
                    box_start(r2),
                    box_start(c2),
                    d,
                ),
        decreases 81 - i,
    {
        assert(r < 9);
        let br = box_start_of(r);
        let bc = box_start_of(c);
        let mut d: u16 = 1;
        while d <= 9
            invariant
                r < 9,
                c < 9,
                1 <= d <= 10,
                br == box_start(r as int),
                bc == box_start(c as int),
                grid@.len() == 81,
                s == rows_of_grid(grid@),
                forall|e: int| 1 <= e < d ==> #[trigger] box_holds(s, br as int, bc as int, e),
            decreases 10 - d,
        {
            if !box_has(grid, br, bc, d) {
                assert(!box_holds(s, box_start(r as int), box_start(c as int), d as int));
                return false;
            }
            d = d + 1;
        }
        i = i + 1;
        if c == 8 {
            c = 0;
            r = r + 1;
        } else {
            c = c + 1;
        }
    }
    true
}

/// Whether a grid whose cells are all fixed is a solution.
pub fn check_answer(grid: &SudokuGrid) -> (res: bool)
    requires
        grid_wf(grid@),
        all_solved(grid@),
    ensures
        res == is_solution(rows_of_grid(grid@)),
{
    let ghost s = rows_of_grid(grid@);
    let distinct = no_clash(grid);
    let full = covers_all(grid);
    proof {
        assert forall|r: int, c: int| in_grid(r, c) implies 1 <= #[trigger] s[r][c] <= 9 by {
            assert(grid@[idx(r, c)].wf());
        }
        assert forall|r: int| 0 <= r < 9 implies (#[trigger] s[r]).len() == 9 by {}
        let pairs = forall|r1: int, c1: int, r2: int, c2: int|
            in_grid(r1, c1) && in_grid(r2, c2) && peers(r1, c1, r2, c2) ==> #[trigger] s[r1][c1]
                != #[trigger] s[r2][c2];
        if distinct {
            assert forall|r1: int, c1: int, r2: int, c2: int|
                in_grid(r1, c1) && in_grid(r2, c2) && peers(r1, c1, r2, c2) implies #[trigger] s[r1][c1]
                    != #[trigger] s[r2][c2] by {
                assert(grid@[idx(r1, c1)] is Solved);
                assert(grid@[idx(r2, c2)] is Solved);
            }
        }
        if pairs {
            assert forall|r1: int, c1: int, r2: int, c2: int|
                in_grid(r1, c1) && in_grid(r2, c2) && peers(r1, c1, r2, c2) && grid@[idx(r1, c1)] is Solved
                    && grid@[idx(r2, c2)] is Solved implies (#[trigger] grid@[idx(r1, c1)]).digit() != (
                #[trigger] grid@[idx(r2, c2)]).digit() by {
                assert(s[r1][c1] != s[r2][c2]);
            }
        }
    }
    distinct && full
}

/// An open cell of a settled grid has a candidate.
proof fn lemma_settled_not_empty(g: Seq<SudokuCell>)
    requires
        g.len() == 81,
        settled(g),
    ensures
        forall|i: int| 0 <= i < 81 ==> not_empty(#[trigger] g[i]),
{
    assert forall|i: int| 0 <= i < 81 implies not_empty(#[trigger] g[i]) by {
        let r = i / 9;
        let c = i % 9;
        assert(i == idx(r, c));
        assert(settled_cell(g, r, c));
    }
}

/// A grid with every cell fixed agrees with one filled grid only: its own digits.
proof fn lemma_solved_consistent(g: Seq<SudokuCell>, s: Seq<Seq<u16>>)
    requires
        grid_wf(g),
        all_solved(g),
        is_solution(s),
    ensures
        consistent(g, s) == (s == rows_of_grid(g)),
        consistent(g, rows_of_grid(g)),
{
    let t = rows_of_grid(g);
    assert forall|r: int, c: int| in_grid(r, c) implies (#[trigger] g[idx(r, c)]).allows(
        t[r][c] as int,
    ) by {
        assert(g[idx(r, c)] is Solved);
    }
    if consistent(g, s) {
        assert forall|r: int| 0 <= r < 9 implies (#[trigger] s[r]) =~= t[r] by {
            assert forall|c: int| 0 <= c < 9 implies #[trigger] s[r][c] == t[r][c] by {
                assert(g[idx(r, c)].allows(s[r][c] as int));
                assert(g[idx(r, c)] is Solved);
            }
        }
        assert(s =~= t);
    }
}

/// A snapshot of the grid taken just before `guess` was fixed in it.
pub struct Checkpoint {
    pub snapshot: SudokuGrid,
    pub guess: Guess,
}

/// `guess` names an open cell of `g` and one of that cell's candidates.
pub open spec fn guess_fits(g: Seq<SudokuCell>, guess: Guess) -> bool {
    &&& guess.row < 9
    &&& guess.column < 9
    &&& (g[idx(guess.row as int, guess.column as int)] matches SudokuCell::Unsolved(m) && m.has(
        guess.value as int,
    ))
}

/// A checkpoint of a search that started from `start`.
pub open spec fn checkpoint_ok(cp: Checkpoint, start: Seq<SudokuCell>) -> bool {
    &&& grid_wf(cp.snapshot@)
    &&& guess_fits(cp.snapshot@, cp.guess)
    &&& refines_grid(cp.snapshot@, start)
}

/// The filled grid `s` agrees with the checkpoint's snapshot but not with its guess: it is
/// still to be found by backtracking to this checkpoint.
pub open spec fn left_open(cp: Checkpoint, s: Seq<Seq<u16>>) -> bool {
    consistent(cp.snapshot@, s) && s[cp.guess.row as int][cp.guess.column as int] != cp.guess.value
}

/// Some checkpoint of the frontier leaves `s` open.
pub open spec fn some_left_open(fr: Seq<Checkpoint>, s: Seq<Seq<u16>>) -> bool {
    exists|k: int| 0 <= k < fr.len() && #[trigger] left_open(fr[k], s)
}

/// A bound on the search steps that a grid with `f` choices left can take: one step, then
/// the guess and its exclusion, each with fewer choices.
pub open spec fn budget(f: nat) -> nat
    decreases f,
{
    if f == 0 {
        1
    } else {
        2 * budget((f - 1) as nat) + 1
    }
}

/// The steps left to a checkpoint once its guess is excluded.
pub open spec fn entry_budget(cp: Checkpoint) -> nat {
    budget((freedom(cp.snapshot@, 81) - 1) as nat)
}

/// The steps left to all checkpoints of the frontier.
pub open spec fn frontier_budget(fr: Seq<Checkpoint>) -> nat
    decreases fr.len(),
{
    if fr.len() == 0 {
        0
    } else {
        frontier_budget(fr.drop_last()) + entry_budget(fr.last())
    }
}

proof fn lemma_budget_monotone(a: nat, b: nat)
    requires
        a <= b,
    ensures
        budget(a) <= budget(b),
    decreases b,
{
    if a < b {
        lemma_budget_monotone(a, (b - 1) as nat);
    }
}

proof fn lemma_freedom_at_least(g: Seq<SudokuCell>, n: int, i: int)
    requires
        0 <= i < n <= g.len(),
    ensures
        freedom(g, n) >= g[i].weight(),
    decreases n,
{
    if i < n - 1 {
        lemma_freedom_at_least(g, n - 1, i);
    }
}

proof fn lemma_frontier_push(fr: Seq<Checkpoint>, cp: Checkpoint)
    ensures
        frontier_budget(fr.push(cp)) == frontier_budget(fr) + entry_budget(cp),
{
    assert(fr.push(cp).drop_last() =~= fr);
}

/// A grid with a guess fitted to it has a choice left.
proof fn lemma_guess_freedom(g: Seq<SudokuCell>, guess: Guess)
    requires
        grid_wf(g),
        guess_fits(g, guess),
    ensures
        freedom(g, 81) >= 1,
{
    let i = idx(guess.row as int, guess.column as int);
    let m = g[i]->Unsolved_0;
    lemma_count_has(m.bits, 9, guess.value as int);
    lemma_freedom_at_least(g, 81, i);
}

/// A copy of the grid with the guessed digit fixed in the guessed cell.
fn force(grid: &SudokuGrid, guess: Guess) -> (r: SudokuGrid)
    requires
        grid_wf(grid@),
        guess_fits(grid@, guess),
    ensures
        r@ == grid@.update(idx(guess.row as int, guess.column as int), SudokuCell::Solved(guess.value)),
        grid_wf(r@),
        refines_grid(r@, grid@),
        freedom(r@, 81) < freedom(grid@, 81),
        forall|s: Seq<Seq<u16>>|
            #[trigger] is_solution(s) && consistent(grid@, s) && s[guess.row as int][guess.column as int]
                == guess.value ==> consistent(r@, s),
{
    let i = guess.row * 9 + guess.column;
    let mut r = clone_grid(grid);
    r.cells.set(i, SudokuCell::Solved(guess.value));
    proof {
        let g = grid@;
        let m = g[i as int]->Unsolved_0;
        lemma_count_has(m.bits, 9, guess.value as int);
        crate::grid::lemma_refines_refl(g);
        assert forall|j: int| 0 <= j < 81 implies (#[trigger] r@[j]).refines(g[j]) by {
            assert(g[j].refines(g[j]));
        }
        assert(r@[i as int].weight() < g[i as int].weight());
        lemma_freedom_refines(r@, g, 81);
        assert forall|s: Seq<Seq<u16>>|
            #[trigger] is_solution(s) && consistent(g, s) && s[guess.row as int][guess.column as int]
                == guess.value implies consistent(r@, s) by {
            assert forall|rr: int, c: int| in_grid(rr, c) implies (#[trigger] r@[idx(rr, c)]).allows(
                s[rr][c] as int,
            ) by {
                assert(g[idx(rr, c)].allows(s[rr][c] as int));
                if idx(rr, c) == i {
                    assert(rr == guess.row && c == guess.column);
                }
            }
        }
    }
    r
}

/// How backtracking ended.
enum Resume {
    /// A snapshot came out filled and valid.
    Found(Vec<Vec<u16>>),
    /// A snapshot survived; the search goes on from this grid, with a new guess fixed.
    Continue(SudokuGrid),
    /// No checkpoint is left: the frontier is exhausted.
    Exhausted,
}

/// Unwinds the frontier after a contradiction. It pops the latest checkpoint, excludes the
/// guess from its snapshot and propagates; where that contradicts too, it pops again. A
/// snapshot that survives gets a new guess and goes back on the frontier, and the grid with
/// that guess fixed is handed back. A snapshot that comes out filled is checked and, where
/// valid, handed back as the answer.
fn backtrack(frontier: &mut Vec<Checkpoint>, start: Ghost<Seq<SudokuCell>>) -> (r: Resume)
    requires
        forall|k: int| 0 <= k < old(frontier)@.len() ==> #[trigger] checkpoint_ok(old(frontier)@[k], start@),
    ensures
        forall|k: int| 0 <= k < final(frontier)@.len() ==> #[trigger] checkpoint_ok(final(frontier)@[k], start@),
        r matches Resume::Found(out) ==> is_solution(out.deep_view()) && consistent(start@, out.deep_view()),
        r is Exhausted ==> forall|s: Seq<Seq<u16>>| #[trigger] is_solution(s) ==> !some_left_open(
            old(frontier)@,
            s,
        ),
        r matches Resume::Continue(w) ==> {
            &&& grid_wf(w@)
            &&& refines_grid(w@, start@)
            &&& frontier_budget(final(frontier)@) + budget(freedom(w@, 81)) < frontier_budget(old(frontier)@)
            &&& forall|s: Seq<Seq<u16>>| #[trigger] is_solution(s) && some_left_open(old(frontier)@, s)
                ==> consistent(w@, s) || some_left_open(final(frontier)@, s)
        },
{
    let ghost st = start@;
    loop
        invariant
            st == start@,
            forall|k: int| 0 <= k < frontier@.len() ==> #[trigger] checkpoint_ok(frontier@[k], st),
            frontier_budget(frontier@) <= frontier_budget(old(frontier)@),
            forall|s: Seq<Seq<u16>>| #[trigger] is_solution(s) && some_left_open(old(frontier)@, s)
                ==> some_left_open(frontier@, s),
        decreases frontier@.len(),
    {
        let ghost before = frontier@;
        match frontier.pop() {
            None => {
                return Resume::Exhausted;
            },
            Some(cp) => {
                let ghost rest = frontier@;
                proof {
                    assert(before.len() > 0);
                    assert(cp == before.last());
                    assert(rest == before.drop_last());
                    assert(checkpoint_ok(before[before.len() - 1], st));
                    assert forall|k: int| 0 <= k < rest.len() implies #[trigger] checkpoint_ok(rest[k], st) by {
                        assert(rest[k] == before[k]);
                    }
                    assert forall|s: Seq<Seq<u16>>| #[trigger] is_solution(s) && some_left_open(before, s)
                        && !left_open(cp, s) implies some_left_open(rest, s) by {
                        let k = choose|k: int| 0 <= k < before.len() && #[trigger] left_open(before[k], s);
                        assert(k != before.len() - 1);
                        assert(rest[k] == before[k]);
                    }
                }
                let Checkpoint { snapshot, guess } = cp;
                let mut snap = snapshot;
                let ghost snap0 = snap@;
                let ghost i = idx(guess.row as int, guess.column as int);
                let ghost m = snap0[i]->Unsolved_0;
                let ghost v = guess.value as int;
                let mut dead = true;
                if remove_possibility(&mut snap, guess) {
                    let ghost removed = snap@;
                    proof {
                        let rest_m = m.without(v);
                        crate::candidates::lemma_without(m, v);
                        assert(!rest_m.has(v));
                        assert forall|d: int| #[trigger] mask_has(rest_m.bits, d) implies mask_has(m.bits, d) by {
                            assert(rest_m.has(d));
                        }
                        lemma_count_subset(rest_m.bits, m.bits, 9);
                        assert(removed[i].weight() < snap0[i].weight());
                        lemma_freedom_refines(removed, snap0, 81);
                        lemma_refines_trans(removed, snap0, st);
                    }
                    if propagate(&mut snap) {
                        proof {
                            lemma_freedom_refines(snap@, removed, 81);
                            lemma_refines_trans(snap@, removed, st);
                            lemma_settled_not_empty(snap@);
                        }
                        match suggest_guess(&snap) {
                            None => {
                                if check_answer(&snap) {
                                    let out = to_rows(&snap);
                                    proof {
                                        lemma_solved_consistent(snap@, rows_of_grid(snap@));
                                        lemma_refines_consistent_grid(snap@, st, out.deep_view());
                                    }
                                    return Resume::Found(out);
                                }
                                proof {
                                    assert forall|s: Seq<Seq<u16>>| #[trigger] is_solution(s) implies !consistent(snap@, s) by {
                                        lemma_solved_consistent(snap@, s);
                                    }
                                }
                            },
                            Some(g) => {
                                let w = force(&snap, g);
                                let ghost p = snap@;
                                let ncp = Checkpoint { snapshot: snap, guess: g };
                                frontier.push(ncp);
                                proof {
                                    lemma_frontier_push(rest, ncp);
                                    lemma_guess_freedom(p, g);
                                    lemma_guess_freedom(snap0, guess);
                                    let fp = freedom(p, 81);
                                    let fs = freedom(snap0, 81);
                                    lemma_budget_monotone(freedom(w@, 81), (fp - 1) as nat);
                                    lemma_budget_monotone(fp, (fs - 1) as nat);
                                    assert(budget(fp) == 2 * budget((fp - 1) as nat) + 1);
                                    assert(frontier_budget(before) == frontier_budget(rest) + entry_budget(cp));
                                    lemma_refines_trans(w@, p, st);
                                    assert(checkpoint_ok(ncp, st));
                                    assert forall|k: int| 0 <= k < frontier@.len() implies #[trigger] checkpoint_ok(frontier@[k], st) by {
                                        if k < rest.len() {
                                            assert(frontier@[k] == rest[k]);
                                        }
                                    }
                                    assert forall|s: Seq<Seq<u16>>| #[trigger] is_solution(s) && some_left_open(old(frontier)@, s)
                                        implies consistent(w@, s) || some_left_open(frontier@, s) by {
                                        if left_open(cp, s) {
                                            assert(consistent(removed, s));
                                            assert(consistent(p, s));
                                            if s[g.row as int][g.column as int] != g.value {
                                                assert(left_open(frontier@[rest.len() as int], s));
                                            }
                                        } else {
                                            let k = choose|k: int| 0 <= k < rest.len() && #[trigger] left_open(rest[k], s);
                                            assert(frontier@[k] == rest[k]);
                                        }
                                    }
                                }
                                return Resume::Continue(w);
                            },
                        }
                    }
                } else {
                    proof {
                        assert forall|s: Seq<Seq<u16>>| #[trigger] is_solution(s) implies !consistent(snap@, s) by {
                            if consistent(snap@, s) {
                                let x = s[guess.row as int][guess.column as int] as int;
                                assert(snap@[i].allows(x));
                                crate::candidates::lemma_without(m, v);
                                lemma_count_has(m.without(v).bits, 9, x);
                            }
                        }
                    }
                }
                proof {
                    assert forall|s: Seq<Seq<u16>>| #[trigger] is_solution(s) && some_left_open(old(frontier)@, s)
                        implies some_left_open(rest, s) by {
                        assert(some_left_open(before, s));
                        if left_open(cp, s) {
                            assert(false);
                        }
                    }
                    assert(frontier_budget(before) == frontier_budget(rest) + entry_budget(cp));
                }
            },
        }
    }
}

/// The backtracking search from a settled grid. The frontier holds the checkpoints of the
/// decisions on the current path, the latest last. Each round fixes the current guess in the
/// working grid and propagates. A grid that comes out filled and valid is the answer; one
/// that is open becomes a checkpoint with a new guess; on a contradiction the frontier is
/// unwound. The search ends with no answer when the frontier is exhausted.
fn search(start: SudokuGrid) -> (r: Option<Vec<Vec<u16>>>)
    requires
        grid_wf(start@),
        settled(start@),
    ensures
        r matches Some(out) ==> is_solution(out.deep_view()) && consistent(start@, out.deep_view()),
        r is None ==> forall|s: Seq<Seq<u16>>| #[trigger] is_solution(s) ==> !consistent(start@, s),
{
    let ghost st = start@;
    proof {
        lemma_settled_not_empty(st);
        crate::grid::lemma_refines_refl(st);
    }
    let first = match suggest_guess(&start) {
        None => {
            if check_answer(&start) {
                let out = to_rows(&start);
                proof {
                    lemma_solved_consistent(st, rows_of_grid(st));
                }
                return Some(out);
            }
            proof {
                assert forall|s: Seq<Seq<u16>>| #[trigger] is_solution(s) implies !consistent(st, s) by {
                    lemma_solved_consistent(st, s);
                }
            }
            return None;
        },
        Some(g) => g,
    };
    let mut working = force(&start, first);
    let mut frontier: Vec<Checkpoint> = Vec::new();
    let cp = Checkpoint { snapshot: start, guess: first };
    frontier.push(cp);
    proof {
        assert(checkpoint_ok(frontier@[0], st));
        assert forall|s: Seq<Seq<u16>>| #[trigger] is_solution(s) && consistent(st, s) implies consistent(
            working@,
            s,
        ) || some_left_open(frontier@, s) by {
            if s[first.row as int][first.column as int] != first.value {
                assert(left_open(frontier@[0], s));
            }
        }
    }
    loop
        invariant
            st == start@,
            grid_wf(working@),
            refines_grid(working@, st),
            forall|k: int| 0 <= k < frontier@.len() ==> #[trigger] checkpoint_ok(frontier@[k], st),
            forall|s: Seq<Seq<u16>>| #[trigger] is_solution(s) && consistent(st, s) ==> consistent(
                working@,
                s,
            ) || some_left_open(frontier@, s),
        decreases frontier_budget(frontier@) + budget(freedom(working@, 81)),
    {
        let ghost w0 = working@;
        let ghost fr0 = frontier@;
        if propagate(&mut working) {
            proof {
                lemma_freedom_refines(working@, w0, 81);
                lemma_refines_trans(working@, w0, st);
                lemma_settled_not_empty(working@);
            }
            match suggest_guess(&working) {
                None => {
                    if check_answer(&working) {
                        let out = to_rows(&working);
                        proof {
                            lemma_solved_consistent(working@, rows_of_grid(working@));
                            lemma_refines_consistent_grid(working@, st, out.deep_view());
                        }
                        return Some(out);
                    }
                    proof {
                        assert forall|s: Seq<Seq<u16>>| #[trigger] is_solution(s) implies !consistent(w0, s) by {
                            lemma_solved_consistent(working@, s);
                        }
                    }
                },
                Some(g) => {
                    let next = force(&working, g);
                    let ghost p = working@;
                    let ncp = Checkpoint { snapshot: working, guess: g };
                    frontier.push(ncp);
                    working = next;
                    proof {
                        lemma_frontier_push(fr0, ncp);
                        lemma_guess_freedom(p, g);
                        let fp = freedom(p, 81);
                        lemma_budget_monotone(freedom(working@, 81), (fp - 1) as nat);
                        lemma_budget_monotone(fp, freedom(w0, 81));
                        assert(budget(fp) == 2 * budget((fp - 1) as nat) + 1);
                        lemma_refines_trans(working@, p, st);
                        assert(checkpoint_ok(ncp, st));
                        assert forall|k: int| 0 <= k < frontier@.len() implies #[trigger] checkpoint_ok(frontier@[k], st) by {
                            if k < fr0.len() {
                                assert(frontier@[k] == fr0[k]);
                            }
                        }
                        assert forall|s: Seq<Seq<u16>>| #[trigger] is_solution(s) && consistent(st, s) implies consistent(
                            working@,
                            s,
                        ) || some_left_open(frontier@, s) by {
                            if consistent(w0, s) {
                                assert(consistent(p, s));
                                if s[g.row as int][g.column as int] != g.value {
                                    assert(left_open(frontier@[fr0.len() as int], s));
                                }
                            } else {
                                let k = choose|k: int| 0 <= k < fr0.len() && #[trigger] left_open(fr0[k], s);
                                assert(frontier@[k] == fr0[k]);
                            }
                        }
                    }
                    continue;
                },
            }
        }
        match backtrack(&mut frontier, Ghost(st)) {
            Resume::Found(out) => {
                return Some(out);
            },
            Resume::Exhausted => {
                return None;
            },
            Resume::Continue(w) => {
                working = w;
            },
        }
    }
}

/// Solves the puzzle that `rows` gives, 0 for a blank: a filled grid that keeps every given
/// digit, `MalformedInput` for input that is not nine rows of nine digits from 0 to 9, and
/// `Unsolvable` where no filled grid keeps the given digits.
pub fn solve(rows: &Vec<Vec<u16>>) -> (r: Result<Vec<Vec<u16>>, SolveError>)
    ensures
        (r == Err::<Vec<Vec<u16>>, SolveError>(SolveError::MalformedInput)) == !rows_wf(rows.deep_view()),
        r matches Ok(out) ==> is_solution(out.deep_view()) && extends(rows.deep_view(), out.deep_view()),
        r == Err::<Vec<Vec<u16>>, SolveError>(SolveError::Unsolvable) ==> forall|s: Seq<Seq<u16>>|
            #[trigger] is_solution(s) ==> !extends(rows.deep_view(), s),
        rows_wf(rows.deep_view()) && (exists|s: Seq<Seq<u16>>| #[trigger] is_solution(s) && extends(
            rows.deep_view(),
            s,
        )) ==> r is Ok,
        forall|t: Seq<Seq<u16>>|
            rows_wf(rows.deep_view()) && #[trigger] is_solution(t) && extends(rows.deep_view(), t) && (forall|s: Seq<Seq<u16>>|
                #[trigger] is_solution(s) && extends(rows.deep_view(), s) ==> s == t) ==> (r matches Ok(
                out,
            ) && out.deep_view() == t),
{
    let ghost input = rows.deep_view();
    let mut grid = match from_rows(rows) {
        Ok(g) => g,
        Err(e) => {
            return Err(e);
        },
    };
    let ghost start = grid@;
    proof {
        assert forall|s: Seq<Seq<u16>>| #[trigger] is_solution(s) implies consistent(start, s) == extends(
            input,
            s,
        ) by {
            lemma_describes_consistent(start, input, s);
        }
    }
    if !no_clash(&grid) {
        proof {
            assert forall|s: Seq<Seq<u16>>| #[trigger] is_solution(s) implies !extends(input, s) by {
                if consistent(start, s) {
                    let (r1, c1, r2, c2) = choose|r1: int, c1: int, r2: int, c2: int|
                        !(in_grid(r1, c1) && in_grid(r2, c2) && peers(r1, c1, r2, c2) && start[idx(r1, c1)] is Solved
                            && start[idx(r2, c2)] is Solved ==> (#[trigger] start[idx(r1, c1)]).digit() != (
                        #[trigger] start[idx(r2, c2)]).digit());
                    assert(start[idx(r1, c1)].allows(s[r1][c1] as int));
                    assert(start[idx(r2, c2)].allows(s[r2][c2] as int));
                }
            }
        }
        return Err(SolveError::Unsolvable);
    }
    if !propagate(&mut grid) {
        return Err(SolveError::Unsolvable);
    }
    match search(grid) {
        Some(out) => Ok(out),
        None => Err(SolveError::Unsolvable),
    }
}

} // verus!
