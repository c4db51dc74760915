use vstd::prelude::*;

use crate::candidates::{lemma_count_has, CandidateSet};
use crate::grid::{
    all_solved, freedom, lemma_freedom_refines, lemma_refines_consistent_grid, lemma_refines_trans, box_start, consistent, grid_wf, idx, in_grid, is_solution, lemma_refines_refl,
    peers, refines_grid, SudokuCell, SudokuGrid,
};

verus! {

/// What one propagation sweep found.
#[derive(Clone, Copy, Debug, PartialEq, Eq, Structural)]
pub enum SudokuResult {
    /// No cell was newly fixed.
    Unchanged,
    /// At least one cell was newly fixed.
    Changed,
    /// An open cell ran out of candidates.
    Contradiction,
}

impl SudokuResult {
    /// Whether the sweep fixed a cell.
    pub fn is_changed(&self) -> (r: bool)
        ensures
            r == (*self is Changed),
    {
        match *self {
            SudokuResult::Changed => true,
            _ => false,
        }
    }
}

/// The cell is fixed to digit `d`.
pub open spec fn fixed_to(cell: SudokuCell, d: int) -> bool {
    match cell {
        SudokuCell::Solved(v) => v as int == d,
        SudokuCell::Unsolved(_) => false,
    }
}

/// One of the first `k` cells of row `row` is fixed to `d`.
pub open spec fn row_hit(g: Seq<SudokuCell>, row: int, k: int, d: int) -> bool {
    exists|c: int| 0 <= c < k && fixed_to(#[trigger] g[idx(row, c)], d)
}

/// One of the first `k` cells of column `col` is fixed to `d`.
pub open spec fn column_hit(g: Seq<SudokuCell>, col: int, k: int, d: int) -> bool {
    exists|r: int| 0 <= r < k && fixed_to(#[trigger] g[idx(r, col)], d)
}

/// One of the cells of the box at `br`, `bc` that come before its cell `a`, `b` is fixed to `d`.
pub open spec fn box_hit(g: Seq<SudokuCell>, br: int, bc: int, a: int, b: int, d: int) -> bool {
    exists|a2: int, b2: int|
        0 <= a2 < 3 && 0 <= b2 < 3 && (a2 < a || (a2 == a && b2 < b)) && fixed_to(
            #[trigger] g[idx(br + a2, bc + b2)],
            d,
        )
}

/// A cell of the row, column or box of `r`, `c` is fixed to `d`.
pub open spec fn blocked(g: Seq<SudokuCell>, r: int, c: int, d: int) -> bool {
    row_hit(g, r, 9, d) || column_hit(g, c, 9, d) || box_hit(g, box_start(r), box_start(c), 3, 0, d)
}

/// Read as the cell at `r`, `c` of `g`: if open, it has two candidates or more, none of them
/// fixed in its row, column or box.
pub open spec fn settled_against(cell: SudokuCell, g: Seq<SudokuCell>, r: int, c: int) -> bool {
    match cell {
        SudokuCell::Solved(_) => true,
        SudokuCell::Unsolved(m) => m.size() >= 2 && forall|d: int| #[trigger]
            m.has(d) ==> !blocked(g, r, c, d),
    }
}

/// The open cell at `r`, `c` has two candidates or more, none of them fixed in its row,
/// column or box.
pub open spec fn settled_cell(g: Seq<SudokuCell>, r: int, c: int) -> bool {
    settled_against(g[idx(r, c)], g, r, c)
}

/// A further sweep would change nothing: every open cell is settled.
pub open spec fn settled(g: Seq<SudokuCell>) -> bool {
    forall|r: int, c: int| in_grid(r, c) ==> #[trigger] settled_cell(g, r, c)
}

/// The grid as a sweep over `g` sees it when it reaches cell `i`: the cells before `i` as they
/// are in `swept`, the others as they were in `g`.
pub open spec fn seen_at(g: Seq<SudokuCell>, swept: Seq<SudokuCell>, i: int) -> Seq<SudokuCell> {
    Seq::new(81, |j: int| if j < i { swept[j] } else { g[j] })
}

/// The cell at `r`, `c` of `swept` is what a sweep over `g` makes of it. A fixed cell stays.
/// An open cell keeps the candidates that no fixed cell of its row, column or box rules out,
/// in the grid as the sweep sees it there, and is fixed where one candidate is left.
pub open spec fn swept_cell(g: Seq<SudokuCell>, swept: Seq<SudokuCell>, r: int, c: int) -> bool {
    let i = idx(r, c);
    match g[i] {
        SudokuCell::Solved(_) => swept[i] == g[i],
        SudokuCell::Unsolved(m) => (forall|d: int| #[trigger]
            swept[i].allows(d) == (m.has(d) && !blocked(seen_at(g, swept, i), r, c, d))) && (
        swept[i] matches SudokuCell::Unsolved(p) ==> p.size() >= 2),
    }
}

/// `swept` is what one sweep over `g` makes of it, where the sweep meets no contradiction.
pub open spec fn is_sweep_of(swept: Seq<SudokuCell>, g: Seq<SudokuCell>) -> bool {
    swept.len() == 81 && forall|r: int, c: int| in_grid(r, c) ==> #[trigger] swept_cell(g, swept, r, c)
}

/// A sweep over `g`, having made `swept` of the cells before `r`, `c`, finds that every
/// candidate of the open cell at `r`, `c` is ruled out.
pub open spec fn stuck_at(g: Seq<SudokuCell>, swept: Seq<SudokuCell>, r: int, c: int) -> bool {
    &&& forall|r2: int, c2: int|
        in_grid(r2, c2) && idx(r2, c2) < idx(r, c) ==> #[trigger] swept_cell(g, swept, r2, c2)
    &&& (g[idx(r, c)] matches SudokuCell::Unsolved(m) && forall|d: int| #[trigger]
        m.has(d) ==> blocked(seen_at(g, swept, idx(r, c)), r, c, d))
}

/// The same cells are fixed in both grids.
pub open spec fn same_fixed(g: Seq<SudokuCell>, old: Seq<SudokuCell>) -> bool {
    forall|i: int| 0 <= i < 81 ==> (#[trigger] g[i] is Solved) == (old[i] is Solved)
}

/// Grids that fix the same digits in the same cells block the same digits.
proof fn lemma_blocked_same(g1: Seq<SudokuCell>, g2: Seq<SudokuCell>)
    requires
        g1.len() == 81,
        g2.len() == 81,
        forall|i: int, d: int| 0 <= i < 81 ==> #[trigger] fixed_to(g1[i], d) == fixed_to(g2[i], d),
    ensures
        forall|r: int, c: int, d: int|
            in_grid(r, c) ==> #[trigger] blocked(g1, r, c, d) == blocked(g2, r, c, d),
{
    assert forall|r: int, c: int, d: int| in_grid(r, c) implies #[trigger] blocked(g1, r, c, d)
        == blocked(g2, r, c, d) by {
        lemma_blocked_one_way(g1, g2, r, c, d);
        lemma_blocked_one_way(g2, g1, r, c, d);
    }
}

proof fn lemma_blocked_one_way(g1: Seq<SudokuCell>, g2: Seq<SudokuCell>, r: int, c: int, d: int)
    requires
        g1.len() == 81,
        g2.len() == 81,
        in_grid(r, c),
        forall|i: int, d: int| 0 <= i < 81 ==> #[trigger] fixed_to(g1[i], d) == fixed_to(g2[i], d),
    ensures
        blocked(g1, r, c, d) ==> blocked(g2, r, c, d),
{
    if row_hit(g1, r, 9, d) {
        let k = choose|k: int| 0 <= k < 9 && fixed_to(#[trigger] g1[idx(r, k)], d);
        assert(fixed_to(g1[idx(r, k)], d));
        assert(fixed_to(g2[idx(r, k)], d));
        assert(row_hit(g2, r, 9, d));
    } else if column_hit(g1, c, 9, d) {
        let k = choose|k: int| 0 <= k < 9 && fixed_to(#[trigger] g1[idx(k, c)], d);
        assert(fixed_to(g1[idx(k, c)], d));
        assert(fixed_to(g2[idx(k, c)], d));
        assert(column_hit(g2, c, 9, d));
    } else if box_hit(g1, box_start(r), box_start(c), 3, 0, d) {
        let br = box_start(r);
        let bc = box_start(c);
        let (a, b) = choose|a: int, b: int|
            0 <= a < 3 && 0 <= b < 3 && (a < 3 || (a == 3 && b < 0)) && fixed_to(
                #[trigger] g1[idx(br + a, bc + b)],
                d,
            );
        assert(fixed_to(g1[idx(br + a, bc + b)], d));
        assert(fixed_to(g2[idx(br + a, bc + b)], d));
        assert(box_hit(g2, br, bc, 3, 0, d));
    }
}

/// A digit blocked at an open cell is not the digit of a filled grid that agrees with the grid.
proof fn lemma_blocked_excluded(g: Seq<SudokuCell>, s: Seq<Seq<u16>>, r: int, c: int, d: int)
    requires
        g.len() == 81,
        is_solution(s),
        consistent(g, s),
        in_grid(r, c),
        g[idx(r, c)] is Unsolved,
        blocked(g, r, c, d),
    ensures
        s[r][c] != d,
{
    if row_hit(g, r, 9, d) {
        let k = choose|k: int| 0 <= k < 9 && fixed_to(#[trigger] g[idx(r, k)], d);
        assert(g[idx(r, k)].allows(s[r][k] as int));
        assert(peers(r, c, r, k));
        assert(s[r][c] != s[r][k]);
    } else if column_hit(g, c, 9, d) {
        let k = choose|k: int| 0 <= k < 9 && fixed_to(#[trigger] g[idx(k, c)], d);
        assert(g[idx(k, c)].allows(s[k][c] as int));
        assert(peers(r, c, k, c));
        assert(s[r][c] != s[k][c]);
    } else {
        let br = box_start(r);
        let bc = box_start(c);
        let (a, b) = choose|a: int, b: int|
            0 <= a < 3 && 0 <= b < 3 && (a < 3 || (a == 3 && b < 0)) && fixed_to(
                #[trigger] g[idx(br + a, bc + b)],
                d,
            );
        assert(g[idx(br + a, bc + b)].allows(s[br + a][bc + b] as int));
        assert(peers(r, c, br + a, bc + b));
        assert(s[r][c] != s[br + a][bc + b]);
    }
}

/// The candidates `p` without the digit of `cell`, where it is fixed.
fn strike(cell: SudokuCell, p: CandidateSet) -> (r: CandidateSet)
    requires
        cell.wf(),
    ensures
        forall|d: int| #[trigger] r.has(d) == (p.has(d) && !fixed_to(cell, d)),
        (forall|d: int| #[trigger] p.has(d) ==> !fixed_to(cell, d)) ==> r == p,
{
    match cell {
        SudokuCell::Solved(v) => {
            if p.contains(v) {
                p.remove(v)
            } else {
                p
            }
        },
        SudokuCell::Unsolved(_) => p,
    }
}

/// The candidates `m` of the cell at `row`, `column` without every digit fixed in its row,
/// column or box.
pub fn eliminate(grid: &SudokuGrid, row: usize, column: usize, m: CandidateSet) -> (r: CandidateSet)
    requires
        grid_wf(grid@),
        row < 9,
        column < 9,
    ensures
        forall|d: int| #[trigger] r.has(d) == (m.has(d) && !blocked(grid@, row as int, column as int, d)),
        (forall|d: int| #[trigger] m.has(d) ==> !blocked(grid@, row as int, column as int, d)) ==> r
            == m,
{
    let ghost g = grid@;
    let ghost quiet = forall|d: int| #[trigger] m.has(d) ==> !blocked(g, row as int, column as int, d);
    let mut p = m;
    let mut k: usize = 0;
    while k < 9
        invariant
            k <= 9,
            row < 9,
            column < 9,
            grid_wf(g),
            g == grid@,
            quiet == (forall|d: int| #[trigger] m.has(d) ==> !blocked(g, row as int, column as int, d)),
            forall|d: int| #[trigger] p.has(d) == (m.has(d) && !row_hit(g, row as int, k as int, d)),
            quiet ==> p == m,
        decreases 9 - k,
    {
        let cell = grid.cells[row * 9 + k];
        assert(cell == g[idx(row as int, k as int)]);
        proof {
            if quiet {
                assert forall|d: int| #[trigger] p.has(d) implies !fixed_to(cell, d) by {
                    if fixed_to(cell, d) {
                        assert(m.has(d));
                        assert(row_hit(g, row as int, 9, d));
                        assert(blocked(g, row as int, column as int, d));
                    }
                }
            }
        }
        p = strike(cell, p);
        assert forall|d: int| #[trigger] p.has(d) == (m.has(d) && !row_hit(g, row as int, k + 1, d)) by {
            if fixed_to(cell, d) {
                assert(row_hit(g, row as int, k + 1, d));
            }
        }
        k = k + 1;
    }
    let mut k: usize = 0;
    while k < 9
        invariant
            k <= 9,
            row < 9,
            column < 9,
            grid_wf(g),
            g == grid@,
            quiet == (forall|d: int| #[trigger] m.has(d) ==> !blocked(g, row as int, column as int, d)),
            forall|d: int| #[trigger]
                p.has(d) == (m.has(d) && !row_hit(g, row as int, 9, d) && !column_hit(
                    g,
                    column as int,
                    k as int,
                    d,
                )),
            quiet ==> p == m,
        decreases 9 - k,
    {
        let cell = grid.cells[k * 9 + column];
        assert(cell == g[idx(k as int, column as int)]);
        proof {
            if quiet {
                assert forall|d: int| #[trigger] p.has(d) implies !fixed_to(cell, d) by {
                    if fixed_to(cell, d) {
                        assert(m.has(d));
                        assert(column_hit(g, column as int, 9, d));
                        assert(blocked(g, row as int, column as int, d));
                    }
                }
            }
        }
        p = strike(cell, p);
        assert forall|d: int| #[trigger]
            p.has(d) == (m.has(d) && !row_hit(g, row as int, 9, d) && !column_hit(
                g,
                column as int,
                k + 1,
                d,
            )) by {
            if fixed_to(cell, d) {
                assert(column_hit(g, column as int, k + 1, d));
            }
        }
        k = k + 1;
    }
    let br: usize = if row < 3 {
        0
    } else if row < 6 {
        3
    } else {
        6
    };
    let bc: usize = if column < 3 {
        0
    } else if column < 6 {
        3
    } else {
        6
    };
    let mut a: usize = 0;
    let mut b: usize = 0;
    while a < 3
        invariant
            a <= 3,
            b < 3,
            a == 3 ==> b == 0,
            br == box_start(row as int),
            bc == box_start(column as int),
            row < 9,
            column < 9,
            grid_wf(g),
            g == grid@,
            quiet == (forall|d: int| #[trigger] m.has(d) ==> !blocked(g, row as int, column as int, d)),
            forall|d: int| #[trigger]
                p.has(d) == (m.has(d) && !row_hit(g, row as int, 9, d) && !column_hit(
                    g,
                    column as int,
                    9,
                    d,
                ) && !box_hit(g, br as int, bc as int, a as int, b as int, d)),
            quiet ==> p == m,
        decreases 9 - (3 * a + b),
    {
        let cell = grid.cells[(br + a) * 9 + bc + b];
        assert(cell == g[idx(br + a, bc + b)]);
        proof {
            if quiet {
                assert forall|d: int| #[trigger] p.has(d) implies !fixed_to(cell, d) by {
                    if fixed_to(cell, d) {
                        assert(m.has(d));
                        assert(box_hit(g, br as int, bc as int, 3, 0, d));
                        assert(blocked(g, row as int, column as int, d));
                    }
                }
            }
        }
        p = strike(cell, p);
        let ghost (a0, b0) = (a as int, b as int);
        if b == 2 {
            a = a + 1;
            b = 0;
        } else {
            b = b + 1;
        }
        assert forall|d: int| #[trigger]
            p.has(d) == (m.has(d) && !row_hit(g, row as int, 9, d) && !column_hit(
                g,
                column as int,
                9,
                d,
            ) && !box_hit(g, br as int, bc as int, a as int, b as int, d)) by {
            if fixed_to(cell, d) {
                assert(fixed_to(g[idx(br + a0, bc + b0)], d));
                assert(box_hit(g, br as int, bc as int, a as int, b as int, d));
            }
            if box_hit(g, br as int, bc as int, a as int, b as int, d) && !box_hit(
                g,
                br as int,
                bc as int,
                a0,
                b0,
                d,
            ) {
                let (a2, b2) = choose|a2: int, b2: int|
                    0 <= a2 < 3 && 0 <= b2 < 3 && (a2 < a || (a2 == a && b2 < b)) && fixed_to(
                        #[trigger] g[idx(br + a2, bc + b2)],
                        d,
                    );
                assert(a2 == a0 && b2 == b0);
            }
        }
    }
    p
}

/// One sweep over the grid, row by row. Each open cell loses the digits fixed in its row,
/// column and box, and is fixed at once where one candidate is left, so that the cells after
/// it see the new digit. The sweep stops at the first open cell left with no candidate.
pub fn check_grid(grid: &mut SudokuGrid) -> (r: SudokuResult)
    requires
        grid_wf(old(grid)@),
    ensures
        grid_wf(final(grid)@),
        r is Contradiction ==> forall|s: Seq<Seq<u16>>| #[trigger] is_solution(s) ==> !consistent(
            old(grid)@,
            s,
        ),
        r is Contradiction ==> exists|r0: int, c0: int|
            in_grid(r0, c0) && #[trigger] stuck_at(old(grid)@, final(grid)@, r0, c0),
        !(r is Contradiction) ==> is_sweep_of(final(grid)@, old(grid)@),
        !(r is Contradiction) ==> refines_grid(final(grid)@, old(grid)@),
        !(r is Contradiction) ==> forall|s: Seq<Seq<u16>>| #[trigger] is_solution(s) ==> (consistent(
            final(grid)@,
            s,
        ) == consistent(old(grid)@, s)),
        r is Unchanged ==> settled(final(grid)@) && same_fixed(final(grid)@, old(grid)@),
        r is Changed ==> exists|i: int|
            0 <= i < 81 && (#[trigger] old(grid)@[i]) is Unsolved && final(grid)@[i] is Solved,
        all_solved(old(grid)@) ==> r is Unchanged && final(grid)@ == old(grid)@,
{
    let ghost orig = grid@;
    assert(orig == old(grid)@);
    let mut changed = false;
    let mut row: usize = 0;
    let mut column: usize = 0;
    let mut i: usize = 0;
    proof {
        lemma_refines_refl(orig);
    }
    while i < 81
        invariant
            i <= 81,
            i == row * 9 + column,
            orig == old(grid)@,
            column < 9,
            grid_wf(grid@),
            refines_grid(grid@, orig),
            forall|j: int| i <= j < 81 ==> grid@[j] == orig[j],
            changed ==> exists|j: int|
                0 <= j < 81 && (#[trigger] orig[j]) is Unsolved && grid@[j] is Solved,
            !changed ==> same_fixed(grid@, orig),
            !changed ==> forall|r2: int, c2: int|
                in_grid(r2, c2) && idx(r2, c2) < i ==> settled_against(
                    #[trigger] grid@[idx(r2, c2)],
                    orig,
                    r2,
                    c2,
                ),
            forall|s: Seq<Seq<u16>>| #[trigger]
                is_solution(s) && consistent(orig, s) ==> consistent(grid@, s),
            all_solved(orig) ==> grid@ == orig && !changed,
            forall|r2: int, c2: int|
                in_grid(r2, c2) && idx(r2, c2) < i ==> #[trigger] swept_cell(orig, grid@, r2, c2),
        decreases 81 - i,
    {
        assert(row < 9);
        assert(idx(row as int, column as int) == i);
        let cell = grid.cells[i];
        let ghost cur = grid@;
        proof {
            assert(seen_at(orig, cur, i as int) =~= cur);
        }
        if let SudokuCell::Unsolved(m) = cell {
            assert(orig[i as int] is Unsolved);
            let ghost before = grid@;
            let p = eliminate(grid, row, column, m);
            let n = p.count();
            proof {
                assert forall|s: Seq<Seq<u16>>| #[trigger]
                    is_solution(s) && consistent(orig, s) implies p.has(
                    s[row as int][column as int] as int,
                ) by {
                    assert(consistent(before, s));
                    assert(before[idx(row as int, column as int)].allows(
                        s[row as int][column as int] as int,
                    ));
                    let x = s[row as int][column as int] as int;
                    if blocked(before, row as int, column as int, x) {
                        lemma_blocked_excluded(before, s, row as int, column as int, x);
                    }
                }
            }
            if n == 0 {
                proof {
                    assert(seen_at(orig, grid@, i as int) =~= cur);
                    assert forall|d: int| #[trigger] m.has(d) implies blocked(
                        seen_at(orig, grid@, i as int),
                        row as int,
                        column as int,
                        d,
                    ) by {
                        if p.has(d) {
                            lemma_count_has(p.bits, 9, d);
                        }
                    }
                    assert(stuck_at(orig, grid@, row as int, column as int));
                    assert forall|s: Seq<Seq<u16>>| #[trigger] is_solution(s) implies !consistent(
                        orig,
                        s,
                    ) by {
                        if consistent(orig, s) {
                            let x = s[row as int][column as int] as int;
                            assert(p.has(x));
                            lemma_count_has(p.bits, 9, x);
                        }
                    }
                }
                return SudokuResult::Contradiction;
            }
            if n == 1 {
                let v = p.sole_member();
                grid.cells.set(i, SudokuCell::Solved(v));
                proof {
                    assert(seen_at(orig, grid@, i as int) =~= cur);
                    assert forall|d: int| #[trigger] grid@[i as int].allows(d) == (m.has(d) && !blocked(
                        seen_at(orig, grid@, i as int),
                        row as int,
                        column as int,
                        d,
                    )) by {
                        if p.has(d) {
                            assert(d == v);
                        }
                    }
                    assert(swept_cell(orig, grid@, row as int, column as int));
                    assert(grid@[i as int].refines(orig[i as int]));
                    assert forall|s: Seq<Seq<u16>>| #[trigger]
                        is_solution(s) && consistent(orig, s) implies consistent(grid@, s) by {
                        assert(consistent(before, s));
                        assert forall|r: int, c: int| in_grid(r, c) implies (#[trigger] grid@[idx(
                            r,
                            c,
                        )]).allows(s[r][c] as int) by {
                            assert(before[idx(r, c)].allows(s[r][c] as int));
                            if idx(r, c) == i {
                                assert(r == row && c == column);
                                assert(p.has(s[r][c] as int));
                            }
                        }
                    }
                }
                changed = true;
            } else {
                grid.cells.set(i, SudokuCell::Unsolved(p));
                proof {
                    assert(seen_at(orig, grid@, i as int) =~= cur);
                    assert forall|d: int| #[trigger] grid@[i as int].allows(d) == (m.has(d) && !blocked(
                        seen_at(orig, grid@, i as int),
                        row as int,
                        column as int,
                        d,
                    )) by {}
                    assert(swept_cell(orig, grid@, row as int, column as int));
                    assert(p.subset_of(m));
                    assert(grid@[i as int].refines(orig[i as int]));
                    assert forall|s: Seq<Seq<u16>>| #[trigger]
                        is_solution(s) && consistent(orig, s) implies consistent(grid@, s) by {
                        assert(consistent(before, s));
                        assert forall|r: int, c: int| in_grid(r, c) implies (#[trigger] grid@[idx(
                            r,
                            c,
                        )]).allows(s[r][c] as int) by {
                            assert(before[idx(r, c)].allows(s[r][c] as int));
                            if idx(r, c) == i {
                                assert(r == row && c == column);
                                assert(p.has(s[r][c] as int));
                            }
                        }
                    }
                    if !changed {
                        assert forall|j: int, d: int| 0 <= j < 81 implies #[trigger] fixed_to(
                            before[j],
                            d,
                        ) == fixed_to(orig[j], d) by {
                            assert(before[j].refines(orig[j]));
                        }
                        lemma_blocked_same(before, orig);
                        assert forall|d: int| #[trigger] p.has(d) implies !blocked(
                            orig,
                            row as int,
                            column as int,
                            d,
                        ) by {
                            assert(blocked(before, row as int, column as int, d) == blocked(
                                orig,
                                row as int,
                                column as int,
                                d,
                            ));
                        }
                    }
                }
            }
        } else {
            proof {
                assert(swept_cell(orig, grid@, row as int, column as int));
            }
        }
        proof {
            assert forall|r2: int, c2: int|
                in_grid(r2, c2) && idx(r2, c2) < i + 1 implies #[trigger] swept_cell(orig, grid@, r2, c2) by {
                let j = idx(r2, c2);
                assert(seen_at(orig, grid@, j) =~= seen_at(orig, cur, j));
                if j < i {
                    assert(swept_cell(orig, cur, r2, c2));
                    assert(grid@[j] == cur[j]);
                } else {
                    assert(r2 == row && c2 == column);
                }
            }
        }
        i = i + 1;
        if column == 8 {
            column = 0;
            row = row + 1;
        } else {
            column = column + 1;
        }
    }
    proof {
        if !changed {
            assert forall|j: int, d: int| 0 <= j < 81 implies #[trigger] fixed_to(grid@[j], d)
                == fixed_to(orig[j], d) by {
                assert(grid@[j].refines(orig[j]));
            }
            lemma_blocked_same(grid@, orig);
            assert forall|r2: int, c2: int| in_grid(r2, c2) implies #[trigger] settled_cell(
                grid@,
                r2,
                c2,
            ) by {
                assert(idx(r2, c2) < 81);
                assert(settled_against(grid@[idx(r2, c2)], orig, r2, c2));
                if let SudokuCell::Unsolved(m) = grid@[idx(r2, c2)] {
                    assert forall|d: int| #[trigger] m.has(d) implies !blocked(grid@, r2, c2, d) by {
                        assert(blocked(grid@, r2, c2, d) == blocked(orig, r2, c2, d));
                    }
                }
            }
        }
        assert forall|s: Seq<Seq<u16>>| #[trigger] is_solution(s) implies (consistent(grid@, s)
            == consistent(orig, s)) by {
            if consistent(grid@, s) {
                lemma_refines_consistent_grid(grid@, orig, s);
            }
        }
    }
    if changed {
        SudokuResult::Changed
    } else {
        SudokuResult::Unchanged
    }
}

/// Sweeps until a sweep fixes no cell (returns true) or finds a contradiction (returns false).
pub fn propagate(grid: &mut SudokuGrid) -> (r: bool)
    requires
        grid_wf(old(grid)@),
    ensures
        grid_wf(final(grid)@),
        !r ==> forall|s: Seq<Seq<u16>>| #[trigger] is_solution(s) ==> !consistent(old(grid)@, s),
        r ==> refines_grid(final(grid)@, old(grid)@) && settled(final(grid)@),
        r ==> forall|s: Seq<Seq<u16>>| #[trigger] is_solution(s) ==> (consistent(final(grid)@, s)
            == consistent(old(grid)@, s)),
        all_solved(old(grid)@) ==> r && final(grid)@ == old(grid)@,
{
    let ghost orig = grid@;
    proof {
        lemma_refines_refl(orig);
    }
    loop
        invariant
            orig == old(grid)@,
            grid_wf(grid@),
            refines_grid(grid@, orig),
            forall|s: Seq<Seq<u16>>| #[trigger] is_solution(s) ==> (consistent(grid@, s)
                == consistent(orig, s)),
            all_solved(orig) ==> grid@ == orig,
        decreases freedom(grid@, 81),
    {
        let ghost before = grid@;
        let res = check_grid(grid);
        match res {
            SudokuResult::Unchanged => {
                proof {
                    lemma_refines_trans(grid@, before, orig);
                }
                return true;
            },
            SudokuResult::Contradiction => {
                return false;
            },
            SudokuResult::Changed => {
                proof {
                    lemma_refines_trans(grid@, before, orig);
                    let j = choose|j: int|
                        0 <= j < 81 && (#[trigger] before[j]) is Unsolved && grid@[j] is Solved;
                    assert(grid@[j].refines(before[j]));
                    if let SudokuCell::Unsolved(m) = before[j] {
                        if let SudokuCell::Solved(v) = grid@[j] {
                            lemma_count_has(m.bits, 9, v as int);
                        }
                    }
                    assert(0 <= j < 81 && grid@[j].weight() < before[j].weight());
                    lemma_freedom_refines(grid@, before, 81);
                }
            },
        }
    }
}

} // verus!
