//! Carpet grids: counting the carpets that touch too few neighbours, and
//! removing them until every remaining carpet rests on at least four
//! neighbours.
//!
//! A grid is a rectangle of characters; a cell holds a carpet when it is
//! `'@'`.  The removal pass mirrors an in-place sweep: a removal is
//! visible to the neighbour counts of the cells scanned after it.

use vstd::prelude::*;

verus! {

/// One when the condition holds, zero otherwise.
pub open spec fn ind(b: bool) -> int {
    if b {
        1
    } else {
        0
    }
}

/// The sequence-of-rows view of a grid held in vectors.
pub open spec fn grid_view(g: Seq<Vec<char>>) -> Seq<Seq<char>> {
    g.map_values(|row: Vec<char>| row@)
}

/// All rows have the width of the first one.
pub open spec fn wf_grid(g: Seq<Seq<char>>) -> bool {
    forall|r: int| 0 <= r < g.len() ==> (#[trigger] g[r]).len() == g[0].len()
}

/// The cell `(r, c)` lies in the grid and holds a carpet.
pub open spec fn occupied(g: Seq<Seq<char>>, r: int, c: int) -> bool {
    0 <= r < g.len() && 0 <= c < g[r].len() && g[r][c] == '@'
}

/// How many of the eight neighbours of `(r, c)` hold a carpet.
pub open spec fn nbr_count(g: Seq<Seq<char>>, r: int, c: int) -> int {
    ind(occupied(g, r - 1, c - 1)) + ind(occupied(g, r - 1, c)) + ind(
        occupied(g, r - 1, c + 1),
    ) + ind(occupied(g, r, c - 1)) + ind(occupied(g, r, c + 1)) + ind(
        occupied(g, r + 1, c - 1),
    ) + ind(occupied(g, r + 1, c)) + ind(occupied(g, r + 1, c + 1))
}

/// A carpet that can be taken out: it touches fewer than four others.
pub open spec fn is_touch(g: Seq<Seq<char>>, r: int, c: int) -> bool {
    occupied(g, r, c) && nbr_count(g, r, c) < 4
}

/// Removable carpets in row `r` at columns `c` and beyond.
pub open spec fn row_touch_from(g: Seq<Seq<char>>, r: int, c: int) -> int
    decreases g[r].len() - c,
{
    if c < 0 || c >= g[r].len() {
        0
    } else {
        ind(is_touch(g, r, c)) + row_touch_from(g, r, c + 1)
    }
}

/// Removable carpets in rows `r` and beyond.
pub open spec fn touch_from(g: Seq<Seq<char>>, r: int) -> int
    decreases g.len() - r,
{
    if r < 0 || r >= g.len() {
        0
    } else {
        row_touch_from(g, r, 0) + touch_from(g, r + 1)
    }
}

/// Carpets in `row` at columns `c` and beyond.
pub open spec fn occ_row_from(row: Seq<char>, c: int) -> int
    decreases row.len() - c,
{
    if c < 0 || c >= row.len() {
        0
    } else {
        ind(row[c] == '@') + occ_row_from(row, c + 1)
    }
}

/// Carpets in rows `r` and beyond.
pub open spec fn occ_from(g: Seq<Seq<char>>, r: int) -> int
    decreases g.len() - r,
{
    if r < 0 || r >= g.len() {
        0
    } else {
        occ_row_from(g[r], 0) + occ_from(g, r + 1)
    }
}

/// Number of carpets in the whole grid.
pub open spec fn occ_count(g: Seq<Seq<char>>) -> int {
    occ_from(g, 0)
}

/// Every carpet of `t` also lies in `g`.
#[verifier::opaque]
pub open spec fn covers(g: Seq<Seq<char>>, t: Seq<Seq<char>>) -> bool {
    forall|r: int, c: int| #[trigger] occupied(t, r, c) ==> occupied(g, r, c)
}

/// The carpet at `(r, c)`, if any, touches at least four others.
#[verifier::opaque]
pub open spec fn stable_cell(g: Seq<Seq<char>>, r: int, c: int) -> bool {
    occupied(g, r, c) ==> nbr_count(g, r, c) >= 4
}

/// No carpet of `g` can be taken out: each touches at least four others.
pub open spec fn stable(g: Seq<Seq<char>>) -> bool {
    forall|r: int, c: int| #[trigger] stable_cell(g, r, c)
}

/// Every stable sub-grid of `g0` is still a sub-grid of `g`.
#[verifier::opaque]
pub open spec fn keeps_stable_subgrids(g0: Seq<Seq<char>>, g: Seq<Seq<char>>) -> bool {
    forall|t: Seq<Seq<char>>| covers(g0, t) && #[trigger] stable(t) ==> covers(g, t)
}

/// Losing carpets can only lower a neighbour count.
proof fn lemma_nbr_monotone(g: Seq<Seq<char>>, t: Seq<Seq<char>>, r: int, c: int)
    requires
        covers(g, t),
    ensures
        nbr_count(t, r, c) <= nbr_count(g, r, c),
{
    reveal(covers);
    if occupied(t, r - 1, c - 1) {
        assert(occupied(g, r - 1, c - 1));
    }
    if occupied(t, r - 1, c) {
        assert(occupied(g, r - 1, c));
    }
    if occupied(t, r - 1, c + 1) {
        assert(occupied(g, r - 1, c + 1));
    }
    if occupied(t, r, c - 1) {
        assert(occupied(g, r, c - 1));
    }
    if occupied(t, r, c + 1) {
        assert(occupied(g, r, c + 1));
    }
    if occupied(t, r + 1, c - 1) {
        assert(occupied(g, r + 1, c - 1));
    }
    if occupied(t, r + 1, c) {
        assert(occupied(g, r + 1, c));
    }
    if occupied(t, r + 1, c + 1) {
        assert(occupied(g, r + 1, c + 1));
    }
}

proof fn lemma_occ_row_bounds(row: Seq<char>, c: int)
    ensures
        0 <= occ_row_from(row, c),
        0 <= c <= row.len() ==> occ_row_from(row, c) <= row.len() - c,
    decreases row.len() - c,
{
    if 0 <= c < row.len() {
        lemma_occ_row_bounds(row, c + 1);
    }
}

proof fn lemma_occ_bounds(g: Seq<Seq<char>>, r: int)
    requires
        wf_grid(g),
    ensures
        0 <= occ_from(g, r),
        g.len() == 0 ==> occ_from(g, r) == 0,
        g.len() > 0 && 0 <= r <= g.len() ==> occ_from(g, r) <= (g.len() - r) * g[0].len(),
    decreases g.len() - r,
{
    if 0 <= r < g.len() {
        lemma_occ_bounds(g, r + 1);
        lemma_occ_row_bounds(g[r], 0);
        assert((g.len() - r) * g[0].len() == (g.len() - r - 1) * g[0].len() + g[0].len())
            by (nonlinear_arith);
    }
}

/// Two rows that agree from column `c` on hold the same count there.
proof fn lemma_occ_row_agree(row1: Seq<char>, row2: Seq<char>, c: int)
    requires
        row1.len() == row2.len(),
        forall|i: int| c <= i < row1.len() ==> row1[i] == row2[i],
    ensures
        occ_row_from(row1, c) == occ_row_from(row2, c),
    decreases row1.len() - c,
{
    if 0 <= c < row1.len() {
        lemma_occ_row_agree(row1, row2, c + 1);
    }
}

/// Blanking one carpet cell of a row lowers the counts before it by one.
proof fn lemma_occ_row_update(row: Seq<char>, c0: int, c: int)
    requires
        0 <= c0 < row.len(),
        row[c0] == '@',
        0 <= c <= c0,
    ensures
        occ_row_from(row.update(c0, '.'), c) == occ_row_from(row, c) - 1,
    decreases row.len() - c,
{
    if c == c0 {
        lemma_occ_row_agree(row.update(c0, '.'), row, c0 + 1);
    } else {
        lemma_occ_row_update(row, c0, c + 1);
    }
}

/// Blanking one carpet cell lowers the grid count by one.
proof fn lemma_occ_update(g: Seq<Seq<char>>, r0: int, c0: int, r: int)
    requires
        0 <= r0 < g.len(),
        0 <= c0 < g[r0].len(),
        g[r0][c0] == '@',
        0 <= r <= r0,
    ensures
        occ_from(g.update(r0, g[r0].update(c0, '.')), r) == occ_from(g, r) - 1,
    decreases g.len() - r,
{
    let g2 = g.update(r0, g[r0].update(c0, '.'));
    if r == r0 {
        lemma_occ_row_update(g[r0], c0, 0);
        assert(occ_from(g2, r + 1) == occ_from(g, r + 1)) by {
            lemma_occ_from_agree(g2, g, r + 1);
        }
    } else {
        lemma_occ_update(g, r0, c0, r + 1);
        assert(g2[r] == g[r]);
    }
}

/// Two grids with the same rows from `r` on hold the same count there.
proof fn lemma_occ_from_agree(g1: Seq<Seq<char>>, g2: Seq<Seq<char>>, r: int)
    requires
        g1.len() == g2.len(),
        forall|i: int| r <= i < g1.len() ==> g1[i] == g2[i],
    ensures
        occ_from(g1, r) == occ_from(g2, r),
    decreases g1.len() - r,
{
    if 0 <= r < g1.len() {
        lemma_occ_from_agree(g1, g2, r + 1);
    }
}

/// Counts the carpets standing next to `(row, col)`.
fn count_neighbors(grid: &Vec<Vec<char>>, row: usize, col: usize) -> (n: u8)
    requires
        wf_grid(grid_view(grid@)),
        row < grid@.len(),
        col < grid@[row as int]@.len(),
    ensures
        n as int == nbr_count(grid_view(grid@), row as int, col as int),
{
    let ghost g = grid_view(grid@);
    proof {
        assert forall|r: int| 0 <= r < grid@.len() implies (#[trigger] grid@[r])@ == g[r]
            && grid@[r]@.len() == g[0].len() by {
            assert(g[r] == grid@[r]@);
            assert(g[r].len() == g[0].len());
        }
    }
    let rows = grid.len();
    let cols = grid[row].len();
    let mut n: u8 = 0;
    if row > 0 && col > 0 && grid[row - 1][col - 1] == '@' {
        n = n + 1;
    }
    proof {
        assert(n as int == ind(occupied(g, row as int - 1, col as int - 1)));
    }
    if row > 0 && grid[row - 1][col] == '@' {
        n = n + 1;
    }
    if row > 0 && col + 1 < cols && grid[row - 1][col + 1] == '@' {
        n = n + 1;
    }
    if col > 0 && grid[row][col - 1] == '@' {
        n = n + 1;
    }
    if col + 1 < cols && grid[row][col + 1] == '@' {
        n = n + 1;
    }
    if row + 1 < rows && col > 0 && grid[row + 1][col - 1] == '@' {
        n = n + 1;
    }
    if row + 1 < rows && grid[row + 1][col] == '@' {
        n = n + 1;
    }
    if row + 1 < rows && col + 1 < cols && grid[row + 1][col + 1] == '@' {
        n = n + 1;
    }
    n
}

/// Counts the carpets that touch fewer than four others and so could be
/// taken out in a first pass.
pub fn carpet_rolls(grid: &Vec<Vec<char>>) -> (r: u64)
    requires
        wf_grid(grid_view(grid@)),
        grid@.len() <= 0xffff_ffff,
        grid@.len() > 0 ==> grid@[0]@.len() <= 0xffff_ffff,
    ensures
        r == touch_from(grid_view(grid@), 0),
{
    let ghost g = grid_view(grid@);
    let rows = grid.len();
    let mut count: u64 = 0;
    let mut row: usize = 0;
    while row < rows
        invariant
            g == grid_view(grid@),
            wf_grid(g),
            rows == grid@.len() <= 0xffff_ffff,
            rows > 0 ==> grid@[0]@.len() <= 0xffff_ffff,
            row <= rows,
            count + touch_from(g, row as int) == touch_from(g, 0),
            count <= (row as int) * 0xffff_ffff,
        decreases rows - row,
    {
        let cols = grid[row].len();
        let mut col: usize = 0;
        while col < cols
            invariant
                g == grid_view(grid@),
                wf_grid(g),
                rows == grid@.len() <= 0xffff_ffff,
                rows > 0 ==> grid@[0]@.len() <= 0xffff_ffff,
                row < rows,
                cols == grid@[row as int]@.len(),
                col <= cols,
                count + row_touch_from(g, row as int, col as int) + touch_from(g, row as int + 1)
                    == touch_from(g, 0),
                count <= (row as int) * 0xffff_ffff + col,
            decreases cols - col,
        {
            if grid[row][col] == '@' {
                let n = count_neighbors(grid, row, col);
                if n < 4 {
                    count = count + 1;
                }
            }
            proof {
                assert(is_touch(g, row as int, col as int) <==> (g[row as int][col as int] == '@'
                    && nbr_count(g, row as int, col as int) < 4));
            }
            col = col + 1;
        }
        row = row + 1;
        proof {
            assert((row as int) * 0xffff_ffff == (row as int - 1) * 0xffff_ffff + 0xffff_ffff)
                by (nonlinear_arith);
        }
    }
    count
}

/// Taking out one carpet that touches fewer than four others keeps the
/// grid shape, keeps it inside the original, lowers the carpet count by
/// one, and spares every stable sub-grid of the original.
proof fn lemma_removal_step(g0: Seq<Seq<char>>, cur0: Seq<Seq<char>>, r0: int, c0: int)
    requires
        wf_grid(cur0),
        cur0.len() == g0.len(),
        forall|r: int| 0 <= r < cur0.len() ==> (#[trigger] cur0[r]).len() == g0[r].len(),
        covers(g0, cur0),
        keeps_stable_subgrids(g0, cur0),
        occupied(cur0, r0, c0),
        nbr_count(cur0, r0, c0) < 4,
    ensures
        ({
            let cur = cur0.update(r0, cur0[r0].update(c0, '.'));
            &&& wf_grid(cur)
            &&& cur.len() == g0.len()
            &&& forall|r: int| 0 <= r < cur.len() ==> (#[trigger] cur[r]).len() == g0[r].len()
            &&& covers(g0, cur)
            &&& keeps_stable_subgrids(g0, cur)
            &&& occ_count(cur) == occ_count(cur0) - 1
            &&& 0 <= occ_count(cur)
        }),
{
    reveal(covers);
    let cur = cur0.update(r0, cur0[r0].update(c0, '.'));
    lemma_occ_update(cur0, r0, c0, 0);
    assert forall|r: int| 0 <= r < cur.len() implies (#[trigger] cur[r]).len() == g0[r].len() by {
        assert(cur[r].len() == cur0[r].len());
    }
    assert(wf_grid(cur)) by {
        assert forall|r: int| 0 <= r < cur.len() implies (#[trigger] cur[r]).len() == cur[0].len() by {
            assert(cur[r].len() == cur0[r].len());
            assert(cur[0].len() == cur0[0].len());
        }
    }
    lemma_occ_bounds(cur, 0);
    assert(covers(g0, cur)) by {
        assert forall|r: int, c: int| #[trigger] occupied(cur, r, c) implies occupied(g0, r, c) by {
            if r == r0 && c == c0 {
                assert(cur[r][c] == '.');
                assert(false);
            } else {
                assert(cur[r][c] == cur0[r][c]);
                assert(occupied(cur0, r, c));
            }
        }
    }
    assert(keeps_stable_subgrids(g0, cur)) by {
        reveal(keeps_stable_subgrids);
        assert forall|t: Seq<Seq<char>>| covers(g0, t) && #[trigger] stable(t) implies covers(
            cur,
            t,
        ) by {
            assert(covers(cur0, t));
            if occupied(t, r0, c0) {
                assert(stable_cell(t, r0, c0));
                reveal(stable_cell);
                lemma_nbr_monotone(cur0, t, r0, c0);
                assert(false);
            }
            assert forall|r: int, c: int| #[trigger] occupied(t, r, c) implies occupied(
                cur,
                r,
                c,
            ) by {
                assert(occupied(cur0, r, c));
                assert(!(r == r0 && c == c0));
                assert(cur[r][c] == cur0[r][c]);
            }
        }
    }
}

/// Takes carpets out until none touches fewer than four others,
/// sweeping the grid again and again; a removal is visible to the
/// neighbour counts of the cells checked after it.  Returns how many
/// carpets were taken out.
///
/// The grid left behind is the largest sub-grid of the original in which
/// every carpet touches at least four others: any such stable sub-grid
/// survives every removal.
#[verifier::rlimit(100)]
pub fn remove_carpets(grid: &mut Vec<Vec<char>>) -> (removed: u64)
    requires
        wf_grid(grid_view(old(grid)@)),
        old(grid)@.len() <= 0xffff_ffff,
        old(grid)@.len() > 0 ==> old(grid)@[0]@.len() <= 0xffff_ffff,
    ensures
        final(grid)@.len() == old(grid)@.len(),
        forall|r: int|
            0 <= r < final(grid)@.len() ==> (#[trigger] final(grid)@[r])@.len()
                == old(grid)@[r]@.len(),
        covers(grid_view(old(grid)@), grid_view(final(grid)@)),
        stable(grid_view(final(grid)@)),
        forall|t: Seq<Seq<char>>|
            covers(grid_view(old(grid)@), t) && #[trigger] stable(t) ==> covers(
                grid_view(final(grid)@),
                t,
            ),
        removed == occ_count(grid_view(old(grid)@)) - occ_count(grid_view(final(grid)@)),
{
    let ghost g0 = grid_view(old(grid)@);
    proof {
        lemma_occ_bounds(g0, 0);
        if g0.len() > 0 {
            assert(g0.len() * g0[0].len() <= 0xffff_ffff * 0xffff_ffff) by (nonlinear_arith)
                requires
                    0 <= g0.len() <= 0xffff_ffff,
                    0 <= g0[0].len() <= 0xffff_ffff,
            ;
        }
    }
    proof {
        reveal(covers);
        assert(covers(g0, grid_view(grid@)));
        reveal(keeps_stable_subgrids);
        assert(keeps_stable_subgrids(g0, grid_view(grid@)));
    }
    let rows = grid.len();
    let mut removed: u64 = 0;
    let mut run = true;
    while run
        invariant
            rows == grid@.len(),
            grid@.len() == g0.len(),
            forall|r: int|
                0 <= r < grid@.len() ==> (#[trigger] grid@[r])@.len() == g0[r].len(),
            wf_grid(grid_view(grid@)),
            wf_grid(g0),
            g0.len() <= 0xffff_ffff,
            g0.len() > 0 ==> g0[0].len() <= 0xffff_ffff,
            occ_count(g0) <= 0xfffffffe_00000001,
            covers(g0, grid_view(grid@)),
            keeps_stable_subgrids(g0, grid_view(grid@)),
            removed + occ_count(grid_view(grid@)) == occ_count(g0),
            occ_count(grid_view(grid@)) >= 0,
            !run ==> stable(grid_view(grid@)),
        decreases occ_count(grid_view(grid@)), (if run {
            1int
        } else {
            0int
        }),
    {
        let ghost g_pass = grid_view(grid@);
        let mut pass_removed = false;
        let mut row: usize = 0;
        while row < rows
            invariant
                rows == grid@.len(),
                grid@.len() == g0.len(),
                forall|r: int|
                    0 <= r < grid@.len() ==> (#[trigger] grid@[r])@.len() == g0[r].len(),
                wf_grid(grid_view(grid@)),
                wf_grid(g0),
                g0.len() <= 0xffff_ffff,
                g0.len() > 0 ==> g0[0].len() <= 0xffff_ffff,
                occ_count(g0) <= 0xfffffffe_00000001,
                covers(g0, grid_view(grid@)),
                keeps_stable_subgrids(g0, grid_view(grid@)),
                removed + occ_count(grid_view(grid@)) == occ_count(g0),
                occ_count(grid_view(grid@)) >= 0,
                row <= rows,
                !pass_removed ==> grid_view(grid@) == g_pass,
                !pass_removed ==> forall|r: int, c: int|
                    0 <= r < row ==> #[trigger] stable_cell(grid_view(grid@), r, c),
                pass_removed ==> occ_count(grid_view(grid@)) < occ_count(g_pass),
                occ_count(grid_view(grid@)) <= occ_count(g_pass),
            decreases rows - row,
        {
            let cols = grid[row].len();
            let mut col: usize = 0;
            while col < cols
                invariant
                    rows == grid@.len(),
                    grid@.len() == g0.len(),
                    forall|r: int|
                        0 <= r < grid@.len() ==> (#[trigger] grid@[r])@.len() == g0[r].len(),
                    wf_grid(grid_view(grid@)),
                    wf_grid(g0),
                    g0.len() <= 0xffff_ffff,
                    g0.len() > 0 ==> g0[0].len() <= 0xffff_ffff,
                    occ_count(g0) <= 0xfffffffe_00000001,
                    covers(g0, grid_view(grid@)),
                    keeps_stable_subgrids(g0, grid_view(grid@)),
                    removed + occ_count(grid_view(grid@)) == occ_count(g0),
                    occ_count(grid_view(grid@)) >= 0,
                    row < rows,
                    cols == grid@[row as int]@.len(),
                    col <= cols,
                    !pass_removed ==> grid_view(grid@) == g_pass,
                    !pass_removed ==> forall|r: int, c: int|
                        0 <= r < row ==> #[trigger] stable_cell(grid_view(grid@), r, c),
                    !pass_removed ==> forall|c: int|
                        0 <= c < col ==> #[trigger] stable_cell(grid_view(grid@), row as int, c),
                    pass_removed ==> occ_count(grid_view(grid@)) < occ_count(g_pass),
                    occ_count(grid_view(grid@)) <= occ_count(g_pass),
                decreases cols - col,
            {
                let ghost cur0 = grid_view(grid@);
                proof {
                    assert(cur0[row as int] == grid@[row as int]@);
                }
                if grid[row][col] == '@' {
                    let n = count_neighbors(grid, row, col);
                    if n < 4 {
                        grid[row][col] = '.';
                        removed = removed + 1;
                        pass_removed = true;
                        proof {
                            let cur = grid_view(grid@);
                            assert(cur =~= cur0.update(
                                row as int,
                                cur0[row as int].update(col as int, '.'),
                            ));
                            assert(occupied(cur0, row as int, col as int));
                            lemma_removal_step(g0, cur0, row as int, col as int);
                            assert forall|r: int|
                                0 <= r < grid@.len() implies (#[trigger] grid@[r])@.len()
                                == g0[r].len() by {
                                assert(cur[r] == grid@[r]@);
                                assert(cur[r].len() == g0[r].len());
                            }
                        }
                    } else {
                        proof {
                            reveal(stable_cell);
                            assert(nbr_count(cur0, row as int, col as int) >= 4);
                            assert(stable_cell(cur0, row as int, col as int));
                        }
                    }
                } else {
                    proof {
                        reveal(stable_cell);
                        assert(!occupied(cur0, row as int, col as int));
                        assert(stable_cell(cur0, row as int, col as int));
                    }
                }
                proof {
                    if !pass_removed {
                        assert forall|c: int|
                            0 <= c < col + 1 implies #[trigger] stable_cell(
                            grid_view(grid@),
                            row as int,
                            c,
                        ) by {
                        }
                    }
                }
                col = col + 1;
            }
            proof {
                if !pass_removed {
                    assert forall|r: int, c: int|
                        0 <= r < row + 1 implies #[trigger] stable_cell(
                        grid_view(grid@),
                        r,
                        c,
                    ) by {
                        if r == row as int && !(0 <= c < cols) {
                            reveal(stable_cell);
                            assert(grid_view(grid@)[r] == grid@[r]@);
                            assert(!occupied(grid_view(grid@), r, c));
                        }
                    }
                }
            }
            row = row + 1;
        }
        if !pass_removed {
            run = false;
            proof {
                assert forall|r: int, c: int| #[trigger] stable_cell(
                    grid_view(grid@),
                    r,
                    c,
                ) by {
                    if !(0 <= r < rows) {
                        reveal(stable_cell);
                        assert(!occupied(grid_view(grid@), r, c));
                    }
                }
            }
        }
    }
    proof {
        reveal(keeps_stable_subgrids);
    }
    removed
}

} // verus!
