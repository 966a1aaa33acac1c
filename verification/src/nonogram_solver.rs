//! The grid propagator: repeated line solving to a fixpoint.
//!
//! The grid keeps a by-row and a by-column view of the same cell masks.
//! Each round re-solves every not-yet-determined row, then every
//! not-yet-determined column, and intersects the two views of every cell.
//! A wrapping checksum of the intersected masks detects convergence: masks
//! only ever lose bits, so an unchanged checksum means an unchanged grid
//! as long as the exact sum stays within the checksum's range.

use vstd::prelude::*;

use crate::grid_model::GroupsView;
use crate::grid_model::MaskGrid;
use crate::masks::spec_single_bit;
use crate::one_line_solver::OneLineSolver;
use crate::puzzle_crawler::Group;
use crate::puzzle_crawler::PuzzleData;

verus! {

/// A finished solve: the palette and the final grid of cell masks.
#[derive(Debug, Clone, PartialEq)]
pub struct SolvedPuzzle {
    pub color_panel: Vec<String>,
    pub grid: Vec<Vec<u64>>,
}

/// A solve recorded round by round: the palette and the grid after every
/// state-changing round, starting with the all-unknown grid.
#[derive(Debug, Clone, PartialEq)]
pub struct SolveSteps {
    pub color_panel: Vec<String>,
    pub steps: Vec<Vec<Vec<u64>>>,
}

/// Why a puzzle was not solved.
#[derive(Debug)]
pub enum SolveError {
    TooManyColors(usize),
    Unsolvable,
}

/// The run lists of one orientation, as pairs.
pub open spec fn groups_view(gs: Seq<Vec<Group>>) -> GroupsView {
    Seq::new(
        gs.len(),
        |r: int| Seq::new(gs[r]@.len(), |j: int| (gs[r]@[j].len, gs[r]@[j].color_id)),
    )
}

/// The run lists of one orientation, from converted pairs.
pub open spec fn tuples_view(gs: Seq<Vec<(usize, usize)>>) -> GroupsView {
    gs.map_values(|row: Vec<(usize, usize)>| row@)
}

/// The masks of a grid, by row.
pub open spec fn grid_view(g: Seq<Vec<u64>>) -> MaskGrid {
    g.map_values(|row: Vec<u64>| row@)
}

/// The recorded grids of a stepped solve.
pub open spec fn steps_view(s: Seq<Vec<Vec<u64>>>) -> Seq<MaskGrid> {
    s.map_values(|g: Vec<Vec<u64>>| grid_view(g@))
}

/// Does `mask` have exactly one bit set?
pub fn is_single_bit(mask: u64) -> (r: bool)
    ensures
        r == spec_single_bit(mask),
{
    mask != 0 && (mask & (mask - 1)) == 0
}

/// A mask with exactly one bit set names that bit's color.
proof fn lemma_single_bit_shift(m: u64, c: u64)
    by (bit_vector)
    requires
        m != 0,
        m & ((m - 1) as u64) == 0,
        c < 64,
        (m >> c) & 1u64 == 1u64,
    ensures
        m == 1u64 << c,
{
}

/// The color index of a determined cell: `Some(c)` when `mask` has exactly
/// the bit of color `c` set, `None` when the cell is open or contradictory.
pub fn mask_to_color_index(mask: u64) -> (r: Option<usize>)
    ensures
        r is Some <==> spec_single_bit(mask),
        r matches Some(c) ==> c < 64 && mask == (1u64 << c as u64),
{
    if is_single_bit(mask) {
        let tz = mask.trailing_zeros();
        proof {
            vstd::std_specs::bits::axiom_u64_trailing_zeros(mask);
            lemma_single_bit_shift(mask, tz as u64);
        }
        Some(tz as usize)
    } else {
        None
    }
}

/// Turn run lists of `Group`s into `(length, color)` pairs.
pub fn convert_groups(groups: &Vec<Vec<Group>>) -> (r: Vec<Vec<(usize, usize)>>)
    ensures
        tuples_view(r@) == groups_view(groups@),
        r@.len() == groups@.len(),
        forall|i: int| 0 <= i < groups@.len() ==> (#[trigger] r@[i])@.len() == groups@[i]@.len(),
{
    let mut out: Vec<Vec<(usize, usize)>> = Vec::new();
    let mut i: usize = 0;
    while i < groups.len()
        invariant
            i <= groups@.len(),
            out@.len() == i,
            forall|r2: int| 0 <= r2 < i ==> (#[trigger] out@[r2])@.len() == groups@[r2]@.len(),
            forall|r2: int, j: int| 0 <= r2 < i && 0 <= j < groups@[r2]@.len()
                ==> (#[trigger] out@[r2]@[j]) == (groups@[r2]@[j].len, groups@[r2]@[j].color_id),
        decreases groups@.len() - i,
    {
        let row = &groups[i];
        let mut conv: Vec<(usize, usize)> = Vec::new();
        let mut j: usize = 0;
        while j < row.len()
            invariant
                j <= row@.len(),
                conv@.len() == j,
                forall|q: int| 0 <= q < j
                    ==> (#[trigger] conv@[q]) == (row@[q].len, row@[q].color_id),
            decreases row@.len() - j,
        {
            conv.push((row[j].len, row[j].color_id));
            j = j + 1;
        }
        out.push(conv);
        i = i + 1;
    }
    proof {
        assert(tuples_view(out@) =~~= groups_view(groups@));
    }
    out
}

/// Re-solve every line of one orientation that is not yet flagged
/// determined, flagging those that come out fully determined.  Returns
/// `false` as soon as a line proves infeasible.
pub fn update_groups_state(
    solver: &mut OneLineSolver,
    dead: &mut Vec<bool>,
    groups: &Vec<Vec<(usize, usize)>>,
    masks: &mut Vec<Vec<u64>>,
) -> (ok: bool)
    requires
        old(solver).wf(),
        old(dead)@.len() == groups@.len(),
        old(masks)@.len() == groups@.len(),
        forall|r: int| 0 <= r < groups@.len() ==> (#[trigger] old(masks)@[r])@.len() < usize::MAX,
        forall|r: int| 0 <= r < groups@.len() ==> (#[trigger] groups@[r])@.len() < usize::MAX,
    ensures
        final(solver).wf(),
        final(dead)@.len() == old(dead)@.len(),
        final(masks)@.len() == old(masks)@.len(),
        forall|r: int| 0 <= r < old(masks)@.len()
            ==> (#[trigger] final(masks)@[r])@.len() == old(masks)@[r]@.len(),
        ok == crate::grid_model::lines_pass_ok(
            tuples_view(groups@),
            grid_view(old(masks)@),
            old(dead)@,
        ),
        ok ==> grid_view(final(masks)@) == crate::grid_model::lines_pass_masks(
            tuples_view(groups@),
            grid_view(old(masks)@),
            old(dead)@,
        ),
        ok ==> final(dead)@ == crate::grid_model::lines_pass_dead(
            tuples_view(groups@),
            grid_view(old(masks)@),
            old(dead)@,
        ),
{
    let count = groups.len();
    let ghost gv = tuples_view(groups@);
    let ghost masks0 = grid_view(old(masks)@);
    let ghost dead0 = old(dead)@;
    let ghost spec_masks = crate::grid_model::lines_pass_masks(gv, masks0, dead0);
    let ghost spec_dead = crate::grid_model::lines_pass_dead(gv, masks0, dead0);
    let mut idx: usize = 0;
    while idx < count
        invariant
            idx <= count,
            count == groups@.len(),
            gv == tuples_view(groups@),
            masks0 == grid_view(old(masks)@),
            dead0 == old(dead)@,
            spec_masks == crate::grid_model::lines_pass_masks(gv, masks0, dead0),
            spec_dead == crate::grid_model::lines_pass_dead(gv, masks0, dead0),
            solver.wf(),
            dead@.len() == count,
            masks@.len() == count,
            masks0.len() == count,
            dead0.len() == count,
            forall|r: int| 0 <= r < count ==> (#[trigger] masks0[r]).len() < usize::MAX,
            forall|r: int| 0 <= r < count ==> (#[trigger] gv[r]).len() < usize::MAX,
            forall|r: int| idx <= r < count ==> (#[trigger] masks@[r])@ == masks0[r],
            forall|r: int| idx <= r < count ==> (#[trigger] dead@[r]) == dead0[r],
            forall|r: int| 0 <= r < idx && !dead0[r]
                ==> crate::one_line_solver::line_fillable(#[trigger] gv[r], masks0[r], 0, 0),
            forall|r: int| 0 <= r < idx ==> (#[trigger] masks@[r])@ == spec_masks[r],
            forall|r: int| 0 <= r < idx ==> (#[trigger] dead@[r]) == spec_dead[r],
        decreases count - idx,
    {
        if !dead[idx] {
            let mut line = masks[idx].clone();
            proof {
                assert(line@ =~= masks@[idx as int]@);
                assert(gv[idx as int] == groups@[idx as int]@);
                assert(gv[idx as int].len() < usize::MAX);
                assert(masks0[idx as int].len() < usize::MAX);
            }
            let line_ok = solver.update_state(&groups[idx], &mut line);
            if !line_ok {
                proof {
                    assert(!crate::grid_model::lines_pass_ok(gv, masks0, dead0)) by {
                        assert(gv[idx as int] == groups@[idx as int]@);
                        assert(!crate::one_line_solver::line_fillable(
                            gv[idx as int],
                            masks0[idx as int],
                            0,
                            0,
                        ));
                    }
                }
                return false;
            }
            masks[idx] = line;
            proof {
                assert(masks@[idx as int]@ == crate::one_line_solver::solved_line(
                    gv[idx as int],
                    masks0[idx as int],
                ));
                assert(masks@[idx as int]@ == spec_masks[idx as int]);
            }
            let mut alls = true;
            let line_len = masks[idx].len();
            let mut j: usize = 0;
            while j < line_len
                invariant
                    j <= line_len,
                    idx < count,
                    masks@.len() == count,
                    line_len == masks@[idx as int]@.len(),
                    alls ==> forall|q: int| 0 <= q < j
                        ==> spec_single_bit(#[trigger] masks@[idx as int]@[q]),
                    !alls ==> exists|q: int| 0 <= q < j
                        && !spec_single_bit(#[trigger] masks@[idx as int]@[q]),
                decreases line_len - j,
            {
                if !is_single_bit(masks[idx][j]) {
                    alls = false;
                }
                j = j + 1;
            }
            proof {
                assert(alls == crate::grid_model::all_single(spec_masks[idx as int]));
                assert(spec_dead[idx as int] == (dead0[idx as int] || crate::grid_model::all_single(
                    spec_masks[idx as int],
                )));
            }
            dead[idx] = alls;
        } else {
            proof {
                assert(masks@[idx as int]@ == spec_masks[idx as int]);
                assert(dead@[idx as int] == spec_dead[idx as int]);
            }
        }
        idx = idx + 1;
    }
    proof {
        assert(grid_view(masks@) =~~= spec_masks);
        assert(dead@ =~= spec_dead);
    }
    true
}

/// Intersect the row and column view of every cell, store the intersection
/// into both views, and return the wrapping checksum of the grid.
pub fn update_cell_values(row_masks: &mut Vec<Vec<u64>>, col_masks: &mut Vec<Vec<u64>>) -> (total: u64)
    requires
        forall|r: int| 0 <= r < old(row_masks)@.len()
            ==> (#[trigger] old(row_masks)@[r])@.len() == old(col_masks)@.len(),
        forall|c: int| 0 <= c < old(col_masks)@.len()
            ==> (#[trigger] old(col_masks)@[c])@.len() == old(row_masks)@.len(),
    ensures
        final(row_masks)@.len() == old(row_masks)@.len(),
        final(col_masks)@.len() == old(col_masks)@.len(),
        forall|r: int| 0 <= r < old(row_masks)@.len()
            ==> (#[trigger] final(row_masks)@[r])@.len() == old(row_masks)@[r]@.len(),
        forall|c: int| 0 <= c < old(col_masks)@.len()
            ==> (#[trigger] final(col_masks)@[c])@.len() == old(col_masks)@[c]@.len(),
        grid_view(final(row_masks)@) == crate::grid_model::intersect_rows(
            grid_view(old(row_masks)@),
            grid_view(old(col_masks)@),
        ),
        grid_view(final(col_masks)@) == crate::grid_model::intersect_cols(
            grid_view(old(row_masks)@),
            grid_view(old(col_masks)@),
        ),
        total == crate::grid_model::grid_checksum(
            crate::grid_model::intersect_rows(grid_view(old(row_masks)@), grid_view(old(col_masks)@)),
        ),
{
    let m = row_masks.len();
    let ghost rows0 = grid_view(old(row_masks)@);
    let ghost cols0 = grid_view(old(col_masks)@);
    let ghost irows = crate::grid_model::intersect_rows(rows0, cols0);
    let ghost icols = crate::grid_model::intersect_cols(rows0, cols0);
    let mut total: u64 = 0;
    let mut row: usize = 0;
    while row < m
        invariant
            row <= m,
            m == row_masks@.len(),
            rows0 == grid_view(old(row_masks)@),
            cols0 == grid_view(old(col_masks)@),
            irows == crate::grid_model::intersect_rows(rows0, cols0),
            icols == crate::grid_model::intersect_cols(rows0, cols0),
            m == rows0.len(),
            col_masks@.len() == cols0.len(),
            forall|r: int| 0 <= r < m ==> (#[trigger] rows0[r]).len() == cols0.len(),
            forall|c: int| 0 <= c < cols0.len() ==> (#[trigger] cols0[c]).len() == m,
            forall|r: int| 0 <= r < m ==> (#[trigger] row_masks@[r])@.len() == rows0[r].len(),
            forall|c: int| 0 <= c < cols0.len() ==> (#[trigger] col_masks@[c])@.len() == m,
            forall|r: int, c: int| 0 <= r < m && 0 <= c < rows0[r].len()
                ==> (#[trigger] row_masks@[r]@[c]) == (if r < row {
                    irows[r][c]
                } else {
                    rows0[r][c]
                }),
            forall|c: int, r: int| 0 <= c < cols0.len() && 0 <= r < m
                ==> (#[trigger] col_masks@[c]@[r]) == (if r < row {
                    icols[c][r]
                } else {
                    cols0[c][r]
                }),
            total == crate::grid_model::grid_checksum_upto(irows, row as int),
        decreases m - row,
    {
        let n = row_masks[row].len();
        let mut col: usize = 0;
        while col < n
            invariant
                col <= n,
                row < m,
                m == row_masks@.len(),
                rows0 == grid_view(old(row_masks)@),
                cols0 == grid_view(old(col_masks)@),
                irows == crate::grid_model::intersect_rows(rows0, cols0),
                icols == crate::grid_model::intersect_cols(rows0, cols0),
                m == rows0.len(),
                col_masks@.len() == cols0.len(),
                n == rows0[row as int].len(),
                forall|r: int| 0 <= r < m ==> (#[trigger] rows0[r]).len() == cols0.len(),
                forall|c: int| 0 <= c < cols0.len() ==> (#[trigger] cols0[c]).len() == m,
                forall|r: int| 0 <= r < m ==> (#[trigger] row_masks@[r])@.len() == rows0[r].len(),
                forall|c: int| 0 <= c < cols0.len() ==> (#[trigger] col_masks@[c])@.len() == m,
                forall|r: int, c: int| 0 <= r < m && 0 <= c < rows0[r].len()
                    ==> (#[trigger] row_masks@[r]@[c]) == (if r < row || (r == row && c < col) {
                        irows[r][c]
                    } else {
                        rows0[r][c]
                    }),
                forall|c: int, r: int| 0 <= c < cols0.len() && 0 <= r < m
                    ==> (#[trigger] col_masks@[c]@[r]) == (if r < row || (r == row && c < col) {
                        icols[c][r]
                    } else {
                        cols0[c][r]
                    }),
                total == crate::grid_model::line_checksum(
                    crate::grid_model::grid_checksum_upto(irows, row as int),
                    irows[row as int],
                    col as int,
                ),
            decreases n - col,
        {
            let combined = row_masks[row][col] & col_masks[col][row];
            row_masks[row][col] = combined;
            col_masks[col][row] = combined;
            total = total.wrapping_add(combined);
            col = col + 1;
        }
        row = row + 1;
    }
    proof {
        assert(grid_view(row_masks@) =~~= irows);
        assert(grid_view(col_masks@) =~~= icols);
    }
    total
}

/// A grid of `rows` lines of `cols` cells, every mask set to `value`.
fn filled_grid(rows: usize, cols: usize, value: u64) -> (g: Vec<Vec<u64>>)
    ensures
        g@.len() == rows,
        forall|r: int| 0 <= r < rows ==> (#[trigger] g@[r])@.len() == cols,
        forall|r: int, c: int| 0 <= r < rows && 0 <= c < cols ==> (#[trigger] g@[r]@[c]) == value,
{
    let mut g: Vec<Vec<u64>> = Vec::new();
    let mut r: usize = 0;
    while r < rows
        invariant
            r <= rows,
            g@.len() == r,
            forall|q: int| 0 <= q < r ==> (#[trigger] g@[q])@.len() == cols,
            forall|q: int, c: int| 0 <= q < r && 0 <= c < cols ==> (#[trigger] g@[q]@[c]) == value,
        decreases rows - r,
    {
        let mut row: Vec<u64> = Vec::new();
        let mut c: usize = 0;
        while c < cols
            invariant
                c <= cols,
                row@.len() == c,
                forall|q: int| 0 <= q < c ==> (#[trigger] row@[q]) == value,
            decreases cols - c,
        {
            row.push(value);
            c = c + 1;
        }
        g.push(row);
        r = r + 1;
    }
    g
}

/// A vector of `count` flags, all cleared.
fn filled_flags(count: usize) -> (v: Vec<bool>)
    ensures
        v@.len() == count,
        forall|i: int| 0 <= i < count ==> (#[trigger] v@[i]) == false,
{
    let mut v: Vec<bool> = Vec::new();
    let mut i: usize = 0;
    while i < count
        invariant
            i <= count,
            v@.len() == i,
            forall|q: int| 0 <= q < i ==> (#[trigger] v@[q]) == false,
        decreases count - i,
    {
        v.push(false);
        i = i + 1;
    }
    v
}

/// A deep copy of a grid of masks.
fn clone_grid(g: &Vec<Vec<u64>>) -> (r: Vec<Vec<u64>>)
    ensures
        grid_view(r@) == grid_view(g@),
        r@.len() == g@.len(),
{
    let mut out: Vec<Vec<u64>> = Vec::new();
    let mut i: usize = 0;
    while i < g.len()
        invariant
            i <= g@.len(),
            out@.len() == i,
            forall|q: int| 0 <= q < i ==> (#[trigger] out@[q])@ == g@[q]@,
        decreases g@.len() - i,
    {
        let row = g[i].clone();
        proof {
            assert(row@ =~= g@[i as int]@);
        }
        out.push(row);
        i = i + 1;
    }
    proof {
        assert(grid_view(out@) =~~= grid_view(g@));
    }
    out
}

/// The exec grid state as a model state.
pub open spec fn exec_state(
    rows: Seq<Vec<u64>>,
    cols: Seq<Vec<u64>>,
    dead_rows: Seq<bool>,
    dead_cols: Seq<bool>,
) -> crate::grid_model::SolveState {
    crate::grid_model::SolveState {
        row_masks: grid_view(rows),
        col_masks: grid_view(cols),
        dead_rows: dead_rows,
        dead_cols: dead_cols,
    }
}

/// The mask that allows the first `colors` colors.
pub open spec fn full_color_mask(colors: nat) -> u64 {
    ((1u64 << colors as u64) - 1) as u64
}

/// The model's initial state for a puzzle.
pub open spec fn puzzle_initial_state(data: PuzzleData) -> crate::grid_model::SolveState {
    crate::grid_model::initial_state(
        data.row_groups@.len() as int,
        data.col_groups@.len() as int,
        full_color_mask(data.color_panel@.len()),
    )
}

/// The model's answer for a puzzle: the recorded grids, or `None` when it
/// is unsolvable.
pub open spec fn puzzle_spec_steps(data: PuzzleData) -> Option<Seq<MaskGrid>> {
    crate::grid_model::spec_steps(
        groups_view(data.row_groups@),
        groups_view(data.col_groups@),
        puzzle_initial_state(data),
        u64::MAX,
    )
}

/// What `solve_puzzle_steps` returns: the palette-size check first, then
/// exactly what the model says — `Unsolvable` when it gives `None`, and
/// otherwise the initial all-open grid followed by the model's recorded
/// rounds.
pub open spec fn solve_steps_post(data: PuzzleData, r: Result<SolveSteps, SolveError>) -> bool {
    let colors = data.color_panel@.len();
    if colors == 0 || colors > 63 {
        match r {
            Err(SolveError::TooManyColors(k)) => k == colors,
            _ => false,
        }
    } else {
        match puzzle_spec_steps(data) {
            None => r matches Err(SolveError::Unsolvable),
            Some(rest) => match r {
                Ok(st) => st.color_panel == data.color_panel && steps_view(st.steps@)
                    == seq![puzzle_initial_state(data).row_masks] + rest,
                _ => false,
            },
        }
    }
}

/// Solve a puzzle, recording the grid after every state-changing round.
///
/// Rejects a palette that is empty or too large for the 64-bit masks, then
/// repeats rounds — rows, columns, intersection — until the grid's
/// checksum stops changing, or a line proves infeasible.
pub fn solve_puzzle_steps(data: PuzzleData) -> (r: Result<SolveSteps, SolveError>)
    requires
        data.row_groups@.len() < usize::MAX,
        data.col_groups@.len() < usize::MAX,
        forall|i: int| 0 <= i < data.row_groups@.len()
            ==> (#[trigger] data.row_groups@[i])@.len() < usize::MAX,
        forall|i: int| 0 <= i < data.col_groups@.len()
            ==> (#[trigger] data.col_groups@[i])@.len() < usize::MAX,
    ensures
        solve_steps_post(data, r),
{
    let color_count = data.color_panel.len();
    if color_count == 0 || color_count > 63 {
        return Err(SolveError::TooManyColors(color_count));
    }
    let shifted = 1u64 << (color_count as u64);
    proof {
        let cc = color_count as u64;
        assert(1u64 << cc >= 1) by (bit_vector)
            requires
                cc <= 63,
        ;
    }
    let full_mask = shifted - 1;
    let row_groups = convert_groups(&data.row_groups);
    let col_groups = convert_groups(&data.col_groups);
    let m = row_groups.len();
    let n = col_groups.len();
    let mut row_masks = filled_grid(m, n, full_mask);
    let mut col_masks = filled_grid(n, m, full_mask);
    let mut dead_rows = filled_flags(m);
    let mut dead_cols = filled_flags(n);
    let mut solver = OneLineSolver::new(if m > n { m } else { n });
    let mut steps: Vec<Vec<Vec<u64>>> = Vec::new();
    steps.push(clone_grid(&row_masks));
    let ghost rg = groups_view(data.row_groups@);
    let ghost cg = groups_view(data.col_groups@);
    let ghost st0 = puzzle_initial_state(data);
    let ghost target = puzzle_spec_steps(data);
    proof {
        assert(grid_view(row_masks@) =~~= st0.row_masks);
        assert(grid_view(col_masks@) =~~= st0.col_masks);
        assert(dead_rows@ =~= st0.dead_rows);
        assert(dead_cols@ =~= st0.dead_cols);
        assert(steps_view(steps@) =~= seq![st0.row_masks]);
        assert(steps_view(steps@).skip(1) =~= Seq::<MaskGrid>::empty());
        match target {
            Some(rest) => {
                assert(steps_view(steps@).skip(1) + rest =~= rest);
            },
            None => {},
        }
    }
    let mut prev_sum = u64::MAX;
    loop
        invariant_except_break
            0 < data.color_panel@.len() <= 63,
            m == data.row_groups@.len(),
            n == data.col_groups@.len(),
            rg == groups_view(data.row_groups@),
            cg == groups_view(data.col_groups@),
            st0 == puzzle_initial_state(data),
            target == puzzle_spec_steps(data),
            tuples_view(row_groups@) == rg,
            tuples_view(col_groups@) == cg,
            row_groups@.len() == m,
            col_groups@.len() == n,
            solver.wf(),
            m < usize::MAX,
            n < usize::MAX,
            forall|i: int| 0 <= i < m ==> (#[trigger] row_groups@[i])@.len() < usize::MAX,
            forall|i: int| 0 <= i < n ==> (#[trigger] col_groups@[i])@.len() < usize::MAX,
            row_masks@.len() == m,
            col_masks@.len() == n,
            dead_rows@.len() == m,
            dead_cols@.len() == n,
            forall|r2: int| 0 <= r2 < m ==> (#[trigger] row_masks@[r2])@.len() == n,
            forall|c2: int| 0 <= c2 < n ==> (#[trigger] col_masks@[c2])@.len() == m,
            steps@.len() >= 1,
            steps_view(steps@)[0] == st0.row_masks,
            target == (match crate::grid_model::spec_steps(
                rg,
                cg,
                exec_state(row_masks@, col_masks@, dead_rows@, dead_cols@),
                prev_sum,
            ) {
                None => None::<Seq<MaskGrid>>,
                Some(rest) => Some(steps_view(steps@).skip(1) + rest),
            }),
        ensures
            0 < data.color_panel@.len() <= 63,
            st0 == puzzle_initial_state(data),
            target == puzzle_spec_steps(data),
            steps@.len() >= 1,
            steps_view(steps@)[0] == st0.row_masks,
            target == Some(steps_view(steps@).skip(1)),
        decreases
                crate::grid_model::grid_total(grid_view(row_masks@)) + crate::grid_model::grid_total(
                    grid_view(col_masks@),
                ),
                (if prev_sum == crate::grid_model::grid_checksum(grid_view(row_masks@)) {
                    0int
                } else {
                    1int
                }),
    {
        let ghost cur = exec_state(row_masks@, col_masks@, dead_rows@, dead_cols@);
        if !update_groups_state(&mut solver, &mut dead_rows, &row_groups, &mut row_masks) {
            proof {
                assert(!crate::grid_model::round_ok(rg, cg, cur));
            }
            return Err(SolveError::Unsolvable);
        }
        if !update_groups_state(&mut solver, &mut dead_cols, &col_groups, &mut col_masks) {
            proof {
                assert(!crate::grid_model::round_ok(rg, cg, cur));
            }
            return Err(SolveError::Unsolvable);
        }
        let cur_sum = update_cell_values(&mut row_masks, &mut col_masks);
        let ghost st2 = crate::grid_model::round_state(rg, cg, cur);
        proof {
            assert(crate::grid_model::round_ok(rg, cg, cur));
            assert(grid_view(row_masks@) == st2.row_masks);
            assert(grid_view(col_masks@) == st2.col_masks);
            assert(dead_rows@ == st2.dead_rows);
            assert(dead_cols@ == st2.dead_cols);
            assert(cur_sum == crate::grid_model::grid_checksum(st2.row_masks));
        }
        if cur_sum == prev_sum {
            proof {
                match target {
                    Some(rest) => {
                        assert(steps_view(steps@).skip(1) + Seq::<MaskGrid>::empty() =~= steps_view(
                            steps@,
                        ).skip(1));
                    },
                    None => {},
                }
            }
            break;
        }
        proof {
            crate::grid_model::lemma_round_measure(rg, cg, cur, prev_sum);
        }
        prev_sum = cur_sum;
        let ghost steps_before = steps@;
        steps.push(clone_grid(&row_masks));
        proof {
            assert(steps_view(steps@).skip(1) =~= steps_view(steps_before).skip(1) + seq![
                st2.row_masks,
            ]);
            match crate::grid_model::spec_steps(rg, cg, st2, cur_sum) {
                Some(rest2) => {
                    assert(steps_view(steps_before).skip(1) + (seq![st2.row_masks] + rest2)
                        =~= steps_view(steps@).skip(1) + rest2);
                },
                None => {},
            }
        }
    }
    proof {
        assert(steps_view(steps@) =~= seq![steps_view(steps@)[0]] + steps_view(steps@).skip(1));
    }
    Ok(SolveSteps { color_panel: data.color_panel, steps })
}

/// What `solve_puzzle` returns: the palette-size check first, then the
/// model's final recorded grid — the all-open grid when the puzzle
/// converges at once — or `Unsolvable`.
pub open spec fn solve_post(data: PuzzleData, r: Result<SolvedPuzzle, SolveError>) -> bool {
    let colors = data.color_panel@.len();
    if colors == 0 || colors > 63 {
        match r {
            Err(SolveError::TooManyColors(k)) => k == colors,
            _ => false,
        }
    } else {
        match puzzle_spec_steps(data) {
            None => r matches Err(SolveError::Unsolvable),
            Some(rest) => match r {
                Ok(sp) => sp.color_panel == data.color_panel && grid_view(sp.grid@) == (seq![
                    puzzle_initial_state(data).row_masks,
                ] + rest).last(),
                _ => false,
            },
        }
    }
}

/// Solve a puzzle and return its final grid.
pub fn solve_puzzle(data: PuzzleData) -> (r: Result<SolvedPuzzle, SolveError>)
    requires
        data.row_groups@.len() < usize::MAX,
        data.col_groups@.len() < usize::MAX,
        forall|i: int| 0 <= i < data.row_groups@.len()
            ==> (#[trigger] data.row_groups@[i])@.len() < usize::MAX,
        forall|i: int| 0 <= i < data.col_groups@.len()
            ==> (#[trigger] data.col_groups@[i])@.len() < usize::MAX,
    ensures
        solve_post(data, r),
{
    let steps = match solve_puzzle_steps(data) {
        Ok(steps) => steps,
        Err(e) => {
            return Err(e);
        },
    };
    let count = steps.steps.len();
    if count == 0 {
        proof {
            assert(steps_view(steps.steps@).len() == steps.steps@.len());
        }
        return Err(SolveError::Unsolvable);
    }
    let grid = clone_grid(&steps.steps[count - 1]);
    proof {
        assert(grid_view(grid@) == steps_view(steps.steps@).last());
    }
    Ok(SolvedPuzzle { color_panel: steps.color_panel, grid })
}

} // verus!
