//! The mathematical model of one grid-solving round and of the whole
//! fixpoint iteration.
//!
//! The propagator keeps two views of the grid — by row and by column — and
//! a round is: re-solve every not-yet-determined row, then every
//! not-yet-determined column, then intersect the two views of every cell
//! and store the intersection into both, computing a wrapping checksum of
//! the intersected cells on the way.  Rounds repeat until the checksum
//! stops changing.  `spec_steps` is that iteration as a function: it
//! returns the row view recorded after every state-changing round, or
//! `None` when some line becomes infeasible.

use vstd::prelude::*;

use crate::masks::mask_subset;
use crate::masks::spec_single_bit;
use crate::one_line_solver::line_fillable;
use crate::one_line_solver::solved_line;

verus! {

/// The row view of a grid of masks.
pub type MaskGrid = Seq<Seq<u64>>;

/// The run lists of every line of one orientation.
pub type GroupsView = Seq<Seq<(usize, usize)>>;

/// Every cell of the line is determined.
pub open spec fn all_single(cells: Seq<u64>) -> bool {
    forall|j: int| 0 <= j < cells.len() ==> spec_single_bit(#[trigger] cells[j])
}

/// One line pass succeeds: every line not yet flagged determined is still
/// feasible.
pub open spec fn lines_pass_ok(groups: GroupsView, masks: MaskGrid, dead: Seq<bool>) -> bool {
    forall|r: int| 0 <= r < masks.len() && !dead[r]
        ==> line_fillable(#[trigger] groups[r], masks[r], 0, 0)
}

/// The masks after one line pass: every line not yet flagged determined is
/// replaced by its solved masks.
pub open spec fn lines_pass_masks(groups: GroupsView, masks: MaskGrid, dead: Seq<bool>) -> MaskGrid {
    Seq::new(
        masks.len(),
        |r: int|
            if dead[r] {
                masks[r]
            } else {
                solved_line(groups[r], masks[r])
            },
    )
}

/// The determined flags after one line pass: a line stays flagged, or
/// becomes flagged when every cell it now holds is determined.
pub open spec fn lines_pass_dead(groups: GroupsView, masks: MaskGrid, dead: Seq<bool>) -> Seq<bool> {
    Seq::new(
        dead.len(),
        |r: int| dead[r] || all_single(lines_pass_masks(groups, masks, dead)[r]),
    )
}

/// The row view after intersecting both views of every cell.
pub open spec fn intersect_rows(row_masks: MaskGrid, col_masks: MaskGrid) -> MaskGrid {
    Seq::new(
        row_masks.len(),
        |r: int| Seq::new(row_masks[r].len(), |c: int| row_masks[r][c] & col_masks[c][r]),
    )
}

/// The column view after intersecting both views of every cell.
pub open spec fn intersect_cols(row_masks: MaskGrid, col_masks: MaskGrid) -> MaskGrid {
    Seq::new(
        col_masks.len(),
        |c: int| Seq::new(col_masks[c].len(), |r: int| row_masks[r][c] & col_masks[c][r]),
    )
}

/// Addition wrapping around the `u64` range.
pub open spec fn wrap_add(a: u64, b: u64) -> u64 {
    if a + b > u64::MAX {
        (a + b - 0x1_0000_0000_0000_0000) as u64
    } else {
        (a + b) as u64
    }
}

/// The wrapping sum of the first `upto` cells of a line, on top of `acc`.
pub open spec fn line_checksum(acc: u64, cells: Seq<u64>, upto: int) -> u64
    decreases upto,
{
    if upto <= 0 {
        acc
    } else {
        wrap_add(line_checksum(acc, cells, upto - 1), cells[upto - 1])
    }
}

/// The wrapping sum of the first `upto` rows of a grid.
pub open spec fn grid_checksum_upto(rows: MaskGrid, upto: int) -> u64
    decreases upto,
{
    if upto <= 0 {
        0u64
    } else {
        line_checksum(grid_checksum_upto(rows, upto - 1), rows[upto - 1], rows[upto - 1].len() as int)
    }
}

/// The wrapping checksum of a grid, row-major.
pub open spec fn grid_checksum(rows: MaskGrid) -> u64 {
    grid_checksum_upto(rows, rows.len() as int)
}

/// The exact sum of the first `upto` cells of a line.
pub open spec fn line_total(cells: Seq<u64>, upto: int) -> int
    decreases upto,
{
    if upto <= 0 {
        0
    } else {
        line_total(cells, upto - 1) + cells[upto - 1]
    }
}

/// The exact sum of every mask of a grid.
pub open spec fn grid_total_upto(rows: MaskGrid, upto: int) -> int
    decreases upto,
{
    if upto <= 0 {
        0
    } else {
        grid_total_upto(rows, upto - 1) + line_total(rows[upto - 1], rows[upto - 1].len() as int)
    }
}

/// The exact sum of every mask of a grid.
pub open spec fn grid_total(rows: MaskGrid) -> int {
    grid_total_upto(rows, rows.len() as int)
}

/// The full state of a solve: both views of the masks and the per-line
/// determined flags.
pub struct SolveState {
    pub row_masks: MaskGrid,
    pub col_masks: MaskGrid,
    pub dead_rows: Seq<bool>,
    pub dead_cols: Seq<bool>,
}

/// Both line passes of a round succeed from this state.
pub open spec fn round_ok(row_groups: GroupsView, col_groups: GroupsView, st: SolveState) -> bool {
    lines_pass_ok(row_groups, st.row_masks, st.dead_rows)
        && lines_pass_ok(col_groups, st.col_masks, st.dead_cols)
}

/// The state after one round: rows re-solved, columns re-solved, views
/// intersected.
pub open spec fn round_state(row_groups: GroupsView, col_groups: GroupsView, st: SolveState) -> SolveState {
    let rows1 = lines_pass_masks(row_groups, st.row_masks, st.dead_rows);
    let cols1 = lines_pass_masks(col_groups, st.col_masks, st.dead_cols);
    SolveState {
        row_masks: intersect_rows(rows1, cols1),
        col_masks: intersect_cols(rows1, cols1),
        dead_rows: lines_pass_dead(row_groups, st.row_masks, st.dead_rows),
        dead_cols: lines_pass_dead(col_groups, st.col_masks, st.dead_cols),
    }
}

/// One round: `None` on a contradiction, otherwise the next state.
pub open spec fn spec_round(row_groups: GroupsView, col_groups: GroupsView, st: SolveState) -> Option<
    SolveState,
> {
    if round_ok(row_groups, col_groups, st) {
        Some(round_state(row_groups, col_groups, st))
    } else {
        None
    }
}

/// The initial state: every mask of both views set to `full_mask`, no line
/// flagged determined.
pub open spec fn initial_state(rows: int, cols: int, full_mask: u64) -> SolveState {
    SolveState {
        row_masks: Seq::new(rows as nat, |r: int| Seq::new(cols as nat, |c: int| full_mask)),
        col_masks: Seq::new(cols as nat, |c: int| Seq::new(rows as nat, |r: int| full_mask)),
        dead_rows: Seq::new(rows as nat, |r: int| false),
        dead_cols: Seq::new(cols as nat, |c: int| false),
    }
}

/// Exact line sums are nonnegative.
pub proof fn lemma_line_total_nonneg(cells: Seq<u64>, upto: int)
    ensures
        line_total(cells, upto) >= 0,
    decreases upto,
{
    if upto > 0 {
        lemma_line_total_nonneg(cells, upto - 1);
    }
}

/// Exact grid sums are nonnegative.
pub proof fn lemma_grid_total_nonneg(rows: MaskGrid, upto: int)
    ensures
        grid_total_upto(rows, upto) >= 0,
    decreases upto,
{
    if upto > 0 {
        lemma_grid_total_nonneg(rows, upto - 1);
        lemma_line_total_nonneg(rows[upto - 1], rows[upto - 1].len() as int);
    }
}

/// A line of subset masks sums to no more.
pub proof fn lemma_line_total_le(a: Seq<u64>, b: Seq<u64>, upto: int)
    requires
        forall|k: int| 0 <= k < upto ==> mask_subset(#[trigger] a[k], b[k]),
    ensures
        line_total(a, upto) <= line_total(b, upto),
    decreases upto,
{
    if upto > 0 {
        lemma_line_total_le(a, b, upto - 1);
        crate::masks::lemma_mask_subset_le(a[upto - 1], b[upto - 1]);
    }
}

/// A line of subset masks with one cell strictly smaller sums to strictly
/// less.
pub proof fn lemma_line_total_strict(a: Seq<u64>, b: Seq<u64>, upto: int, k0: int)
    requires
        forall|k: int| 0 <= k < upto ==> mask_subset(#[trigger] a[k], b[k]),
        0 <= k0 < upto,
        a[k0] != b[k0],
    ensures
        line_total(a, upto) < line_total(b, upto),
    decreases upto,
{
    if k0 == upto - 1 {
        lemma_line_total_le(a, b, upto - 1);
        crate::masks::lemma_mask_subset_le(a[upto - 1], b[upto - 1]);
    } else {
        lemma_line_total_strict(a, b, upto - 1, k0);
        crate::masks::lemma_mask_subset_le(a[upto - 1], b[upto - 1]);
    }
}

/// A grid of subset masks sums to no more.
pub proof fn lemma_grid_total_le(a: MaskGrid, b: MaskGrid, upto: int)
    requires
        forall|r: int| 0 <= r < upto ==> (#[trigger] a[r]).len() == b[r].len(),
        forall|r: int, c: int| 0 <= r < upto && 0 <= c < a[r].len()
            ==> mask_subset(#[trigger] a[r][c], b[r][c]),
    ensures
        grid_total_upto(a, upto) <= grid_total_upto(b, upto),
    decreases upto,
{
    if upto > 0 {
        lemma_grid_total_le(a, b, upto - 1);
        lemma_line_total_le(a[upto - 1], b[upto - 1], a[upto - 1].len() as int);
    }
}

/// A grid of subset masks with one cell strictly smaller sums to strictly
/// less.
pub proof fn lemma_grid_total_strict(a: MaskGrid, b: MaskGrid, upto: int, r0: int, c0: int)
    requires
        forall|r: int| 0 <= r < upto ==> (#[trigger] a[r]).len() == b[r].len(),
        forall|r: int, c: int| 0 <= r < upto && 0 <= c < a[r].len()
            ==> mask_subset(#[trigger] a[r][c], b[r][c]),
        0 <= r0 < upto,
        0 <= c0 < a[r0].len(),
        a[r0][c0] != b[r0][c0],
    ensures
        grid_total_upto(a, upto) < grid_total_upto(b, upto),
    decreases upto,
{
    if r0 == upto - 1 {
        lemma_grid_total_le(a, b, upto - 1);
        lemma_line_total_strict(a[upto - 1], b[upto - 1], a[upto - 1].len() as int, c0);
    } else {
        lemma_grid_total_strict(a, b, upto - 1, r0, c0);
        lemma_line_total_le(a[upto - 1], b[upto - 1], a[upto - 1].len() as int);
    }
}

/// One round keeps the shape of both views and only narrows masks.
pub proof fn lemma_round_submask(row_groups: GroupsView, col_groups: GroupsView, st: SolveState)
    ensures
        round_state(row_groups, col_groups, st).row_masks.len() == st.row_masks.len(),
        round_state(row_groups, col_groups, st).col_masks.len() == st.col_masks.len(),
        forall|r: int| 0 <= r < st.row_masks.len()
            ==> (#[trigger] round_state(row_groups, col_groups, st).row_masks[r]).len()
                == st.row_masks[r].len(),
        forall|c: int| 0 <= c < st.col_masks.len()
            ==> (#[trigger] round_state(row_groups, col_groups, st).col_masks[c]).len()
                == st.col_masks[c].len(),
        forall|r: int, c: int| 0 <= r < st.row_masks.len() && 0 <= c < st.row_masks[r].len()
            ==> mask_subset(
                #[trigger] round_state(row_groups, col_groups, st).row_masks[r][c],
                st.row_masks[r][c],
            ),
        forall|c: int, r: int| 0 <= c < st.col_masks.len() && 0 <= r < st.col_masks[c].len()
            ==> mask_subset(
                #[trigger] round_state(row_groups, col_groups, st).col_masks[c][r],
                st.col_masks[c][r],
            ),
{
    let rows1 = lines_pass_masks(row_groups, st.row_masks, st.dead_rows);
    let cols1 = lines_pass_masks(col_groups, st.col_masks, st.dead_cols);
    let st2 = round_state(row_groups, col_groups, st);
    assert forall|r: int, c: int| 0 <= r < st.row_masks.len() && 0 <= c < st.row_masks[r].len()
        implies mask_subset(#[trigger] st2.row_masks[r][c], st.row_masks[r][c]) by {
        crate::masks::lemma_and_subset(rows1[r][c], cols1[c][r]);
        if !st.dead_rows[r] {
            crate::one_line_solver::lemma_solved_line_subset(row_groups[r], st.row_masks[r], c);
        } else {
            crate::masks::lemma_mask_subset_refl(st.row_masks[r][c]);
        }
        crate::masks::lemma_mask_subset_trans(st2.row_masks[r][c], rows1[r][c], st.row_masks[r][c]);
    }
    assert forall|c: int, r: int| 0 <= c < st.col_masks.len() && 0 <= r < st.col_masks[c].len()
        implies mask_subset(#[trigger] st2.col_masks[c][r], st.col_masks[c][r]) by {
        crate::masks::lemma_and_subset(rows1[r][c], cols1[c][r]);
        if !st.dead_cols[c] {
            crate::one_line_solver::lemma_solved_line_subset(col_groups[c], st.col_masks[c], r);
        } else {
            crate::masks::lemma_mask_subset_refl(st.col_masks[c][r]);
        }
        crate::masks::lemma_mask_subset_trans(st2.col_masks[c][r], cols1[c][r], st.col_masks[c][r]);
    }
}

/// The fixpoint iteration from a state: the row view after every
/// state-changing round, or `None` when a line becomes infeasible.  A
/// round whose checksum equals the previous one ends the iteration and is
/// not recorded.
pub open spec fn spec_steps(
    row_groups: GroupsView,
    col_groups: GroupsView,
    st: SolveState,
    prev_sum: u64,
) -> Option<Seq<MaskGrid>>
    decreases
            grid_total(st.row_masks) + grid_total(st.col_masks),
            (if prev_sum == grid_checksum(st.row_masks) {
                0int
            } else {
                1int
            }),
        via spec_steps_decreases
{
    match spec_round(row_groups, col_groups, st) {
        None => None,
        Some(st2) => {
            let sum = grid_checksum(st2.row_masks);
            if sum == prev_sum {
                Some(Seq::empty())
            } else {
                match spec_steps(row_groups, col_groups, st2, sum) {
                    None => None,
                    Some(rest) => Some(seq![st2.row_masks] + rest),
                }
            }
        },
    }
}

#[via_fn]
proof fn spec_steps_decreases(
    row_groups: GroupsView,
    col_groups: GroupsView,
    st: SolveState,
    prev_sum: u64,
) {
    if round_ok(row_groups, col_groups, st) {
        lemma_round_measure(row_groups, col_groups, st, prev_sum);
    }
}

/// One round never grows the exact sum of the masks, and strictly shrinks
/// it when the round's checksum differs from the checksum of the state it
/// started from.
pub proof fn lemma_round_measure(
    row_groups: GroupsView,
    col_groups: GroupsView,
    st: SolveState,
    prev_sum: u64,
)
    ensures
        grid_total(round_state(row_groups, col_groups, st).row_masks) + grid_total(
            round_state(row_groups, col_groups, st).col_masks,
        ) <= grid_total(st.row_masks) + grid_total(st.col_masks),
        grid_total(round_state(row_groups, col_groups, st).row_masks) >= 0,
        grid_total(round_state(row_groups, col_groups, st).col_masks) >= 0,
        (prev_sum == grid_checksum(st.row_masks) && grid_checksum(
            round_state(row_groups, col_groups, st).row_masks,
        ) != prev_sum) ==> grid_total(round_state(row_groups, col_groups, st).row_masks)
            + grid_total(round_state(row_groups, col_groups, st).col_masks) < grid_total(
            st.row_masks,
        ) + grid_total(st.col_masks),
{
    let st2 = round_state(row_groups, col_groups, st);
    let sum = grid_checksum(st2.row_masks);
    lemma_round_submask(row_groups, col_groups, st);
    lemma_grid_total_nonneg(st2.row_masks, st2.row_masks.len() as int);
    lemma_grid_total_nonneg(st2.col_masks, st2.col_masks.len() as int);
    lemma_grid_total_le(st2.row_masks, st.row_masks, st.row_masks.len() as int);
    lemma_grid_total_le(st2.col_masks, st.col_masks, st.col_masks.len() as int);
    if prev_sum == grid_checksum(st.row_masks) && sum != prev_sum {
        if st2.row_masks =~~= st.row_masks {
            assert(sum == prev_sum);
        } else {
            if st2.row_masks.len() != st.row_masks.len() {
                assert(false);
            } else if exists|r: int| 0 <= r < st.row_masks.len()
                && (#[trigger] st2.row_masks[r]).len() != st.row_masks[r].len() {
                assert(false);
            } else {
                let (r0, c0) = choose|r0: int, c0: int|
                    0 <= r0 < st.row_masks.len() && 0 <= c0 < st.row_masks[r0].len()
                        && #[trigger] st2.row_masks[r0][c0] != st.row_masks[r0][c0];
                lemma_grid_total_strict(
                    st2.row_masks,
                    st.row_masks,
                    st.row_masks.len() as int,
                    r0,
                    c0,
                );
            }
        }
    }
}

} // verus!
