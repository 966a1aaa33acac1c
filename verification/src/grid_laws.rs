//! Laws of the grid propagator: monotonicity of the masks across rounds,
//! the checksum convergence test, idempotence at a fixpoint, and the
//! preservation of every coloring that satisfies the puzzle.

use vstd::prelude::*;

use crate::grid_model::GroupsView;
use crate::grid_model::MaskGrid;
use crate::grid_model::SolveState;
use crate::grid_model::grid_checksum;
use crate::grid_model::grid_checksum_upto;
use crate::grid_model::grid_total;
use crate::grid_model::grid_total_upto;
use crate::grid_model::lemma_grid_total_le;
use crate::grid_model::lemma_grid_total_nonneg;
use crate::grid_model::lemma_grid_total_strict;
use crate::grid_model::lemma_line_total_nonneg;
use crate::grid_model::lemma_round_measure;
use crate::grid_model::lemma_round_submask;
use crate::grid_model::line_checksum;
use crate::grid_model::line_total;
use crate::grid_model::round_ok;
use crate::grid_model::round_state;
use crate::grid_model::spec_steps;
use crate::masks::mask_subset;

verus! {

/// Every mask of `a` is a submask of the matching mask of `b`.
pub open spec fn grid_submask(a: MaskGrid, b: MaskGrid) -> bool {
    &&& a.len() == b.len()
    &&& forall|r: int| 0 <= r < a.len() ==> (#[trigger] a[r]).len() == b[r].len()
    &&& forall|r: int, c: int| 0 <= r < a.len() && 0 <= c < a[r].len()
        ==> mask_subset(#[trigger] a[r][c], b[r][c])
}

/// Monotonicity of one round: whatever the state — contradiction found
/// later or not — the round only clears bits, in both views.
pub proof fn lemma_round_monotonic(row_groups: GroupsView, col_groups: GroupsView, st: SolveState)
    ensures
        grid_submask(round_state(row_groups, col_groups, st).row_masks, st.row_masks),
        grid_submask(round_state(row_groups, col_groups, st).col_masks, st.col_masks),
{
    lemma_round_submask(row_groups, col_groups, st);
}

/// Monotonicity of a whole solve: each recorded grid narrows the one
/// before it, cell by cell.
pub proof fn lemma_steps_monotonic(
    row_groups: GroupsView,
    col_groups: GroupsView,
    st: SolveState,
    prev_sum: u64,
)
    ensures
        match spec_steps(row_groups, col_groups, st, prev_sum) {
            None => true,
            Some(steps) => (steps.len() > 0 ==> grid_submask(steps[0], st.row_masks))
                && (forall|k: int| 0 <= k < steps.len() - 1
                    ==> grid_submask(#[trigger] steps[k + 1], steps[k])),
        },
    decreases
            grid_total(st.row_masks) + grid_total(st.col_masks),
            (if prev_sum == grid_checksum(st.row_masks) {
                0int
            } else {
                1int
            }),
{
    if round_ok(row_groups, col_groups, st) {
        let st2 = round_state(row_groups, col_groups, st);
        let sum = grid_checksum(st2.row_masks);
        lemma_round_monotonic(row_groups, col_groups, st);
        if sum != prev_sum {
            lemma_round_measure(row_groups, col_groups, st, prev_sum);
            lemma_steps_monotonic(row_groups, col_groups, st2, sum);
            match spec_steps(row_groups, col_groups, st2, sum) {
                None => {},
                Some(rest) => {
                    let steps = seq![st2.row_masks] + rest;
                    assert forall|k: int| 0 <= k < steps.len() - 1 implies grid_submask(
                        #[trigger] steps[k + 1],
                        steps[k],
                    ) by {
                        if k == 0 {
                            assert(rest.len() > 0);
                            assert(grid_submask(rest[0], st2.row_masks));
                            assert(steps[1] == rest[0]);
                            assert(steps[0] == st2.row_masks);
                        } else {
                            assert(0 <= k - 1 < rest.len() - 1);
                            assert(grid_submask(rest[k - 1 + 1], rest[k - 1]));
                            assert(steps[k + 1] == rest[k]);
                            assert(rest[k - 1 + 1] == rest[k]);
                            assert(steps[k] == rest[k - 1]);
                        }
                    }
                },
            }
        }
    }
}

/// The wrapping sum of a line equals the exact sum as long as it fits.
proof fn lemma_line_checksum_exact(acc: u64, cells: Seq<u64>, upto: int)
    requires
        acc + line_total(cells, upto) <= u64::MAX,
    ensures
        line_checksum(acc, cells, upto) == acc + line_total(cells, upto),
    decreases upto,
{
    if upto > 0 {
        lemma_line_total_nonneg(cells, upto - 1);
        lemma_line_checksum_exact(acc, cells, upto - 1);
    }
}

/// The wrapping checksum of a grid equals the exact sum as long as it
/// fits.
proof fn lemma_grid_checksum_exact(rows: MaskGrid, upto: int)
    requires
        grid_total_upto(rows, upto) <= u64::MAX,
    ensures
        grid_checksum_upto(rows, upto) == grid_total_upto(rows, upto),
    decreases upto,
{
    if upto > 0 {
        lemma_grid_total_nonneg(rows, upto - 1);
        lemma_line_total_nonneg(rows[upto - 1], rows[upto - 1].len() as int);
        lemma_grid_checksum_exact(rows, upto - 1);
        lemma_line_checksum_exact(
            grid_checksum_upto(rows, upto - 1),
            rows[upto - 1],
            rows[upto - 1].len() as int,
        );
    }
}

/// Checksum-equals-no-change: under monotonicity (`a` narrows `b`), and
/// with the exact sum of the old grid small enough not to wrap, the
/// checksums are equal exactly when no mask changed at all.
pub proof fn lemma_checksum_no_change(a: MaskGrid, b: MaskGrid)
    requires
        grid_submask(a, b),
        grid_total(b) <= u64::MAX,
    ensures
        (grid_checksum(a) == grid_checksum(b)) <==> a == b,
{
    lemma_grid_total_le(a, b, b.len() as int);
    lemma_grid_total_nonneg(a, a.len() as int);
    lemma_grid_checksum_exact(b, b.len() as int);
    lemma_grid_checksum_exact(a, a.len() as int);
    if grid_checksum(a) == grid_checksum(b) {
        if a =~~= b {
        } else {
            let (r0, c0) = choose|r0: int, c0: int|
                0 <= r0 < b.len() && 0 <= c0 < b[r0].len() && #[trigger] a[r0][c0] != b[r0][c0];
            lemma_grid_total_strict(a, b, b.len() as int, r0, c0);
        }
    }
}

/// Idempotence at a fixpoint: when a round leaves every mask of both
/// views unchanged, running one more round changes no mask and keeps the
/// checksum.
pub proof fn lemma_fixpoint_idempotent(row_groups: GroupsView, col_groups: GroupsView, st: SolveState)
    requires
        forall|r: int| 0 <= r < st.row_masks.len()
            ==> (#[trigger] st.row_masks[r]).len() == st.col_masks.len(),
        forall|c: int| 0 <= c < st.col_masks.len()
            ==> (#[trigger] st.col_masks[c]).len() == st.row_masks.len(),
        st.dead_rows.len() == st.row_masks.len(),
        st.dead_cols.len() == st.col_masks.len(),
        round_ok(row_groups, col_groups, st),
        round_state(row_groups, col_groups, st).row_masks == st.row_masks,
        round_state(row_groups, col_groups, st).col_masks == st.col_masks,
    ensures
        round_ok(row_groups, col_groups, round_state(row_groups, col_groups, st)),
        round_state(
            row_groups,
            col_groups,
            round_state(row_groups, col_groups, st),
        ).row_masks == st.row_masks,
        round_state(
            row_groups,
            col_groups,
            round_state(row_groups, col_groups, st),
        ).col_masks == st.col_masks,
        grid_checksum(
            round_state(row_groups, col_groups, round_state(row_groups, col_groups, st)).row_masks,
        ) == grid_checksum(st.row_masks),
{
    let st2 = round_state(row_groups, col_groups, st);
    let rows1 = crate::grid_model::lines_pass_masks(row_groups, st.row_masks, st.dead_rows);
    let cols1 = crate::grid_model::lines_pass_masks(col_groups, st.col_masks, st.dead_cols);
    let m = st.row_masks.len() as int;
    let n = st.col_masks.len() as int;
    assert forall|r: int, c: int| 0 <= r < m && 0 <= c < n implies #[trigger] rows1[r][c]
        == st.row_masks[r][c] by {
        crate::masks::lemma_and_subset(rows1[r][c], cols1[c][r]);
        if !st.dead_rows[r] {
            crate::one_line_solver::lemma_solved_line_subset(row_groups[r], st.row_masks[r], c);
            assert(st.row_masks[r][c] == st2.row_masks[r][c]);
            assert(st2.row_masks[r][c] == (rows1[r][c] & cols1[c][r]));
            crate::masks::lemma_mask_subset_antisym(rows1[r][c], st.row_masks[r][c]);
        }
    }
    assert forall|c: int, r: int| 0 <= c < n && 0 <= r < m implies #[trigger] cols1[c][r]
        == st.col_masks[c][r] by {
        crate::masks::lemma_and_subset(rows1[r][c], cols1[c][r]);
        if !st.dead_cols[c] {
            crate::one_line_solver::lemma_solved_line_subset(col_groups[c], st.col_masks[c], r);
            assert(st.col_masks[c][r] == st2.col_masks[c][r]);
            assert(st2.col_masks[c][r] == (rows1[r][c] & cols1[c][r]));
            crate::masks::lemma_mask_subset_antisym(cols1[c][r], st.col_masks[c][r]);
        }
    }
    assert forall|r: int, c: int| 0 <= r < m && 0 <= c < n implies #[trigger] st.row_masks[r][c]
        == st.col_masks[c][r] by {
        assert(st.row_masks[r][c] == st2.row_masks[r][c]);
        assert(st2.row_masks[r][c] == (rows1[r][c] & cols1[c][r]));
        assert(st.col_masks[c][r] == st2.col_masks[c][r]);
        assert(st2.col_masks[c][r] == (rows1[r][c] & cols1[c][r]));
    }
    let rows2 = crate::grid_model::lines_pass_masks(row_groups, st2.row_masks, st2.dead_rows);
    let cols2 = crate::grid_model::lines_pass_masks(col_groups, st2.col_masks, st2.dead_cols);
    assert forall|r: int| 0 <= r < m implies #[trigger] rows2[r] == st.row_masks[r] by {
        if !st2.dead_rows[r] {
            assert(!st.dead_rows[r]);
            assert(crate::one_line_solver::solved_line(row_groups[r], st.row_masks[r])
                =~= st.row_masks[r]) by {
                assert forall|c: int| 0 <= c < n implies
                    crate::one_line_solver::solved_line(row_groups[r], st.row_masks[r])[c]
                        == st.row_masks[r][c] by {
                    assert(rows1[r][c] == st.row_masks[r][c]);
                }
            }
        }
    }
    assert forall|c: int| 0 <= c < n implies #[trigger] cols2[c] == st.col_masks[c] by {
        if !st2.dead_cols[c] {
            assert(!st.dead_cols[c]);
            assert(crate::one_line_solver::solved_line(col_groups[c], st.col_masks[c])
                =~= st.col_masks[c]) by {
                assert forall|r: int| 0 <= r < m implies
                    crate::one_line_solver::solved_line(col_groups[c], st.col_masks[c])[r]
                        == st.col_masks[c][r] by {
                    assert(cols1[c][r] == st.col_masks[c][r]);
                }
            }
        }
    }
    assert(round_ok(row_groups, col_groups, st2)) by {
        assert forall|r: int| 0 <= r < st2.row_masks.len() && !st2.dead_rows[r]
            implies crate::one_line_solver::line_fillable(
            #[trigger] row_groups[r],
            st2.row_masks[r],
            0,
            0,
        ) by {
            assert(!st.dead_rows[r]);
            assert(st2.row_masks[r] == st.row_masks[r]);
        }
        assert forall|c: int| 0 <= c < st2.col_masks.len() && !st2.dead_cols[c]
            implies crate::one_line_solver::line_fillable(
            #[trigger] col_groups[c],
            st2.col_masks[c],
            0,
            0,
        ) by {
            assert(!st.dead_cols[c]);
            assert(st2.col_masks[c] == st.col_masks[c]);
        }
    }
    let st3 = round_state(row_groups, col_groups, st2);
    assert(st3.row_masks =~~= st.row_masks) by {
        assert forall|r: int| 0 <= r < m implies (#[trigger] st3.row_masks[r])
            =~= st.row_masks[r] by {
            assert forall|c: int| 0 <= c < n implies #[trigger] st3.row_masks[r][c]
                == st.row_masks[r][c] by {
                assert(st3.row_masks[r][c] == (rows2[r][c] & cols2[c][r]));
                assert(rows2[r][c] == st.row_masks[r][c]);
                assert(cols2[c][r] == st.col_masks[c][r]);
                assert(st.col_masks[c][r] == st.row_masks[r][c]);
                crate::masks::lemma_mask_subset_refl(st.row_masks[r][c]);
            }
        }
    }
    assert(st3.col_masks =~~= st.col_masks) by {
        assert forall|c: int| 0 <= c < n implies (#[trigger] st3.col_masks[c])
            =~= st.col_masks[c] by {
            assert forall|r: int| 0 <= r < m implies #[trigger] st3.col_masks[c][r]
                == st.col_masks[c][r] by {
                assert(st3.col_masks[c][r] == (rows2[r][c] & cols2[c][r]));
                assert(rows2[r][c] == st.row_masks[r][c]);
                assert(cols2[c][r] == st.col_masks[c][r]);
                assert(st.row_masks[r][c] == st.col_masks[c][r]);
                crate::masks::lemma_mask_subset_refl(st.col_masks[c][r]);
            }
        }
    }
}

/// The cells of one column of a whole-grid coloring, top to bottom.
pub open spec fn column_fill(coloring: Seq<Seq<int>>, c: int, rows: int) -> Seq<int> {
    Seq::new(rows as nat, |r: int| coloring[r][c])
}

/// The coloring satisfies every row's and every column's runs, and only
/// uses colors the state's masks still allow.
pub open spec fn coloring_fits(
    row_groups: GroupsView,
    col_groups: GroupsView,
    st: SolveState,
    coloring: Seq<Seq<int>>,
) -> bool {
    &&& coloring.len() == st.row_masks.len()
    &&& forall|r: int| 0 <= r < coloring.len()
        ==> (#[trigger] coloring[r]).len() == st.row_masks[r].len()
    &&& forall|r: int| 0 <= r < coloring.len()
        ==> crate::line_solutions::valid_fill(row_groups[r], st.row_masks[r], #[trigger] coloring[r])
    &&& forall|c: int| 0 <= c < st.col_masks.len()
        ==> crate::line_solutions::valid_fill(
            #[trigger] col_groups[c],
            st.col_masks[c],
            column_fill(coloring, c, st.row_masks.len() as int),
        )
}

/// Solution preservation: a coloring that satisfies the runs and the
/// current masks still satisfies the masks after a round — no round ever
/// clears the bit of a color a real solution uses.
pub proof fn lemma_solution_preserved(
    row_groups: GroupsView,
    col_groups: GroupsView,
    st: SolveState,
    coloring: Seq<Seq<int>>,
)
    requires
        forall|r: int| 0 <= r < st.row_masks.len()
            ==> (#[trigger] st.row_masks[r]).len() == st.col_masks.len(),
        forall|c: int| 0 <= c < st.col_masks.len()
            ==> (#[trigger] st.col_masks[c]).len() == st.row_masks.len(),
        coloring_fits(row_groups, col_groups, st, coloring),
    ensures
        coloring_fits(row_groups, col_groups, round_state(row_groups, col_groups, st), coloring),
{
    let st2 = round_state(row_groups, col_groups, st);
    let rows1 = crate::grid_model::lines_pass_masks(row_groups, st.row_masks, st.dead_rows);
    let cols1 = crate::grid_model::lines_pass_masks(col_groups, st.col_masks, st.dead_cols);
    let m = st.row_masks.len() as int;
    let n = st.col_masks.len() as int;
    assert forall|r: int, c: int| 0 <= r < m && 0 <= c < n implies crate::masks::color_allowed(
        #[trigger] rows1[r][c],
        coloring[r][c],
    ) by {
        crate::line_solutions::lemma_solver_union_complete(
            row_groups[r],
            st.row_masks[r],
            coloring[r],
            c,
        );
        if st.dead_rows[r] {
            crate::one_line_solver::lemma_color_possible_allowed(
                row_groups[r],
                st.row_masks[r],
                c,
                coloring[r][c],
            );
        } else {
            crate::one_line_solver::lemma_result_mask_bits(
                row_groups[r],
                st.row_masks[r],
                c,
                coloring[r][c],
            );
        }
    }
    assert forall|c: int, r: int| 0 <= c < n && 0 <= r < m implies crate::masks::color_allowed(
        #[trigger] cols1[c][r],
        coloring[r][c],
    ) by {
        let colfill = column_fill(coloring, c, m);
        crate::line_solutions::lemma_solver_union_complete(
            col_groups[c],
            st.col_masks[c],
            colfill,
            r,
        );
        assert(colfill[r] == coloring[r][c]);
        if st.dead_cols[c] {
            crate::one_line_solver::lemma_color_possible_allowed(
                col_groups[c],
                st.col_masks[c],
                r,
                colfill[r],
            );
        } else {
            crate::one_line_solver::lemma_result_mask_bits(
                col_groups[c],
                st.col_masks[c],
                r,
                colfill[r],
            );
        }
    }
    assert forall|r: int, c: int| 0 <= r < m && 0 <= c < n implies crate::masks::color_allowed(
        #[trigger] st2.row_masks[r][c],
        coloring[r][c],
    ) by {
        assert(st2.row_masks[r][c] == (rows1[r][c] & cols1[c][r]));
        crate::masks::lemma_and_allowed(rows1[r][c], cols1[c][r], coloring[r][c]);
    }
    assert forall|r: int| 0 <= r < m implies crate::line_solutions::valid_fill(
        #[trigger] row_groups[r],
        st2.row_masks[r],
        coloring[r],
    ) by {
        assert forall|k: int| 0 <= k < st2.row_masks[r].len() implies
            #[trigger] crate::masks::color_allowed(st2.row_masks[r][k], coloring[r][k]) by {
            assert(crate::masks::color_allowed(st2.row_masks[r][k], coloring[r][k]));
        }
        crate::line_solutions::lemma_fill_matches_remask(
            row_groups[r],
            st.row_masks[r],
            st2.row_masks[r],
            coloring[r],
            0,
            0,
        );
    }
    assert forall|c: int| 0 <= c < n implies crate::line_solutions::valid_fill(
        #[trigger] col_groups[c],
        st2.col_masks[c],
        column_fill(coloring, c, m),
    ) by {
        let colfill = column_fill(coloring, c, m);
        assert forall|k: int| 0 <= k < st2.col_masks[c].len() implies
            #[trigger] crate::masks::color_allowed(st2.col_masks[c][k], colfill[k]) by {
            assert(st2.col_masks[c][k] == (rows1[k][c] & cols1[c][k]));
            crate::masks::lemma_and_allowed(rows1[k][c], cols1[c][k], coloring[k][c]);
            assert(colfill[k] == coloring[k][c]);
        }
        crate::line_solutions::lemma_fill_matches_remask(
            col_groups[c],
            st.col_masks[c],
            st2.col_masks[c],
            colfill,
            0,
            0,
        );
    }
    assert(coloring_fits(row_groups, col_groups, st2, coloring)) by {
        assert(coloring.len() == st2.row_masks.len());
        assert(forall|r: int| 0 <= r < coloring.len()
            ==> (#[trigger] coloring[r]).len() == st2.row_masks[r].len());
    }
}

/// A coloring that fits a state is allowed by every row-view mask of it.
proof fn lemma_fits_allowed(
    row_groups: GroupsView,
    col_groups: GroupsView,
    st: SolveState,
    coloring: Seq<Seq<int>>,
    r: int,
    c: int,
)
    requires
        coloring_fits(row_groups, col_groups, st, coloring),
        0 <= r < coloring.len(),
        0 <= c < coloring[r].len(),
    ensures
        crate::masks::color_allowed(st.row_masks[r][c], coloring[r][c]),
{
    crate::line_solutions::lemma_solver_union_complete(
        row_groups[r],
        st.row_masks[r],
        coloring[r],
        c,
    );
    crate::one_line_solver::lemma_color_possible_allowed(
        row_groups[r],
        st.row_masks[r],
        c,
        coloring[r][c],
    );
}

/// Solution preservation across a whole solve: a coloring that satisfies
/// the runs within the starting masks stays allowed in every recorded
/// grid, so the final grid as well.
pub proof fn lemma_solution_preserved_steps(
    row_groups: GroupsView,
    col_groups: GroupsView,
    st: SolveState,
    prev_sum: u64,
    coloring: Seq<Seq<int>>,
)
    requires
        forall|r: int| 0 <= r < st.row_masks.len()
            ==> (#[trigger] st.row_masks[r]).len() == st.col_masks.len(),
        forall|c: int| 0 <= c < st.col_masks.len()
            ==> (#[trigger] st.col_masks[c]).len() == st.row_masks.len(),
        coloring_fits(row_groups, col_groups, st, coloring),
    ensures
        match spec_steps(row_groups, col_groups, st, prev_sum) {
            None => true,
            Some(steps) => forall|k: int, r: int, c: int|
                0 <= k < steps.len() && 0 <= r < coloring.len() && 0 <= c < coloring[r].len()
                    ==> crate::masks::color_allowed(#[trigger] steps[k][r][c], coloring[r][c]),
        },
    decreases
            grid_total(st.row_masks) + grid_total(st.col_masks),
            (if prev_sum == grid_checksum(st.row_masks) {
                0int
            } else {
                1int
            }),
{
    if round_ok(row_groups, col_groups, st) {
        let st2 = round_state(row_groups, col_groups, st);
        let sum = grid_checksum(st2.row_masks);
        lemma_solution_preserved(row_groups, col_groups, st, coloring);
        lemma_round_submask(row_groups, col_groups, st);
        if sum != prev_sum {
            lemma_round_measure(row_groups, col_groups, st, prev_sum);
            lemma_solution_preserved_steps(row_groups, col_groups, st2, sum, coloring);
            match spec_steps(row_groups, col_groups, st2, sum) {
                None => {},
                Some(rest) => {
                    let steps = seq![st2.row_masks] + rest;
                    assert forall|k: int, r: int, c: int|
                        0 <= k < steps.len() && 0 <= r < coloring.len() && 0 <= c
                            < coloring[r].len() implies crate::masks::color_allowed(
                        #[trigger] steps[k][r][c],
                        coloring[r][c],
                    ) by {
                        if k == 0 {
                            lemma_fits_allowed(row_groups, col_groups, st2, coloring, r, c);
                        } else {
                            assert(steps[k] == rest[k - 1]);
                            assert(crate::masks::color_allowed(rest[k - 1][r][c], coloring[r][c]));
                        }
                    }
                },
            }
        }
    }
}

} // verus!
