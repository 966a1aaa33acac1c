//! Tests of the grid propagator: round-trip solves, the palette bound,
//! monotonicity across recorded rounds, idempotence at the fixpoint, and
//! the degenerate and plus-sign scenarios.

use nonogram_solver::nonogram_solver::{
    is_single_bit, mask_to_color_index, solve_puzzle, solve_puzzle_steps, update_cell_values,
    update_groups_state, convert_groups,
};
use nonogram_solver::one_line_solver::OneLineSolver;
use nonogram_solver::puzzle_crawler::{Group, PuzzleData};

fn masks_from_color_ids(grid: &[Vec<usize>]) -> Vec<Vec<u64>> {
    grid.iter()
        .map(|row| row.iter().map(|id| 1u64 << id).collect())
        .collect()
}

fn groups_from_grid(grid: &[Vec<u64>]) -> (Vec<Vec<Group>>, Vec<Vec<Group>>) {
    let rows = grid.len();
    let cols = grid.first().map(|row| row.len()).unwrap_or(0);
    let mut row_groups = Vec::with_capacity(rows);
    for row in grid {
        let mut groups = Vec::new();
        let mut col = 0;
        while col < cols {
            let color = mask_to_color_index(row[col]).expect("unsolved cell");
            let start = col;
            while col < cols && mask_to_color_index(row[col]).unwrap() == color {
                col += 1;
            }
            let len = col - start;
            if color > 0 && len > 0 {
                groups.push(Group { len, color_id: color });
            }
        }
        row_groups.push(groups);
    }

    let mut col_groups = Vec::with_capacity(cols);
    for col in 0..cols {
        let mut groups = Vec::new();
        let mut row = 0;
        while row < rows {
            let color = mask_to_color_index(grid[row][col]).expect("unsolved cell");
            let start = row;
            while row < rows && mask_to_color_index(grid[row][col]).unwrap() == color {
                row += 1;
            }
            let len = row - start;
            if color > 0 && len > 0 {
                groups.push(Group { len, color_id: color });
            }
        }
        col_groups.push(groups);
    }
    (row_groups, col_groups)
}

#[test]
fn solves_black_white_puzzle_matches_hints() {
    let solved_ids = vec![
        vec![0, 0, 1, 0, 0],
        vec![0, 1, 1, 1, 0],
        vec![1, 1, 1, 1, 1],
        vec![0, 1, 1, 1, 0],
        vec![0, 0, 1, 0, 0],
    ];
    let solved_masks = masks_from_color_ids(&solved_ids);
    let (row_groups, col_groups) = groups_from_grid(&solved_masks);

    let puzzle = PuzzleData {
        color_panel: vec!["#ffffff".to_string(), "#000000".to_string()],
        row_groups,
        col_groups,
    };

    let solved = solve_puzzle(puzzle.clone()).expect("puzzle should solve");
    let (row_out, col_out) = groups_from_grid(&solved.grid);
    assert_eq!(row_out, puzzle.row_groups);
    assert_eq!(col_out, puzzle.col_groups);
}

#[test]
fn solves_color_puzzle_matches_hints() {
    let solved_ids = vec![
        vec![1, 1, 1],
        vec![2, 2, 2],
        vec![1, 1, 1],
    ];
    let solved_masks = masks_from_color_ids(&solved_ids);
    let (row_groups, col_groups) = groups_from_grid(&solved_masks);

    let puzzle = PuzzleData {
        color_panel: vec![
            "#ffffff".to_string(),
            "#ff0000".to_string(),
            "#0000ff".to_string(),
        ],
        row_groups,
        col_groups,
    };

    let solved = solve_puzzle(puzzle.clone()).expect("puzzle should solve");
    let (row_out, col_out) = groups_from_grid(&solved.grid);
    assert_eq!(row_out, puzzle.row_groups);
    assert_eq!(col_out, puzzle.col_groups);
}

#[test]
fn degenerate_single_cell_puzzle_converges_at_once() {
    let puzzle = PuzzleData {
        color_panel: vec!["#ffffff".to_string(), "#000000".to_string()],
        row_groups: vec![vec![Group { len: 1, color_id: 1 }]],
        col_groups: vec![vec![Group { len: 1, color_id: 1 }]],
    };
    let steps = solve_puzzle_steps(puzzle.clone()).expect("puzzle should solve");
    // The initial all-open grid plus the single round that determines it.
    assert_eq!(steps.steps.len(), 2);
    assert_eq!(steps.steps[1], vec![vec![1u64 << 1]]);
    let solved = solve_puzzle(puzzle).expect("puzzle should solve");
    assert_eq!(solved.grid, vec![vec![1u64 << 1]]);
    assert_eq!(mask_to_color_index(solved.grid[0][0]), Some(1));
}

#[test]
fn palette_of_sixty_four_colors_is_rejected() {
    let panel: Vec<String> = (0..64).map(|i| format!("#{:06x}", i)).collect();
    let puzzle = PuzzleData {
        color_panel: panel,
        row_groups: vec![vec![Group { len: 1, color_id: 1 }]],
        col_groups: vec![vec![Group { len: 1, color_id: 1 }]],
    };
    let err = solve_puzzle_steps(puzzle).expect_err("palette too large");
    assert!(matches!(
        err,
        nonogram_solver::nonogram_solver::SolveError::TooManyColors(64)
    ));
}

#[test]
fn empty_palette_is_rejected() {
    let puzzle = PuzzleData {
        color_panel: vec![],
        row_groups: vec![vec![]],
        col_groups: vec![vec![]],
    };
    let err = solve_puzzle_steps(puzzle).expect_err("palette empty");
    assert!(matches!(
        err,
        nonogram_solver::nonogram_solver::SolveError::TooManyColors(0)
    ));
}

#[test]
fn contradictory_hints_are_unsolvable() {
    // A run of two cells cannot fit a one-cell row.
    let puzzle = PuzzleData {
        color_panel: vec!["#ffffff".to_string(), "#000000".to_string()],
        row_groups: vec![vec![Group { len: 2, color_id: 1 }]],
        col_groups: vec![vec![]],
    };
    let err = solve_puzzle(puzzle).expect_err("hints contradict");
    assert!(matches!(
        err,
        nonogram_solver::nonogram_solver::SolveError::Unsolvable
    ));
}

#[test]
fn conflicting_determined_views_converge_to_empty_masks() {
    // The row determines the cell as color 1, the column as background,
    // each in its own view within one round; both lines are then flagged
    // determined and never re-solved, so the intersection converges with
    // an empty mask instead of reporting the contradiction.
    let puzzle = PuzzleData {
        color_panel: vec!["#ffffff".to_string(), "#000000".to_string()],
        row_groups: vec![vec![Group { len: 1, color_id: 1 }]],
        col_groups: vec![vec![]],
    };
    let solved = solve_puzzle(puzzle).expect("the conflict is not detected");
    assert_eq!(solved.grid, vec![vec![0u64]]);
    assert_eq!(mask_to_color_index(solved.grid[0][0]), None);
}

fn plus_sign_puzzle() -> PuzzleData {
    let run = |len: usize| Group { len, color_id: 1 };
    PuzzleData {
        color_panel: vec!["#ffffff".to_string(), "#000000".to_string()],
        row_groups: vec![
            vec![run(1)],
            vec![run(3)],
            vec![run(5)],
            vec![run(3)],
            vec![run(1)],
        ],
        col_groups: vec![
            vec![run(1)],
            vec![run(3)],
            vec![run(5)],
            vec![run(3)],
            vec![run(1)],
        ],
    }
}

#[test]
fn plus_sign_converges_to_the_plus_pattern() {
    let expected_ids = vec![
        vec![0, 0, 1, 0, 0],
        vec![0, 1, 1, 1, 0],
        vec![1, 1, 1, 1, 1],
        vec![0, 1, 1, 1, 0],
        vec![0, 0, 1, 0, 0],
    ];
    let solved = solve_puzzle(plus_sign_puzzle()).expect("puzzle should solve");
    assert_eq!(solved.grid, masks_from_color_ids(&expected_ids));
}

#[test]
fn recorded_steps_only_ever_clear_bits() {
    let steps = solve_puzzle_steps(plus_sign_puzzle()).expect("puzzle should solve");
    assert!(steps.steps.len() >= 2);
    for pair in steps.steps.windows(2) {
        for (old_row, new_row) in pair[0].iter().zip(pair[1].iter()) {
            for (old, new) in old_row.iter().zip(new_row.iter()) {
                assert_eq!(new & old, *new, "a mask gained a bit between rounds");
            }
        }
    }
}

/// Re-running one more full round after convergence changes no mask and
/// keeps the checksum.
#[test]
fn converged_grid_is_a_fixpoint_of_one_more_round() {
    let puzzle = plus_sign_puzzle();
    let solved = solve_puzzle(puzzle.clone()).expect("puzzle should solve");
    let row_runs = convert_groups(&puzzle.row_groups);
    let col_runs = convert_groups(&puzzle.col_groups);

    let mut row_masks = solved.grid.clone();
    let rows = row_masks.len();
    let cols = row_masks[0].len();
    let mut col_masks: Vec<Vec<u64>> = (0..cols)
        .map(|c| (0..rows).map(|r| row_masks[r][c]).collect())
        .collect();
    let mut dead_rows = vec![false; rows];
    let mut dead_cols = vec![false; cols];
    let mut solver = OneLineSolver::new(rows.max(cols));

    let checksum_before: u64 = row_masks
        .iter()
        .flatten()
        .fold(0u64, |acc, m| acc.wrapping_add(*m));

    assert!(update_groups_state(&mut solver, &mut dead_rows, &row_runs, &mut row_masks));
    assert!(update_groups_state(&mut solver, &mut dead_cols, &col_runs, &mut col_masks));
    let checksum_after = update_cell_values(&mut row_masks, &mut col_masks);

    assert_eq!(row_masks, solved.grid);
    assert_eq!(checksum_after, checksum_before);
    assert!(dead_rows.iter().all(|d| *d));
    assert!(dead_cols.iter().all(|d| *d));
}

/// A puzzle with two symmetric solutions converges with open cells rather
/// than picking one of them.
#[test]
fn ambiguous_grid_stays_open() {
    // A 2x2 checkerboard: every row and column hint is a single 1-run, so
    // both diagonals satisfy the hints.
    let puzzle = PuzzleData {
        color_panel: vec!["#ffffff".to_string(), "#000000".to_string()],
        row_groups: vec![
            vec![Group { len: 1, color_id: 1 }],
            vec![Group { len: 1, color_id: 1 }],
        ],
        col_groups: vec![
            vec![Group { len: 1, color_id: 1 }],
            vec![Group { len: 1, color_id: 1 }],
        ],
    };
    let solved = solve_puzzle(puzzle).expect("hints are consistent");
    for row in &solved.grid {
        for mask in row {
            assert!(!is_single_bit(*mask));
            assert_eq!(mask_to_color_index(*mask), None);
        }
    }
}

/// The wrapping checksum can collide only for a change that sets bits
/// somewhere: under monotone narrowing an unchanged sum means an
/// unchanged grid, as the plus-sign solve shows round by round.
#[test]
fn checksum_stands_in_for_equality_under_monotone_narrowing() {
    // Equal sums with a change require a bit to be gained somewhere:
    // 0b11 + 0b01 == 0b01 + 0b11, but the second pair is not a
    // cell-by-cell narrowing of the first.
    let before = [0b11u64, 0b01];
    let after = [0b01u64, 0b11];
    let sum = |g: &[u64]| g.iter().fold(0u64, |acc, m| acc.wrapping_add(*m));
    assert_eq!(sum(&before), sum(&after));
    assert!(after.iter().zip(before.iter()).any(|(a, b)| a & b != *a));

    // Across a real solve the masks only narrow, so the sum repeats only
    // when nothing changed: every recorded round has a strictly smaller
    // sum than the one before it.
    let steps = solve_puzzle_steps(plus_sign_puzzle()).expect("puzzle should solve");
    let sums: Vec<u64> = steps
        .steps
        .iter()
        .map(|g| g.iter().flatten().fold(0u64, |acc, m| acc.wrapping_add(*m)))
        .collect();
    for pair in sums.windows(2) {
        assert!(pair[1] < pair[0], "a recorded round repeated the checksum");
    }
}

#[test]
fn mask_to_color_index_reads_single_bits_only() {
    assert_eq!(mask_to_color_index(1), Some(0));
    assert_eq!(mask_to_color_index(1 << 5), Some(5));
    assert_eq!(mask_to_color_index(1 << 63), Some(63));
    assert_eq!(mask_to_color_index(0), None);
    assert_eq!(mask_to_color_index(0b110), None);
    assert!(is_single_bit(1 << 7));
    assert!(!is_single_bit(0));
    assert!(!is_single_bit(0b101));
}
