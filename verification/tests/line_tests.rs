//! Tests of the single-line solver: forced placements, unions of options,
//! and the exact union semantics checked by brute force on small lines.

use nonogram_solver::one_line_solver::OneLineSolver;

#[test]
fn fills_when_group_is_forced() {
    let mut solver = OneLineSolver::new(2);
    let groups = vec![(2, 1)];
    let mut cells = vec![(1u64 << 0) | (1u64 << 1); 2];

    assert!(solver.update_state(&groups, &mut cells));
    assert_eq!(cells, vec![1u64 << 1, 1u64 << 1]);
}

#[test]
fn keeps_union_of_options() {
    let mut solver = OneLineSolver::new(3);
    let groups = vec![(1, 1)];
    let mut cells = vec![(1u64 << 0) | (1u64 << 1); 3];

    assert!(solver.update_state(&groups, &mut cells));
    assert_eq!(cells, vec![(1u64 << 0) | (1u64 << 1); 3]);
}

#[test]
fn reports_infeasible_line_and_leaves_cells_alone() {
    let mut solver = OneLineSolver::new(2);
    let groups = vec![(3, 1)];
    let mut cells = vec![(1u64 << 0) | (1u64 << 1); 2];
    let before = cells.clone();

    assert!(!solver.update_state(&groups, &mut cells));
    assert_eq!(cells, before);
}

#[test]
fn separates_same_color_runs_with_background() {
    // Two runs of the same color in a 3-cell line: only 1,gap,1 fits.
    let mut solver = OneLineSolver::new(3);
    let groups = vec![(1, 1), (1, 1)];
    let mut cells = vec![(1u64 << 0) | (1u64 << 1); 3];

    assert!(solver.update_state(&groups, &mut cells));
    assert_eq!(cells, vec![1u64 << 1, 1u64 << 0, 1u64 << 1]);
}

#[test]
fn adjacent_runs_of_different_colors_may_touch() {
    // Two runs of different colors fill a 2-cell line exactly.
    let mut solver = OneLineSolver::new(2);
    let groups = vec![(1, 1), (1, 2)];
    let mut cells = vec![(1u64 << 0) | (1u64 << 1) | (1u64 << 2); 2];

    assert!(solver.update_state(&groups, &mut cells));
    assert_eq!(cells, vec![1u64 << 1, 1u64 << 2]);
}

/// All fillings of `len` cells over colors `0 ..= max_color`.
fn enumerate_fillings(len: usize, max_color: usize) -> Vec<Vec<usize>> {
    let mut out = vec![vec![]];
    for _ in 0..len {
        let mut next = Vec::new();
        for fill in &out {
            for c in 0..=max_color {
                let mut f = fill.clone();
                f.push(c);
                next.push(f);
            }
        }
        out = next;
    }
    out
}

/// The maximal non-background runs of a filling.
fn runs_of(fill: &[usize]) -> Vec<(usize, usize)> {
    let mut runs = Vec::new();
    let mut i = 0;
    while i < fill.len() {
        let z = fill[i];
        let start = i;
        while i < fill.len() && fill[i] == z {
            i += 1;
        }
        if z > 0 {
            runs.push((i - start, z));
        }
    }
    runs
}

/// Union correctness, by brute force: on an all-open line the output mask
/// at every cell holds exactly the colors that appear there across all
/// fillings whose run decomposition matches the constraint.
#[test]
fn output_is_exact_union_over_valid_fillings() {
    let cases: Vec<(usize, usize, Vec<(usize, usize)>)> = vec![
        (4, 2, vec![(2, 1)]),
        (5, 2, vec![(1, 1), (2, 2)]),
        (6, 2, vec![(1, 1), (1, 1)]),
        (5, 3, vec![(2, 3), (1, 3)]),
        (3, 1, vec![]),
        (6, 2, vec![(2, 2), (1, 1), (1, 2)]),
    ];
    for (len, max_color, groups) in cases {
        let full = (1u64 << (max_color + 1)) - 1;
        let mut cells = vec![full; len];
        let mut solver = OneLineSolver::new(len);
        let ok = solver.update_state(&groups, &mut cells);

        let mut expected = vec![0u64; len];
        let mut any = false;
        for fill in enumerate_fillings(len, max_color) {
            if runs_of(&fill) == groups {
                any = true;
                for (j, c) in fill.iter().enumerate() {
                    expected[j] |= 1u64 << c;
                }
            }
        }
        assert_eq!(ok, any, "feasibility mismatch for {groups:?} on {len} cells");
        if ok {
            assert_eq!(cells, expected, "union mismatch for {groups:?} on {len} cells");
        }
    }
}

/// Output masks never gain a bit the input did not have, even with
/// restricted inputs.
#[test]
fn output_masks_are_submasks_of_input() {
    let groups = vec![(2, 1), (1, 2)];
    let inputs = vec![
        vec![0b111u64, 0b110, 0b111, 0b101, 0b111],
        vec![0b011u64, 0b011, 0b111, 0b111, 0b100],
    ];
    for input in inputs {
        let mut cells = input.clone();
        let mut solver = OneLineSolver::new(cells.len());
        if solver.update_state(&groups, &mut cells) {
            for (after, before) in cells.iter().zip(input.iter()) {
                assert_eq!(after & before, *after);
            }
        }
    }
}
