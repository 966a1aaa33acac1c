//! Whole-line fillings, and what the line solver's output means in terms
//! of them.
//!
//! A filling assigns one color to every cell of a line.  `valid_fill` says
//! a filling lays out exactly the given runs, in order, with a background
//! separator between equal-colored neighbours, and only uses colors allowed
//! by the cell masks.  The laws at the end of this file state the solver's
//! union correctness: the line is feasible iff a valid filling exists, and
//! a color is in the output mask of a cell iff some valid filling puts that
//! color there.

use vstd::prelude::*;

use crate::masks::color_allowed;
use crate::one_line_solver::after_group;
use crate::one_line_solver::background_move_places;
use crate::one_line_solver::color_possible;
use crate::one_line_solver::group_move_places;
use crate::one_line_solver::group_placeable;
use crate::one_line_solver::lemma_move_places_in_range;
use crate::one_line_solver::lemma_result_mask_bits;
use crate::one_line_solver::line_fillable;
use crate::one_line_solver::move_places;
use crate::one_line_solver::move_to;
use crate::one_line_solver::needs_gap;
use crate::one_line_solver::prefix_reachable;
use crate::one_line_solver::solved_line;

verus! {

/// The filling `fill` completes the line from position `(g, i)`: over the
/// cells `i ..` it lays out exactly the runs `g ..`, each color allowed by
/// its cell's mask.
pub open spec fn fill_matches(
    groups: Seq<(usize, usize)>,
    cells: Seq<u64>,
    fill: Seq<int>,
    g: int,
    i: int,
) -> bool
    decreases cells.len() - i,
{
    if i >= cells.len() {
        g == groups.len()
    } else {
        ||| (fill[i] == 0 && color_allowed(cells[i], 0) && fill_matches(groups, cells, fill, g, i + 1))
        ||| (group_placeable(groups, cells, g, i)
            && (forall|k: int| i <= k < i + groups[g].0 ==> fill[k] == groups[g].1)
            && (needs_gap(groups, g) ==> fill[i + groups[g].0] == 0)
            && fill_matches(groups, cells, fill, g + 1, after_group(groups, g, i)))
    }
}

/// The filling satisfies the whole line: all runs, in order, within the
/// masks.
pub open spec fn valid_fill(groups: Seq<(usize, usize)>, cells: Seq<u64>, fill: Seq<int>) -> bool {
    fill.len() == cells.len() && fill_matches(groups, cells, fill, 0, 0)
}

/// The colors the move from `(g0, i0)` to `(g, _)` writes agree with
/// `fill` (`g == g0` is the background move, `g == g0 + 1` places run
/// `g0`).
pub open spec fn move_writes(
    groups: Seq<(usize, usize)>,
    fill: Seq<int>,
    g0: int,
    i0: int,
    g: int,
) -> bool {
    if g == g0 {
        fill[i0] == 0
    } else {
        (forall|k: int| i0 <= k < i0 + groups[g0].0 ==> fill[k] == groups[g0].1)
            && (needs_gap(groups, g0) ==> fill[i0 + groups[g0].0] == 0)
    }
}

/// The filling `fill` carries the line from its start to position
/// `(g, i)`: a chain of moves lays out the runs `0 .. g` over the cells
/// `0 .. i`, each move writing the colors `fill` holds there.
pub open spec fn prefix_fill_matches(
    groups: Seq<(usize, usize)>,
    cells: Seq<u64>,
    fill: Seq<int>,
    g: int,
    i: int,
) -> bool
    decreases i,
{
    if g == 0 && i == 0 {
        true
    } else if i <= 0 {
        false
    } else {
        exists|g0: int, i0: int|
            0 <= i0 < i && #[trigger] move_to(groups, cells, g0, i0, g, i)
                && move_writes(groups, fill, g0, i0, g)
                && prefix_fill_matches(groups, cells, fill, g0, i0)
    }
}

/// `fill_matches` reads the filling only from cell `i` on.
proof fn lemma_fill_matches_agree(
    groups: Seq<(usize, usize)>,
    cells: Seq<u64>,
    f1: Seq<int>,
    f2: Seq<int>,
    g: int,
    i: int,
)
    requires
        fill_matches(groups, cells, f1, g, i),
        forall|k: int| i <= k < cells.len() ==> f1[k] == f2[k],
    ensures
        fill_matches(groups, cells, f2, g, i),
    decreases cells.len() - i,
{
    if i >= cells.len() {
    } else if fill_matches(groups, cells, f1, g, i + 1) && f1[i] == 0 && color_allowed(cells[i], 0) {
        lemma_fill_matches_agree(groups, cells, f1, f2, g, i + 1);
    } else {
        lemma_fill_matches_agree(groups, cells, f1, f2, g + 1, after_group(groups, g, i));
    }
}

/// `prefix_fill_matches` reads the filling only from cells before `i`.
proof fn lemma_prefix_fill_matches_agree(
    groups: Seq<(usize, usize)>,
    cells: Seq<u64>,
    f1: Seq<int>,
    f2: Seq<int>,
    g: int,
    i: int,
)
    requires
        prefix_fill_matches(groups, cells, f1, g, i),
        forall|k: int| 0 <= k < i ==> f1[k] == f2[k],
    ensures
        prefix_fill_matches(groups, cells, f2, g, i),
    decreases i,
{
    if g == 0 && i == 0 {
    } else if i <= 0 {
    } else {
        let (g0, i0) = choose|g0: int, i0: int|
            0 <= i0 < i && #[trigger] move_to(groups, cells, g0, i0, g, i)
                && move_writes(groups, f1, g0, i0, g)
                && prefix_fill_matches(groups, cells, f1, g0, i0);
        lemma_prefix_fill_matches_agree(groups, cells, f1, f2, g0, i0);
        assert(move_writes(groups, f2, g0, i0, g)) by {
            if g != g0 {
                assert(group_placeable(groups, cells, g0, i0));
                assert(i == after_group(groups, g0, i0));
            }
        }
    }
}

/// A completable position can be completed by an explicit filling.
proof fn lemma_fillable_to_fill(
    groups: Seq<(usize, usize)>,
    cells: Seq<u64>,
    g: int,
    i: int,
) -> (fill: Seq<int>)
    requires
        line_fillable(groups, cells, g, i),
        0 <= i,
    ensures
        fill.len() == cells.len(),
        fill_matches(groups, cells, fill, g, i),
    decreases cells.len() - i,
{
    if i >= cells.len() {
        Seq::new(cells.len(), |k: int| 0)
    } else if color_allowed(cells[i], 0) && line_fillable(groups, cells, g, i + 1) {
        let f1 = lemma_fillable_to_fill(groups, cells, g, i + 1);
        let f = f1.update(i, 0);
        lemma_fill_matches_agree(groups, cells, f1, f, g, i + 1);
        f
    } else {
        let after = after_group(groups, g, i);
        let f1 = lemma_fillable_to_fill(groups, cells, g + 1, after);
        let glen = groups[g].0 as int;
        let gcol = groups[g].1 as int;
        let f = Seq::new(
            cells.len(),
            |k: int|
                if i <= k < i + glen {
                    gcol
                } else if needs_gap(groups, g) && k == i + glen {
                    0
                } else {
                    f1[k]
                },
        );
        lemma_fill_matches_agree(groups, cells, f1, f, g + 1, after);
        f
    }
}

/// An explicit filling witnesses completability.
proof fn lemma_fill_to_fillable(
    groups: Seq<(usize, usize)>,
    cells: Seq<u64>,
    fill: Seq<int>,
    g: int,
    i: int,
)
    requires
        fill_matches(groups, cells, fill, g, i),
    ensures
        line_fillable(groups, cells, g, i),
    decreases cells.len() - i,
{
    if i >= cells.len() {
    } else if fill[i] == 0 && color_allowed(cells[i], 0) && fill_matches(groups, cells, fill, g, i + 1) {
        lemma_fill_to_fillable(groups, cells, fill, g, i + 1);
    } else {
        lemma_fill_to_fillable(groups, cells, fill, g + 1, after_group(groups, g, i));
    }
}

/// A reachable position is reached by an explicit filling of the prefix.
proof fn lemma_reachable_to_prefix_fill(
    groups: Seq<(usize, usize)>,
    cells: Seq<u64>,
    g: int,
    i: int,
) -> (fill: Seq<int>)
    requires
        prefix_reachable(groups, cells, g, i),
    ensures
        fill.len() == cells.len(),
        prefix_fill_matches(groups, cells, fill, g, i),
    decreases i,
{
    if g == 0 && i == 0 {
        Seq::new(cells.len(), |k: int| 0)
    } else {
        let (g0, i0) = choose|g0: int, i0: int|
            0 <= i0 < i && #[trigger] move_to(groups, cells, g0, i0, g, i)
                && prefix_reachable(groups, cells, g0, i0);
        let f0 = lemma_reachable_to_prefix_fill(groups, cells, g0, i0);
        if g == g0 {
            let f = f0.update(i0, 0);
            lemma_prefix_fill_matches_agree(groups, cells, f0, f, g0, i0);
            assert(move_writes(groups, f, g0, i0, g));
            assert(prefix_fill_matches(groups, cells, f, g, i));
            f
        } else {
            assert(group_placeable(groups, cells, g0, i0));
            let glen = groups[g0].0 as int;
            let gcol = groups[g0].1 as int;
            let f = Seq::new(
                cells.len(),
                |k: int|
                    if i0 <= k < i0 + glen {
                        gcol
                    } else if needs_gap(groups, g0) && k == i0 + glen {
                        0
                    } else {
                        f0[k]
                    },
            );
            lemma_prefix_fill_matches_agree(groups, cells, f0, f, g0, i0);
            assert(move_writes(groups, f, g0, i0, g));
            assert(prefix_fill_matches(groups, cells, f, g, i));
            f
        }
    }
}

/// A filling that reaches a position and completes the line from it
/// satisfies the whole line.
proof fn lemma_glue_fill(
    groups: Seq<(usize, usize)>,
    cells: Seq<u64>,
    fill: Seq<int>,
    g: int,
    i: int,
)
    requires
        prefix_fill_matches(groups, cells, fill, g, i),
        fill_matches(groups, cells, fill, g, i),
    ensures
        fill_matches(groups, cells, fill, 0, 0),
    decreases i,
{
    if g == 0 && i == 0 {
    } else {
        let (g0, i0) = choose|g0: int, i0: int|
            0 <= i0 < i && #[trigger] move_to(groups, cells, g0, i0, g, i)
                && move_writes(groups, fill, g0, i0, g)
                && prefix_fill_matches(groups, cells, fill, g0, i0);
        if g == g0 {
            assert(fill_matches(groups, cells, fill, g0, i0));
        } else {
            assert(group_placeable(groups, cells, g0, i0));
            assert(i == after_group(groups, g0, i0));
            assert(fill_matches(groups, cells, fill, g0, i0));
        }
        lemma_glue_fill(groups, cells, fill, g0, i0);
    }
}

/// Walking a filling from a reachable position: the color it puts at any
/// later cell is possible.
proof fn lemma_fill_color_possible(
    groups: Seq<(usize, usize)>,
    cells: Seq<u64>,
    fill: Seq<int>,
    g: int,
    i: int,
    j: int,
)
    requires
        prefix_reachable(groups, cells, g, i),
        fill_matches(groups, cells, fill, g, i),
        fill.len() == cells.len(),
        i <= j < cells.len(),
    ensures
        color_possible(groups, cells, j, fill[j]),
    decreases j - i,
{
    if fill[i] == 0 && color_allowed(cells[i], 0) && fill_matches(groups, cells, fill, g, i + 1) {
        if j == i {
            lemma_fill_to_fillable(groups, cells, fill, g, i + 1);
            assert(background_move_places(groups, cells, g, i, j, 0));
            assert(move_places(groups, cells, g, i, j, fill[j]));
        } else {
            assert(move_to(groups, cells, g, i, g, i + 1));
            assert(prefix_reachable(groups, cells, g, i + 1));
            lemma_fill_color_possible(groups, cells, fill, g, i + 1, j);
        }
    } else {
        assert(group_placeable(groups, cells, g, i));
        let after = after_group(groups, g, i);
        if j < after {
            lemma_fill_to_fillable(groups, cells, fill, g + 1, after);
            assert(group_move_places(groups, cells, g, i, j, fill[j]));
            assert(move_places(groups, cells, g, i, j, fill[j]));
        } else {
            assert(move_to(groups, cells, g, i, g + 1, after));
            assert(prefix_reachable(groups, cells, g + 1, after));
            lemma_fill_color_possible(groups, cells, fill, g + 1, after, j);
        }
    }
}

/// A possible color comes from an explicit valid filling.
proof fn lemma_possible_to_fill(
    groups: Seq<(usize, usize)>,
    cells: Seq<u64>,
    j: int,
    c: int,
) -> (fill: Seq<int>)
    requires
        color_possible(groups, cells, j, c),
    ensures
        valid_fill(groups, cells, fill),
        fill[j] == c,
{
    let (g, i) = choose|g: int, i: int|
        prefix_reachable(groups, cells, g, i) && #[trigger] move_places(groups, cells, g, i, j, c);
    lemma_move_places_in_range(groups, cells, g, i, j, c);
    let p = lemma_reachable_to_prefix_fill(groups, cells, g, i);
    if background_move_places(groups, cells, g, i, j, c) {
        let f1 = lemma_fillable_to_fill(groups, cells, g, i + 1);
        let f = Seq::new(
            cells.len(),
            |k: int|
                if k < i {
                    p[k]
                } else if k == i {
                    0
                } else {
                    f1[k]
                },
        );
        lemma_prefix_fill_matches_agree(groups, cells, p, f, g, i);
        assert(move_to(groups, cells, g, i, g, i + 1));
        assert(move_writes(groups, f, g, i, g));
        assert(prefix_fill_matches(groups, cells, f, g, i + 1));
        lemma_fill_matches_agree(groups, cells, f1, f, g, i + 1);
        lemma_glue_fill(groups, cells, f, g, i + 1);
        f
    } else {
        assert(group_move_places(groups, cells, g, i, j, c));
        let after = after_group(groups, g, i);
        let f1 = lemma_fillable_to_fill(groups, cells, g + 1, after);
        let glen = groups[g].0 as int;
        let gcol = groups[g].1 as int;
        let f = Seq::new(
            cells.len(),
            |k: int|
                if k < i {
                    p[k]
                } else if i <= k < i + glen {
                    gcol
                } else if needs_gap(groups, g) && k == i + glen {
                    0
                } else {
                    f1[k]
                },
        );
        lemma_prefix_fill_matches_agree(groups, cells, p, f, g, i);
        assert(move_to(groups, cells, g, i, g + 1, after));
        assert(move_writes(groups, f, g, i, g + 1));
        assert(prefix_fill_matches(groups, cells, f, g + 1, after));
        lemma_fill_matches_agree(groups, cells, f1, f, g + 1, after);
        lemma_glue_fill(groups, cells, f, g + 1, after);
        f
    }
}

/// Every color a valid filling uses is a possible color of its cell.
pub proof fn lemma_solver_union_complete(
    groups: Seq<(usize, usize)>,
    cells: Seq<u64>,
    fill: Seq<int>,
    j: int,
)
    requires
        valid_fill(groups, cells, fill),
        0 <= j < cells.len(),
    ensures
        color_possible(groups, cells, j, fill[j]),
{
    lemma_fill_color_possible(groups, cells, fill, 0, 0, j);
}

/// The line is feasible exactly when some valid filling of it exists.
pub proof fn lemma_feasible_iff_fill_exists(groups: Seq<(usize, usize)>, cells: Seq<u64>)
    ensures
        line_fillable(groups, cells, 0, 0) <==> exists|fill: Seq<int>|
            #[trigger] valid_fill(groups, cells, fill),
{
    if line_fillable(groups, cells, 0, 0) {
        let f = lemma_fillable_to_fill(groups, cells, 0, 0);
        assert(valid_fill(groups, cells, f));
    }
    if exists|fill: Seq<int>| #[trigger] valid_fill(groups, cells, fill) {
        let f = choose|fill: Seq<int>| #[trigger] valid_fill(groups, cells, fill);
        lemma_fill_to_fillable(groups, cells, f, 0, 0);
    }
}

/// Union correctness: a color is in the output mask of a cell exactly when
/// some valid filling of the line puts that color there.
pub proof fn lemma_solved_line_union(groups: Seq<(usize, usize)>, cells: Seq<u64>, j: int, c: int)
    requires
        0 <= j < cells.len(),
    ensures
        color_allowed(solved_line(groups, cells)[j], c) <==> exists|fill: Seq<int>|
            #[trigger] valid_fill(groups, cells, fill) && fill[j] == c,
{
    lemma_result_mask_bits(groups, cells, j, c);
    if color_possible(groups, cells, j, c) {
        let f = lemma_possible_to_fill(groups, cells, j, c);
        assert(valid_fill(groups, cells, f) && f[j] == c);
    }
    if exists|fill: Seq<int>| #[trigger] valid_fill(groups, cells, fill) && fill[j] == c {
        let f = choose|fill: Seq<int>| #[trigger] valid_fill(groups, cells, fill) && fill[j] == c;
        lemma_fill_color_possible(groups, cells, f, 0, 0, j);
    }
}

/// A filling stays valid under any masks that still allow its colors.
pub proof fn lemma_fill_matches_remask(
    groups: Seq<(usize, usize)>,
    c1: Seq<u64>,
    c2: Seq<u64>,
    fill: Seq<int>,
    g: int,
    i: int,
)
    requires
        fill_matches(groups, c1, fill, g, i),
        0 <= i,
        c2.len() == c1.len(),
        forall|k: int| 0 <= k < c2.len() ==> #[trigger] color_allowed(c2[k], fill[k]),
    ensures
        fill_matches(groups, c2, fill, g, i),
    decreases c1.len() - i,
{
    if i >= c1.len() {
    } else if fill[i] == 0 && color_allowed(c1[i], 0) && fill_matches(groups, c1, fill, g, i + 1) {
        lemma_fill_matches_remask(groups, c1, c2, fill, g, i + 1);
        assert(color_allowed(c2[i], fill[i]));
    } else {
        assert(group_placeable(groups, c1, g, i));
        lemma_fill_matches_remask(groups, c1, c2, fill, g + 1, after_group(groups, g, i));
        assert(group_placeable(groups, c2, g, i)) by {
            assert forall|k: int| i <= k <= i + groups[g].0 - 1 implies color_allowed(
                #[trigger] c2[k],
                groups[g].1 as int,
            ) by {
                assert(fill[k] == groups[g].1);
                assert(color_allowed(c2[k], fill[k]));
            }
            if needs_gap(groups, g) {
                assert(fill[i + groups[g].0] == 0);
                assert(color_allowed(c2[i + groups[g].0], fill[i + groups[g].0]));
            }
        }
    }
}

} // verus!
