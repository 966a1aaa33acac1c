//! One-line (row or column) solver for colored nonogram puzzles.
//!
//! A line is a sequence of cells, each carrying a mask of possible colors
//! (bit 0 is the background color), together with an ordered list of
//! `(length, color)` runs it must contain.  The solver computes, for every
//! cell, the union of the colors that cell takes over all fillings of the
//! line that satisfy both the runs and the given masks — or reports that no
//! such filling exists.
//!
//! The model works on positions `(g, i)`: `g` runs already placed, `i` cells
//! already filled.  From a position, either one background cell is placed
//! (staying on the same run), or the next run is placed in full, with a
//! mandatory single background separator when the following run has the same
//! color.  `line_fillable` says the line can be completed from a position;
//! `prefix_reachable` says the position can be reached from the start.
//! Possibility tables for both are computed by dynamic programming over the
//! position grid.

use vstd::prelude::*;

use crate::masks::color_allowed;

verus! {

/// Run `color` may occupy every cell of `l ..= r`.
pub open spec fn place_ok(cells: Seq<u64>, color: int, l: int, r: int) -> bool {
    &&& 0 <= color < 64
    &&& 0 <= l
    &&& r < cells.len()
    &&& forall|k: int| l <= k <= r ==> color_allowed(#[trigger] cells[k], color)
}

/// Runs `g` and `g + 1` have the same color, so a background separator is
/// mandatory between them.
pub open spec fn needs_gap(groups: Seq<(usize, usize)>, g: int) -> bool {
    0 <= g && g + 1 < groups.len() && groups[g + 1].1 == groups[g].1
}

/// Run `g` can be placed starting at cell `i`, separator included when one
/// is due.
pub open spec fn group_placeable(groups: Seq<(usize, usize)>, cells: Seq<u64>, g: int, i: int) -> bool {
    &&& 0 <= g < groups.len()
    &&& groups[g].0 > 0
    &&& place_ok(cells, groups[g].1 as int, i, i + groups[g].0 - 1)
    &&& (needs_gap(groups, g) ==> place_ok(cells, 0, i + groups[g].0, i + groups[g].0))
}

/// The cell index just after run `g` placed at `i`, separator included.
pub open spec fn after_group(groups: Seq<(usize, usize)>, g: int, i: int) -> int {
    i + groups[g].0 + if needs_gap(groups, g) { 1int } else { 0int }
}

/// The line can be completed from position `(g, i)`: runs `g ..` can be laid
/// out over cells `i ..` so that every placed color is allowed by the masks.
pub open spec fn line_fillable(groups: Seq<(usize, usize)>, cells: Seq<u64>, g: int, i: int) -> bool
    decreases cells.len() - i,
{
    if i >= cells.len() {
        g == groups.len()
    } else {
        ||| (color_allowed(cells[i], 0) && line_fillable(groups, cells, g, i + 1))
        ||| (group_placeable(groups, cells, g, i)
            && line_fillable(groups, cells, g + 1, after_group(groups, g, i)))
    }
}

/// One legal move from position `(g, i)` to position `(g2, i2)`: either a
/// single background cell, or run `g` in full (plus its separator when due).
pub open spec fn move_to(
    groups: Seq<(usize, usize)>,
    cells: Seq<u64>,
    g: int,
    i: int,
    g2: int,
    i2: int,
) -> bool {
    ||| (0 <= i < cells.len() && color_allowed(cells[i], 0) && g2 == g && i2 == i + 1)
    ||| (group_placeable(groups, cells, g, i) && g2 == g + 1 && i2 == after_group(groups, g, i))
}

/// Position `(g, i)` is reachable from the start of the line: cells
/// `0 .. i` can be filled placing exactly the runs `0 .. g`.
pub open spec fn prefix_reachable(groups: Seq<(usize, usize)>, cells: Seq<u64>, g: int, i: int) -> bool
    decreases i,
{
    if g == 0 && i == 0 {
        true
    } else if i <= 0 {
        false
    } else {
        exists|g0: int, i0: int|
            0 <= i0 < i && #[trigger] move_to(groups, cells, g0, i0, g, i)
                && prefix_reachable(groups, cells, g0, i0)
    }
}

/// A completable background move at `(g, i)` writes color `c` into cell
/// `j`: one background cell is placed at `i` and the rest of the line can
/// still be finished.
pub open spec fn background_move_places(
    groups: Seq<(usize, usize)>,
    cells: Seq<u64>,
    g: int,
    i: int,
    j: int,
    c: int,
) -> bool {
    j == i && c == 0 && 0 <= i < cells.len() && color_allowed(cells[i], 0)
        && line_fillable(groups, cells, g, i + 1)
}

/// A completable run placement at `(g, i)` writes color `c` into cell `j`:
/// run `g` is placed at `i` (separator included when due) and the rest of
/// the line can still be finished.
pub open spec fn group_move_places(
    groups: Seq<(usize, usize)>,
    cells: Seq<u64>,
    g: int,
    i: int,
    j: int,
    c: int,
) -> bool {
    group_placeable(groups, cells, g, i)
        && line_fillable(groups, cells, g + 1, after_group(groups, g, i))
        && ((i <= j < i + groups[g].0 && c == groups[g].1)
            || (needs_gap(groups, g) && j == i + groups[g].0 && c == 0))
}

/// A completable move out of position `(g, i)` writes color `c` into cell
/// `j`: the move is legal and the rest of the line can still be finished.
pub open spec fn move_places(
    groups: Seq<(usize, usize)>,
    cells: Seq<u64>,
    g: int,
    i: int,
    j: int,
    c: int,
) -> bool {
    ||| background_move_places(groups, cells, g, i, j, c)
    ||| group_move_places(groups, cells, g, i, j, c)
}

/// The colors written by completable moves out of positions that come
/// strictly before `(gb, ib)` in the scan order (by cell, then by run).
spec fn color_possible_before(
    groups: Seq<(usize, usize)>,
    cells: Seq<u64>,
    j: int,
    c: int,
    ib: int,
    gb: int,
) -> bool {
    exists|g: int, i: int|
        (i < ib || (i == ib && g < gb)) && prefix_reachable(groups, cells, g, i)
            && #[trigger] move_places(groups, cells, g, i, j, c)
}

/// Color `c` is possible at cell `j`: some filling of the whole line that
/// satisfies the runs and the masks puts `c` there.  Stated over positions:
/// a reachable position has a completable move writing `c` into `j`.
pub open spec fn color_possible(groups: Seq<(usize, usize)>, cells: Seq<u64>, j: int, c: int) -> bool {
    exists|g: int, i: int|
        prefix_reachable(groups, cells, g, i) && #[trigger] move_places(groups, cells, g, i, j, c)
}

/// The mask of possible colors below `c` at cell `j`.
pub open spec fn result_mask_below(groups: Seq<(usize, usize)>, cells: Seq<u64>, j: int, c: nat) -> u64
    decreases c,
{
    if c == 0 {
        0u64
    } else {
        let rest = result_mask_below(groups, cells, j, (c - 1) as nat);
        if color_possible(groups, cells, j, c - 1) {
            rest | (1u64 << ((c - 1) as u64))
        } else {
            rest
        }
    }
}

/// The exact output mask of the solver at cell `j`.
pub open spec fn result_mask(groups: Seq<(usize, usize)>, cells: Seq<u64>, j: int) -> u64 {
    result_mask_below(groups, cells, j, 64)
}

/// The solver's whole output line.
pub open spec fn solved_line(groups: Seq<(usize, usize)>, cells: Seq<u64>) -> Seq<u64> {
    Seq::new(cells.len(), |j: int| result_mask(groups, cells, j))
}

/// `result_mask_below` has exactly the bits of the possible colors below `c`.
proof fn lemma_result_mask_below_bits(groups: Seq<(usize, usize)>, cells: Seq<u64>, j: int, c: nat)
    requires
        c <= 64,
    ensures
        forall|b: int| #![trigger color_allowed(result_mask_below(groups, cells, j, c), b)]
            color_allowed(result_mask_below(groups, cells, j, c), b)
                <==> (0 <= b < c && color_possible(groups, cells, j, b)),
    decreases c,
{
    if c == 0 {
        assert forall|b: int| #![trigger color_allowed(result_mask_below(groups, cells, j, c), b)]
            color_allowed(result_mask_below(groups, cells, j, c), b)
                <==> (0 <= b < c && color_possible(groups, cells, j, b)) by {
            if 0 <= b < 64 {
                crate::masks::lemma_zero_bit(b as u64);
            }
        }
    } else {
        lemma_result_mask_below_bits(groups, cells, j, (c - 1) as nat);
        let rest = result_mask_below(groups, cells, j, (c - 1) as nat);
        assert forall|b: int| #![trigger color_allowed(result_mask_below(groups, cells, j, c), b)]
            color_allowed(result_mask_below(groups, cells, j, c), b)
                <==> (0 <= b < c && color_possible(groups, cells, j, b)) by {
            if 0 <= b < 64 {
                if color_possible(groups, cells, j, c - 1) {
                    crate::masks::lemma_or_allowed(rest, 1u64 << ((c - 1) as u64), b);
                    crate::masks::lemma_shift_bit((c - 1) as u64, b as u64);
                }
            }
        }
    }
}

/// The output mask at `j` allows exactly the possible colors at `j`.
pub proof fn lemma_result_mask_bits(groups: Seq<(usize, usize)>, cells: Seq<u64>, j: int, c: int)
    ensures
        color_allowed(result_mask(groups, cells, j), c) <==> color_possible(groups, cells, j, c),
{
    lemma_result_mask_below_bits(groups, cells, j, 64);
    if !(0 <= c < 64) {
        assert(!color_allowed(result_mask(groups, cells, j), c));
        assert(!color_possible(groups, cells, j, c)) by {
            if color_possible(groups, cells, j, c) {
                let (g, i) = choose|g: int, i: int|
                    prefix_reachable(groups, cells, g, i)
                        && #[trigger] move_places(groups, cells, g, i, j, c);
                assert(0 <= c < 64);
            }
        }
    }
}

/// A completable move stays inside the line and writes a real color.
pub proof fn lemma_move_places_in_range(
    groups: Seq<(usize, usize)>,
    cells: Seq<u64>,
    g: int,
    i: int,
    j: int,
    c: int,
)
    requires
        move_places(groups, cells, g, i, j, c),
    ensures
        0 <= i < cells.len(),
        0 <= j < cells.len(),
        0 <= c < 64,
{
}

/// Every color a completable move writes is allowed by the input mask of
/// the cell it writes to.
pub proof fn lemma_color_possible_allowed(
    groups: Seq<(usize, usize)>,
    cells: Seq<u64>,
    j: int,
    c: int,
)
    requires
        color_possible(groups, cells, j, c),
    ensures
        color_allowed(cells[j], c),
{
    let (g, i) = choose|g: int, i: int|
        prefix_reachable(groups, cells, g, i) && #[trigger] move_places(groups, cells, g, i, j, c);
    if background_move_places(groups, cells, g, i, j, c) {
    } else {
        assert(group_move_places(groups, cells, g, i, j, c));
    }
}

/// The solver's output mask at a cell is a subset of the input mask there.
pub proof fn lemma_solved_line_subset(groups: Seq<(usize, usize)>, cells: Seq<u64>, j: int)
    requires
        0 <= j < cells.len(),
    ensures
        crate::masks::mask_subset(solved_line(groups, cells)[j], cells[j]),
{
    assert forall|c: u64| c < 64 implies
        ((solved_line(groups, cells)[j] & (1u64 << c) != 0) ==> (cells[j] & (1u64 << c) != 0)) by {
        lemma_result_mask_bits(groups, cells, j, c as int);
        if color_possible(groups, cells, j, c as int) {
            lemma_color_possible_allowed(groups, cells, j, c as int);
        }
    }
    crate::masks::lemma_mask_subset_from_bits(solved_line(groups, cells)[j], cells[j]);
}

/// A reachable position lies inside the position grid.
pub proof fn lemma_reachable_in_range(groups: Seq<(usize, usize)>, cells: Seq<u64>, g: int, i: int)
    requires
        prefix_reachable(groups, cells, g, i),
    ensures
        0 <= g <= groups.len(),
        0 <= i <= cells.len(),
    decreases i,
{
    if g == 0 && i == 0 {
    } else if i <= 0 {
    } else {
        let (g0, i0) = choose|g0: int, i0: int|
            0 <= i0 < i && #[trigger] move_to(groups, cells, g0, i0, g, i)
                && prefix_reachable(groups, cells, g0, i0);
        lemma_reachable_in_range(groups, cells, g0, i0);
    }
}

/// A table that holds the start position and is closed under legal moves
/// holds every reachable position.
proof fn lemma_reach_table_complete(
    table: Seq<Seq<bool>>,
    groups: Seq<(usize, usize)>,
    cells: Seq<u64>,
    g: int,
    i: int,
)
    requires
        prefix_reachable(groups, cells, g, i),
        table[0][0] == true,
        forall|g0: int, i0: int, g2: int, i2: int|
            0 <= g0 <= groups.len() && 0 <= i0 < cells.len() && 0 <= g2 <= groups.len()
                && 0 <= i2 <= cells.len() && table[g0][i0]
                && #[trigger] move_to(groups, cells, g0, i0, g2, i2) ==> table[g2][i2],
    ensures
        table[g][i],
    decreases i,
{
    if g == 0 && i == 0 {
    } else {
        let (g0, i0) = choose|g0: int, i0: int|
            0 <= i0 < i && #[trigger] move_to(groups, cells, g0, i0, g, i)
                && prefix_reachable(groups, cells, g0, i0);
        lemma_reachable_in_range(groups, cells, g0, i0);
        lemma_reachable_in_range(groups, cells, g, i);
        lemma_reach_table_complete(table, groups, cells, g0, i0);
        assert(i0 < cells.len());
    }
}

/// A freshly cleared square table of side `size`.
fn square_table(size: usize) -> (t: Vec<Vec<bool>>)
    ensures
        t@.len() == size,
        forall|k: int| 0 <= k < size ==> (#[trigger] t@[k])@.len() == size,
{
    let mut t: Vec<Vec<bool>> = Vec::new();
    let mut k: usize = 0;
    while k < size
        invariant
            k <= size,
            t@.len() == k,
            forall|q: int| 0 <= q < k ==> (#[trigger] t@[q])@.len() == size,
        decreases size - k,
    {
        let row: Vec<bool> = vec![false; size];
        t.push(row);
        k = k + 1;
    }
    t
}

pub struct OneLineSolver {
    /// Per position `(g, i)`: the line can be completed from there.
    calc_fill: Vec<Vec<bool>>,
    /// Per position `(g, i)`: the position is reachable from the start.
    reach: Vec<Vec<bool>>,
    /// Union of colors found possible for each cell while solving.
    result_cell: Vec<u64>,
}

impl OneLineSolver {
    /// Side of the square position tables.
    pub closed spec fn table_size(&self) -> int {
        self.calc_fill@.len() as int
    }

    /// The position tables are square and of equal size.
    pub closed spec fn wf(&self) -> bool {
        &&& self.reach@.len() == self.calc_fill@.len()
        &&& forall|k: int| 0 <= k < self.calc_fill@.len()
            ==> (#[trigger] self.calc_fill@[k])@.len() == self.calc_fill@.len()
        &&& forall|k: int| 0 <= k < self.reach@.len()
            ==> (#[trigger] self.reach@[k])@.len() == self.reach@.len()
    }

    /// Create a solver sized for `line_len` cells.
    pub fn new(line_len: usize) -> (r: Self)
        requires
            line_len < usize::MAX,
        ensures
            r.wf(),
    {
        let size = line_len + 1;
        Self {
            calc_fill: square_table(size),
            reach: square_table(size),
            result_cell: vec![0u64; line_len],
        }
    }

    /// Grow the tables so a line of `line_len` cells and `group_len` runs
    /// fits; never shrinks them.
    fn ensure_capacity(&mut self, line_len: usize, group_len: usize)
        requires
            old(self).wf(),
            line_len < usize::MAX,
            group_len < usize::MAX,
        ensures
            final(self).wf(),
            final(self).table_size() > line_len,
            final(self).table_size() > group_len,
            final(self).result_cell == old(self).result_cell,
    {
        let larger = if line_len > group_len { line_len } else { group_len };
        let needed = larger + 1;
        if self.calc_fill.len() < needed {
            self.calc_fill = square_table(needed);
            self.reach = square_table(needed);
        }
    }

    /// The one-bit mask of `color`, or `None` when it does not fit.
    fn color_mask(color: usize) -> (r: Option<u64>)
        ensures
            r == (if color < 64 { Some(1u64 << color as u64) } else { None::<u64> }),
    {
        if color < 64 {
            Some(1u64 << (color as u64))
        } else {
            None
        }
    }

    /// Can `color` occupy every cell of `l_bound ..= r_bound`?
    fn can_place_color(cells: &Vec<u64>, color: usize, l_bound: usize, r_bound: usize) -> (r: bool)
        ensures
            r == place_ok(cells@, color as int, l_bound as int, r_bound as int),
    {
        if r_bound >= cells.len() {
            return false;
        }
        let mask = match Self::color_mask(color) {
            Some(mask) => mask,
            None => {
                return false;
            },
        };
        let mut idx = l_bound;
        while idx <= r_bound
            invariant
                l_bound <= idx,
                r_bound < usize::MAX,
                r_bound < cells@.len(),
                color < 64,
                mask == 1u64 << color as u64,
                forall|k: int| l_bound <= k < idx ==> color_allowed(#[trigger] cells@[k], color as int),
            decreases r_bound + 1 - idx,
        {
            if cells[idx] & mask == 0 {
                return false;
            }
            idx = idx + 1;
        }
        true
    }

    /// Set the bit of `color` in every result cell of `l_bound ..= r_bound`.
    fn set_place_color(&mut self, color: usize, l_bound: usize, r_bound: usize)
        requires
            color < 64,
            r_bound < old(self).result_cell@.len(),
        ensures
            final(self).calc_fill == old(self).calc_fill,
            final(self).reach == old(self).reach,
            final(self).result_cell@.len() == old(self).result_cell@.len(),
            forall|k: int| 0 <= k < final(self).result_cell@.len()
                ==> final(self).result_cell@[k] == (if l_bound <= k <= r_bound {
                    old(self).result_cell@[k] | (1u64 << color as u64)
                } else {
                    old(self).result_cell@[k]
                }),
    {
        let mask = match Self::color_mask(color) {
            Some(mask) => mask,
            None => {
                return;
            },
        };
        let n = self.result_cell.len();
        let mut idx = l_bound;
        while idx <= r_bound
            invariant
                l_bound <= idx,
                color < 64,
                r_bound < n,
                n == self.result_cell@.len(),
                mask == 1u64 << color as u64,
                self.calc_fill == old(self).calc_fill,
                self.reach == old(self).reach,
                self.result_cell@.len() == old(self).result_cell@.len(),
                forall|k: int| 0 <= k < self.result_cell@.len()
                    ==> self.result_cell@[k] == (if l_bound <= k < idx && k <= r_bound {
                        old(self).result_cell@[k] | (1u64 << color as u64)
                    } else {
                        old(self).result_cell@[k]
                    }),
            decreases r_bound + 1 - idx,
        {
            let cur = self.result_cell[idx];
            self.result_cell[idx] = cur | mask;
            idx = idx + 1;
        }
    }

    /// Compute, for every position `(g, i)` of the tables, whether the line
    /// can be completed from it, bottom-up over `i`.
    fn fill_feasibility(&mut self, groups: &Vec<(usize, usize)>, cells: &Vec<u64>)
        requires
            old(self).wf(),
            old(self).table_size() > cells@.len(),
            old(self).table_size() > groups@.len(),
        ensures
            final(self).wf(),
            final(self).table_size() == old(self).table_size(),
            final(self).reach == old(self).reach,
            final(self).result_cell == old(self).result_cell,
            forall|g: int, i: int| 0 <= g <= groups@.len() && 0 <= i <= cells@.len()
                ==> (#[trigger] final(self).calc_fill@[g]@[i]) == line_fillable(groups@, cells@, g, i),
    {
        let ghost self0 = *old(self);
        let n = cells.len();
        let m = groups.len();
        let size = self.calc_fill.len();
        let mut i = n + 1;
        while i > 0
            invariant
                i <= n + 1,
                n == cells@.len(),
                m == groups@.len(),
                self.wf(),
                self.table_size() == self0.table_size(),
                self.table_size() == size,
                self.table_size() > n,
                self.table_size() > m,
                self.reach == self0.reach,
                self.result_cell == self0.result_cell,
                forall|g2: int, i2: int| 0 <= g2 <= m && i <= i2 <= n
                    ==> (#[trigger] self.calc_fill@[g2]@[i2]) == line_fillable(groups@, cells@, g2, i2),
            decreases i,
        {
            i = i - 1;
            let mut g: usize = 0;
            while g <= m
                invariant
                    i <= n,
                    g <= m + 1,
                    n == cells@.len(),
                    m == groups@.len(),
                    self.wf(),
                    self.table_size() == self0.table_size(),
                    self.table_size() == size,
                    self.table_size() > n,
                    self.table_size() > m,
                    self.reach == self0.reach,
                    self.result_cell == self0.result_cell,
                    forall|g2: int, i2: int| 0 <= g2 <= m && i < i2 <= n
                        ==> (#[trigger] self.calc_fill@[g2]@[i2]) == line_fillable(groups@, cells@, g2, i2),
                    forall|g2: int| 0 <= g2 < g
                        ==> (#[trigger] self.calc_fill@[g2]@[i as int]) == line_fillable(groups@, cells@, g2, i as int),
                decreases m + 1 - g,
            {
                let val: bool;
                if i == n {
                    val = g == m;
                } else {
                    let mut ans = false;
                    if Self::can_place_color(cells, 0, i, i) && self.calc_fill[g][i + 1] {
                        ans = true;
                    }
                    if g < m {
                        let (glen, gcol) = groups[g];
                        if glen > 0 {
                            if let Some(end) = i.checked_add(glen) {
                                let r_bound = end - 1;
                                let mut can = Self::can_place_color(cells, gcol, i, r_bound);
                                let mut next_cell = end;
                                if can && g + 1 < m && groups[g + 1].1 == gcol {
                                    can = Self::can_place_color(cells, 0, next_cell, next_cell);
                                    next_cell = next_cell + 1;
                                }
                                if can && self.calc_fill[g + 1][next_cell] {
                                    ans = true;
                                }
                            }
                        }
                    }
                    val = ans;
                }
                self.calc_fill[g][i] = val;
                g = g + 1;
            }
        }
    }

    /// Compute, for every position `(g, i)` of the tables, whether it is
    /// reachable from the start of the line, forward over `i`.
    fn fill_reachability(&mut self, groups: &Vec<(usize, usize)>, cells: &Vec<u64>)
        requires
            old(self).wf(),
            old(self).table_size() > cells@.len(),
            old(self).table_size() > groups@.len(),
        ensures
            final(self).wf(),
            final(self).table_size() == old(self).table_size(),
            final(self).calc_fill == old(self).calc_fill,
            final(self).result_cell == old(self).result_cell,
            forall|g: int, i: int| 0 <= g <= groups@.len() && 0 <= i <= cells@.len()
                ==> (#[trigger] final(self).reach@[g]@[i]) == prefix_reachable(groups@, cells@, g, i),
    {
        let ghost self0 = *old(self);
        let n = cells.len();
        let m = groups.len();
        let size = self.reach.len();
        let mut g: usize = 0;
        while g <= m
            invariant
                g <= m + 1,
                n == cells@.len(),
                m == groups@.len(),
                self.wf(),
                self.table_size() == self0.table_size(),
                self.table_size() == size,
                self.table_size() > n,
                self.table_size() > m,
                self.calc_fill == self0.calc_fill,
                self.result_cell == self0.result_cell,
                forall|g2: int, i2: int| 0 <= g2 < g && 0 <= i2 <= n
                    ==> (#[trigger] self.reach@[g2]@[i2]) == (g2 == 0 && i2 == 0),
            decreases m + 1 - g,
        {
            let mut i: usize = 0;
            while i <= n
                invariant
                    g <= m,
                    i <= n + 1,
                    n == cells@.len(),
                    m == groups@.len(),
                    self.wf(),
                    self.table_size() == self0.table_size(),
                    self.table_size() == size,
                    self.table_size() > n,
                    self.table_size() > m,
                    self.calc_fill == self0.calc_fill,
                    self.result_cell == self0.result_cell,
                    forall|g2: int, i2: int| 0 <= g2 < g && 0 <= i2 <= n
                        ==> (#[trigger] self.reach@[g2]@[i2]) == (g2 == 0 && i2 == 0),
                    forall|i2: int| 0 <= i2 < i
                        ==> (#[trigger] self.reach@[g as int]@[i2]) == (g == 0 && i2 == 0),
                decreases n + 1 - i,
            {
                self.reach[g][i] = g == 0 && i == 0;
                i = i + 1;
            }
            g = g + 1;
        }
        let mut i: usize = 0;
        while i < n
            invariant
                i <= n,
                n == cells@.len(),
                m == groups@.len(),
                self.wf(),
                self.table_size() == self0.table_size(),
                self.table_size() == size,
                self.table_size() > n,
                self.table_size() > m,
                self.calc_fill == self0.calc_fill,
                self.result_cell == self0.result_cell,
                self.reach@[0]@[0] == true,
                forall|g2: int, i2: int| 0 <= g2 <= m && 0 <= i2 <= n && (#[trigger] self.reach@[g2]@[i2])
                    ==> prefix_reachable(groups@, cells@, g2, i2),
                forall|g0: int, i0: int, g2: int, i2: int|
                    0 <= g0 <= m && 0 <= i0 < i && 0 <= g2 <= m && 0 <= i2 <= n
                        && self.reach@[g0]@[i0]
                        && #[trigger] move_to(groups@, cells@, g0, i0, g2, i2)
                    ==> self.reach@[g2]@[i2],
            decreases n - i,
        {
            let mut g: usize = 0;
            while g <= m
                invariant
                    g <= m + 1,
                    i < n,
                    n == cells@.len(),
                    m == groups@.len(),
                    self.wf(),
                    self.table_size() == self0.table_size(),
                    self.table_size() == size,
                    self.table_size() > n,
                    self.table_size() > m,
                    self.calc_fill == self0.calc_fill,
                    self.result_cell == self0.result_cell,
                    self.reach@[0]@[0] == true,
                    forall|g2: int, i2: int| 0 <= g2 <= m && 0 <= i2 <= n && (#[trigger] self.reach@[g2]@[i2])
                        ==> prefix_reachable(groups@, cells@, g2, i2),
                    forall|g0: int, i0: int, g2: int, i2: int|
                        0 <= g0 <= m && 0 <= i0 < i && 0 <= g2 <= m && 0 <= i2 <= n
                            && self.reach@[g0]@[i0]
                            && #[trigger] move_to(groups@, cells@, g0, i0, g2, i2)
                        ==> self.reach@[g2]@[i2],
                    forall|g0: int, g2: int, i2: int|
                        0 <= g0 < g && 0 <= g2 <= m && 0 <= i2 <= n
                            && self.reach@[g0]@[i as int]
                            && #[trigger] move_to(groups@, cells@, g0, i as int, g2, i2)
                        ==> self.reach@[g2]@[i2],
                decreases m + 1 - g,
            {
                if self.reach[g][i] {
                    if Self::can_place_color(cells, 0, i, i) {
                        self.reach[g][i + 1] = true;
                        proof {
                            assert(move_to(groups@, cells@, g as int, i as int, g as int, i + 1));
                            assert(prefix_reachable(groups@, cells@, g as int, i + 1));
                        }
                    }
                    if g < m {
                        let (glen, gcol) = groups[g];
                        if glen > 0 {
                            if let Some(end) = i.checked_add(glen) {
                                let r_bound = end - 1;
                                let mut can = Self::can_place_color(cells, gcol, i, r_bound);
                                let mut next_cell = end;
                                if can && g + 1 < m && groups[g + 1].1 == gcol {
                                    can = Self::can_place_color(cells, 0, next_cell, next_cell);
                                    next_cell = next_cell + 1;
                                }
                                if can {
                                    self.reach[g + 1][next_cell] = true;
                                    proof {
                                        assert(group_placeable(groups@, cells@, g as int, i as int));
                                        assert(next_cell == after_group(groups@, g as int, i as int));
                                        assert(move_to(
                                            groups@,
                                            cells@,
                                            g as int,
                                            i as int,
                                            g + 1,
                                            next_cell as int,
                                        ));
                                        assert(prefix_reachable(groups@, cells@, g + 1, next_cell as int));
                                    }
                                }
                            }
                        }
                    }
                }
                g = g + 1;
            }
            i = i + 1;
        }
        proof {
            assert forall|g: int, i2: int| 0 <= g <= groups@.len() && 0 <= i2 <= cells@.len()
                implies (self.reach@[g]@[i2]) == prefix_reachable(groups@, cells@, g, i2) by {
                if prefix_reachable(groups@, cells@, g, i2) {
                    lemma_reach_table_complete(
                        self.reach@.map_values(|row: Vec<bool>| row@),
                        groups@,
                        cells@,
                        g,
                        i2,
                    );
                }
            }
        }
    }

    /// When the background move out of `(g, i)` is completable, set the
    /// background bit in the result cell it writes.
    fn apply_background_move(&mut self, groups: &Vec<(usize, usize)>, cells: &Vec<u64>, g: usize, i: usize)
        requires
            old(self).wf(),
            old(self).table_size() > cells@.len(),
            old(self).table_size() > groups@.len(),
            g <= groups@.len(),
            i < cells@.len(),
            cells@.len() < usize::MAX,
            old(self).result_cell@.len() == cells@.len(),
            forall|g2: int, i2: int| 0 <= g2 <= groups@.len() && 0 <= i2 <= cells@.len()
                ==> (#[trigger] old(self).calc_fill@[g2]@[i2]) == line_fillable(groups@, cells@, g2, i2),
        ensures
            final(self).wf(),
            final(self).table_size() == old(self).table_size(),
            final(self).calc_fill == old(self).calc_fill,
            final(self).reach == old(self).reach,
            final(self).result_cell@.len() == old(self).result_cell@.len(),
            forall|j: int, c: int| 0 <= j < cells@.len() && 0 <= c < 64
                ==> ((#[trigger] color_allowed(final(self).result_cell@[j], c))
                    <==> (color_allowed(old(self).result_cell@[j], c)
                        || background_move_places(groups@, cells@, g as int, i as int, j, c))),
    {
        let ghost res0 = self.result_cell@;
        if Self::can_place_color(cells, 0, i, i) && self.calc_fill[g][i + 1] {
            self.set_place_color(0, i, i);
            proof {
                assert forall|j: int, c: int| #![trigger color_allowed(self.result_cell@[j], c)]
                    0 <= j < cells@.len() && 0 <= c < 64 implies
                    (color_allowed(self.result_cell@[j], c)
                        <==> (color_allowed(res0[j], c)
                            || background_move_places(groups@, cells@, g as int, i as int, j, c))) by {
                    crate::masks::lemma_or_single_allowed(res0[j], 0, c);
                }
            }
        } else {
            proof {
                assert forall|j: int, c: int| #![trigger color_allowed(self.result_cell@[j], c)]
                    0 <= j < cells@.len() && 0 <= c < 64 implies
                    (color_allowed(self.result_cell@[j], c)
                        <==> (color_allowed(res0[j], c)
                            || background_move_places(groups@, cells@, g as int, i as int, j, c))) by {
                }
            }
        }
    }

    /// When placing run `g` at cell `i` is completable, set the bits of the
    /// colors that placement writes (the run's color over its cells, and the
    /// background bit of the separator when one is due).
    fn apply_group_move(&mut self, groups: &Vec<(usize, usize)>, cells: &Vec<u64>, g: usize, i: usize)
        requires
            old(self).wf(),
            old(self).table_size() > cells@.len(),
            old(self).table_size() > groups@.len(),
            g <= groups@.len(),
            i < cells@.len(),
            cells@.len() < usize::MAX,
            old(self).result_cell@.len() == cells@.len(),
            forall|g2: int, i2: int| 0 <= g2 <= groups@.len() && 0 <= i2 <= cells@.len()
                ==> (#[trigger] old(self).calc_fill@[g2]@[i2]) == line_fillable(groups@, cells@, g2, i2),
        ensures
            final(self).wf(),
            final(self).table_size() == old(self).table_size(),
            final(self).calc_fill == old(self).calc_fill,
            final(self).reach == old(self).reach,
            final(self).result_cell@.len() == old(self).result_cell@.len(),
            forall|j: int, c: int| 0 <= j < cells@.len() && 0 <= c < 64
                ==> ((#[trigger] color_allowed(final(self).result_cell@[j], c))
                    <==> (color_allowed(old(self).result_cell@[j], c)
                        || group_move_places(groups@, cells@, g as int, i as int, j, c))),
    {
        let ghost res0 = self.result_cell@;
        if g >= groups.len() {
            return;
        }
        let (glen, gcol) = groups[g];
        if glen == 0 {
            return;
        }
        let end = match i.checked_add(glen) {
            Some(end) => end,
            None => {
                return;
            },
        };
        let r_bound = end - 1;
        let mut can = Self::can_place_color(cells, gcol, i, r_bound);
        let mut place_white = false;
        let mut next_cell = end;
        if can && g + 1 < groups.len() && groups[g + 1].1 == gcol {
            place_white = true;
            can = Self::can_place_color(cells, 0, next_cell, next_cell);
            next_cell = next_cell + 1;
        }
        if !can {
            return;
        }
        if !self.calc_fill[g + 1][next_cell] {
            return;
        }
        self.set_place_color(gcol, i, r_bound);
        if place_white {
            self.set_place_color(0, r_bound + 1, r_bound + 1);
        }
        proof {
            assert(group_placeable(groups@, cells@, g as int, i as int));
            assert(next_cell == after_group(groups@, g as int, i as int));
            assert forall|j: int, c: int| #![trigger color_allowed(self.result_cell@[j], c)]
                0 <= j < cells@.len() && 0 <= c < 64 implies
                (color_allowed(self.result_cell@[j], c)
                    <==> (color_allowed(res0[j], c)
                        || group_move_places(groups@, cells@, g as int, i as int, j, c))) by {
                if i <= j <= r_bound {
                    crate::masks::lemma_or_single_allowed(res0[j], gcol as int, c);
                } else if place_white && j == r_bound + 1 {
                    crate::masks::lemma_or_single_allowed(res0[j], 0, c);
                }
            }
        }
    }

    /// Update the state of a line in place.
    ///
    /// `groups` is the list of `(length, color)` runs; `cells` holds the
    /// mask of possible colors for each position.  On success every cell is
    /// replaced by the union of the colors it takes over all fillings of
    /// the line that satisfy the runs and the given masks.  Returns `false`,
    /// leaving `cells` untouched, when no such filling exists.
    pub fn update_state(&mut self, groups: &Vec<(usize, usize)>, cells: &mut Vec<u64>) -> (ok: bool)
        requires
            old(self).wf(),
            old(cells)@.len() < usize::MAX,
            groups@.len() < usize::MAX,
        ensures
            final(self).wf(),
            ok == line_fillable(groups@, old(cells)@, 0, 0),
            final(cells)@.len() == old(cells)@.len(),
            ok ==> final(cells)@ == solved_line(groups@, old(cells)@),
            !ok ==> final(cells)@ == old(cells)@,
    {
        self.ensure_capacity(cells.len(), groups.len());
        self.fill_feasibility(groups, cells);
        if !self.calc_fill[0][0] {
            return false;
        }
        self.fill_reachability(groups, cells);
        self.accumulate_result(groups, cells);
        let n = cells.len();
        let ghost orig = cells@;
        let mut j: usize = 0;
        while j < n
            invariant
                j <= n,
                n == cells@.len(),
                n == orig.len(),
                self.result_cell@.len() == n,
                forall|q: int| 0 <= q < n
                    ==> (#[trigger] self.result_cell@[q]) == result_mask(groups@, orig, q),
                forall|q: int| 0 <= q < j ==> (#[trigger] cells@[q]) == result_mask(groups@, orig, q),
                forall|q: int| j <= q < n ==> (#[trigger] cells@[q]) == orig[q],
            decreases n - j,
        {
            cells[j] = self.result_cell[j];
            j = j + 1;
        }
        proof {
            assert(cells@ =~= solved_line(groups@, orig));
        }
        true
    }

    /// Rebuild the result buffer: scan every position in order and apply
    /// the completable moves of the reachable ones, so that each result
    /// cell ends up with exactly the union of the possible colors there.
    fn accumulate_result(&mut self, groups: &Vec<(usize, usize)>, cells: &Vec<u64>)
        requires
            old(self).wf(),
            old(self).table_size() > cells@.len(),
            old(self).table_size() > groups@.len(),
            cells@.len() < usize::MAX,
            forall|g: int, i: int| 0 <= g <= groups@.len() && 0 <= i <= cells@.len()
                ==> (#[trigger] old(self).calc_fill@[g]@[i]) == line_fillable(groups@, cells@, g, i),
            forall|g: int, i: int| 0 <= g <= groups@.len() && 0 <= i <= cells@.len()
                ==> (#[trigger] old(self).reach@[g]@[i]) == prefix_reachable(groups@, cells@, g, i),
        ensures
            final(self).wf(),
            final(self).table_size() == old(self).table_size(),
            final(self).calc_fill == old(self).calc_fill,
            final(self).reach == old(self).reach,
            final(self).result_cell@.len() == cells@.len(),
            forall|j: int| 0 <= j < cells@.len()
                ==> (#[trigger] final(self).result_cell@[j]) == result_mask(groups@, cells@, j),
    {
        let ghost self0 = *old(self);
        let n = cells.len();
        let m = groups.len();
        let size = self.calc_fill.len();
        self.result_cell.resize(n, 0u64);
        let mut k: usize = 0;
        while k < n
            invariant
                k <= n,
                n == cells@.len(),
                self.wf(),
                self.table_size() == self0.table_size(),
                self.calc_fill == self0.calc_fill,
                self.reach == self0.reach,
                self.result_cell@.len() == n,
                forall|q: int| 0 <= q < k ==> (#[trigger] self.result_cell@[q]) == 0u64,
            decreases n - k,
        {
            self.result_cell[k] = 0;
            k = k + 1;
        }
        proof {
            assert forall|j: int, c: int| #![trigger color_allowed(self.result_cell@[j], c)]
                0 <= j < n && 0 <= c < 64 implies
                (color_allowed(self.result_cell@[j], c)
                    <==> color_possible_before(groups@, cells@, j, c, 0, 0)) by {
                crate::masks::lemma_zero_bit(c as u64);
                if color_possible_before(groups@, cells@, j, c, 0, 0) {
                    let (g2, i2) = choose|g2: int, i2: int|
                        (i2 < 0 || (i2 == 0 && g2 < 0)) && prefix_reachable(groups@, cells@, g2, i2)
                            && #[trigger] move_places(groups@, cells@, g2, i2, j, c);
                    lemma_reachable_in_range(groups@, cells@, g2, i2);
                }
            }
        }
        let mut i: usize = 0;
        while i < n
            invariant
                i <= n,
                n == cells@.len(),
                m == groups@.len(),
                cells@.len() < usize::MAX,
                self.wf(),
                self.table_size() == self0.table_size(),
                self.table_size() == size,
                self.table_size() > n,
                self.table_size() > m,
                self.calc_fill == self0.calc_fill,
                self.reach == self0.reach,
                self.result_cell@.len() == n,
                forall|g2: int, i2: int| 0 <= g2 <= m && 0 <= i2 <= n
                    ==> (#[trigger] self.calc_fill@[g2]@[i2]) == line_fillable(groups@, cells@, g2, i2),
                forall|g2: int, i2: int| 0 <= g2 <= m && 0 <= i2 <= n
                    ==> (#[trigger] self.reach@[g2]@[i2]) == prefix_reachable(groups@, cells@, g2, i2),
                forall|j: int, c: int| #![trigger color_allowed(self.result_cell@[j], c)]
                    0 <= j < n && 0 <= c < 64
                    ==> (color_allowed(self.result_cell@[j], c)
                        <==> color_possible_before(groups@, cells@, j, c, i as int, 0)),
            decreases n - i,
        {
            let mut g: usize = 0;
            while g <= m
                invariant
                    g <= m + 1,
                    i < n,
                    n == cells@.len(),
                    m == groups@.len(),
                    cells@.len() < usize::MAX,
                    self.wf(),
                    self.table_size() == self0.table_size(),
                    self.table_size() == size,
                    self.table_size() > n,
                    self.table_size() > m,
                    self.calc_fill == self0.calc_fill,
                    self.reach == self0.reach,
                    self.result_cell@.len() == n,
                    forall|g2: int, i2: int| 0 <= g2 <= m && 0 <= i2 <= n
                        ==> (#[trigger] self.calc_fill@[g2]@[i2]) == line_fillable(groups@, cells@, g2, i2),
                    forall|g2: int, i2: int| 0 <= g2 <= m && 0 <= i2 <= n
                        ==> (#[trigger] self.reach@[g2]@[i2]) == prefix_reachable(groups@, cells@, g2, i2),
                    forall|j: int, c: int| #![trigger color_allowed(self.result_cell@[j], c)]
                        0 <= j < n && 0 <= c < 64
                        ==> (color_allowed(self.result_cell@[j], c)
                            <==> color_possible_before(groups@, cells@, j, c, i as int, g as int)),
                decreases m + 1 - g,
            {
                let ghost res0 = self.result_cell@;
                if self.reach[g][i] {
                    self.apply_background_move(groups, cells, g, i);
                    self.apply_group_move(groups, cells, g, i);
                }
                proof {
                    assert forall|j: int, c: int| #![trigger color_allowed(self.result_cell@[j], c)]
                        0 <= j < n && 0 <= c < 64 implies
                        (color_allowed(self.result_cell@[j], c)
                            <==> color_possible_before(groups@, cells@, j, c, i as int, g + 1)) by {
                        if color_allowed(self.result_cell@[j], c) {
                            if color_allowed(res0[j], c) {
                                let (g2, i2) = choose|g2: int, i2: int|
                                    (i2 < i || (i2 == i && g2 < g)) && prefix_reachable(groups@, cells@, g2, i2)
                                        && #[trigger] move_places(groups@, cells@, g2, i2, j, c);
                                assert(color_possible_before(groups@, cells@, j, c, i as int, g + 1));
                            } else {
                                assert(move_places(groups@, cells@, g as int, i as int, j, c));
                                assert(color_possible_before(groups@, cells@, j, c, i as int, g + 1));
                            }
                        }
                        if color_possible_before(groups@, cells@, j, c, i as int, g + 1) {
                            let (g2, i2) = choose|g2: int, i2: int|
                                (i2 < i || (i2 == i && g2 < g + 1)) && prefix_reachable(groups@, cells@, g2, i2)
                                    && #[trigger] move_places(groups@, cells@, g2, i2, j, c);
                            if i2 == i && g2 == g {
                                assert(self.reach@[g as int]@[i as int]);
                                assert(color_allowed(self.result_cell@[j], c));
                            } else {
                                assert(color_possible_before(groups@, cells@, j, c, i as int, g as int));
                                assert(color_allowed(res0[j], c));
                                assert(color_allowed(self.result_cell@[j], c));
                            }
                        }
                    }
                }
                g = g + 1;
            }
            proof {
                assert forall|j: int, c: int| #![trigger color_allowed(self.result_cell@[j], c)]
                    0 <= j < n && 0 <= c < 64 implies
                    (color_possible_before(groups@, cells@, j, c, i as int, m + 1)
                        <==> color_possible_before(groups@, cells@, j, c, i + 1, 0)) by {
                    if color_possible_before(groups@, cells@, j, c, i as int, m + 1) {
                        let (g2, i2) = choose|g2: int, i2: int|
                            (i2 < i || (i2 == i && g2 < m + 1)) && prefix_reachable(groups@, cells@, g2, i2)
                                && #[trigger] move_places(groups@, cells@, g2, i2, j, c);
                        assert(color_possible_before(groups@, cells@, j, c, i + 1, 0));
                    }
                    if color_possible_before(groups@, cells@, j, c, i + 1, 0) {
                        let (g2, i2) = choose|g2: int, i2: int|
                            (i2 < i + 1 || (i2 == i + 1 && g2 < 0)) && prefix_reachable(groups@, cells@, g2, i2)
                                && #[trigger] move_places(groups@, cells@, g2, i2, j, c);
                        lemma_reachable_in_range(groups@, cells@, g2, i2);
                        assert(color_possible_before(groups@, cells@, j, c, i as int, m + 1));
                    }
                }
            }
            i = i + 1;
        }
        proof {
            assert forall|j: int| 0 <= j < n implies
                (#[trigger] self.result_cell@[j]) == result_mask(groups@, cells@, j) by {
                assert forall|c: u64| c < 64 implies
                    ((self.result_cell@[j] & (1u64 << c) != 0)
                        <==> (result_mask(groups@, cells@, j) & (1u64 << c) != 0)) by {
                    lemma_result_mask_bits(groups@, cells@, j, c as int);
                    assert(color_allowed(self.result_cell@[j], c as int)
                        <==> color_possible_before(groups@, cells@, j, c as int, n as int, 0));
                    if color_possible(groups@, cells@, j, c as int) {
                        let (g2, i2) = choose|g2: int, i2: int|
                            prefix_reachable(groups@, cells@, g2, i2)
                                && #[trigger] move_places(groups@, cells@, g2, i2, j, c as int);
                        lemma_move_places_in_range(groups@, cells@, g2, i2, j, c as int);
                        assert(color_possible_before(groups@, cells@, j, c as int, n as int, 0));
                    }
                    if color_possible_before(groups@, cells@, j, c as int, n as int, 0) {
                        let (g2, i2) = choose|g2: int, i2: int|
                            (i2 < n || (i2 == n && g2 < 0)) && prefix_reachable(groups@, cells@, g2, i2)
                                && #[trigger] move_places(groups@, cells@, g2, i2, j, c as int);
                        assert(color_possible(groups@, cells@, j, c as int));
                    }
                }
                crate::masks::lemma_mask_ext(self.result_cell@[j], result_mask(groups@, cells@, j));
            }
        }
    }
}

} // verus!
