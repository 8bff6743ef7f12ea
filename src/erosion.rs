//! Erosion of a grid: rolls with few neighbouring rolls are removed, one
//! pass at a time, until a pass removes nothing.
use crate::grid::{is_rectangle, tiles_of_text, well_formed_text, Grid, GridError};
use vstd::prelude::*;

verus! {

/// A roll with fewer neighbouring rolls than this is accessible.
pub const ACCESS_THRESHOLD: usize = 4;

/// One for `true`, zero for `false`.
pub open spec fn b2n(b: bool) -> nat {
    if b {
        1
    } else {
        0
    }
}

/// Tile `(x, y)` lies inside `g` and holds a roll; tiles outside count as empty.
pub open spec fn roll_at(g: Seq<Seq<bool>>, x: int, y: int) -> bool {
    0 <= y < g.len() && 0 <= x < g[y].len() && g[y][x]
}

/// Rolls among the three tiles of row `y` at columns `x - 1`, `x` and `x + 1`.
pub open spec fn rolls_in_triple(g: Seq<Seq<bool>>, x: int, y: int) -> nat {
    b2n(roll_at(g, x - 1, y)) + b2n(roll_at(g, x, y)) + b2n(roll_at(g, x + 1, y))
}

/// Rolls among the eight tiles around `(x, y)`, the tile itself excluded.
pub open spec fn neighbor_rolls(g: Seq<Seq<bool>>, x: int, y: int) -> nat {
    rolls_in_triple(g, x, y - 1) + b2n(roll_at(g, x - 1, y)) + b2n(roll_at(g, x + 1, y))
        + rolls_in_triple(g, x, y + 1)
}

/// Rolls in row `y` of `g` at the columns from `lo` up to, not including, `hi`.
pub open spec fn rolls_in_span(g: Seq<Seq<bool>>, y: int, lo: int, hi: int) -> nat
    decreases hi - lo,
{
    if hi <= lo {
        0
    } else {
        rolls_in_span(g, y, lo, hi - 1) + b2n(roll_at(g, hi - 1, y))
    }
}

/// Sum of `rolls_in_triple(g, x, y)` over the rows `y` from `lo` up to, not
/// including, `hi`.
pub open spec fn rolls_in_block(g: Seq<Seq<bool>>, x: int, lo: int, hi: int) -> nat
    decreases hi - lo,
{
    if hi <= lo {
        0
    } else {
        rolls_in_block(g, x, lo, hi - 1) + rolls_in_triple(g, x, hi - 1)
    }
}

proof fn lemma_span_bound(g: Seq<Seq<bool>>, y: int, lo: int, hi: int)
    ensures
        lo <= hi ==> rolls_in_span(g, y, lo, hi) <= hi - lo,
    decreases hi - lo,
{
    if hi > lo {
        lemma_span_bound(g, y, lo, hi - 1);
    }
}

/// Clipping columns to the grid loses no roll of a row.
proof fn lemma_span_is_triple(g: Seq<Seq<bool>>, w: nat, x: int, y: int, lo: int, hi: int)
    requires
        0 <= y < g.len() ==> g[y].len() == w,
        0 <= x < w,
        lo == if x == 0 { 0 } else { x - 1 },
        hi == if x + 1 == w { x + 1 } else { x + 2 },
    ensures
        rolls_in_span(g, y, lo, hi) == rolls_in_triple(g, x, y),
{
    reveal_with_fuel(rolls_in_span, 4);
}

/// Clipping rows to the grid loses no roll of the block.
proof fn lemma_block_is_column(g: Seq<Seq<bool>>, h: nat, x: int, y: int, lo: int, hi: int)
    requires
        g.len() == h,
        0 <= y < h,
        lo == if y == 0 { 0 } else { y - 1 },
        hi == if y + 1 == h { y + 1 } else { y + 2 },
    ensures
        rolls_in_block(g, x, lo, hi) == rolls_in_triple(g, x, y - 1) + rolls_in_triple(g, x, y)
            + rolls_in_triple(g, x, y + 1),
{
    reveal_with_fuel(rolls_in_block, 4);
}

/// The roll at `(x, y)` has fewer neighbouring rolls than the threshold.
pub open spec fn accessible(g: Seq<Seq<bool>>, x: int, y: int) -> bool {
    g[y][x] && neighbor_rolls(g, x, y) < ACCESS_THRESHOLD
}

/// The accessible rolls of `g`, as a grid of the same shape.
pub open spec fn accessible_mask(g: Seq<Seq<bool>>) -> Seq<Seq<bool>> {
    Seq::new(g.len(), |y: int| Seq::new(g[y].len(), |x: int| accessible(g, x, y)))
}

/// `g` once all its accessible rolls, judged on `g` itself, are removed.
pub open spec fn after_pass(g: Seq<Seq<bool>>) -> Seq<Seq<bool>> {
    Seq::new(g.len(), |y: int| Seq::new(g[y].len(), |x: int| g[y][x] && !accessible(g, x, y)))
}

/// Number of `true` entries of `r`.
pub open spec fn true_count(r: Seq<bool>) -> nat
    decreases r.len(),
{
    if r.len() == 0 {
        0
    } else {
        true_count(r.drop_last()) + b2n(r.last())
    }
}

/// Number of rolls in `g`.
pub open spec fn count_rolls(g: Seq<Seq<bool>>) -> nat
    decreases g.len(),
{
    if g.len() == 0 {
        0
    } else {
        count_rolls(g.drop_last()) + true_count(g.last())
    }
}

/// Number of accessible rolls in `g`.
pub open spec fn accessible_count(g: Seq<Seq<bool>>) -> nat {
    count_rolls(accessible_mask(g))
}

/// The tiles of `g` that hold a roll.
pub open spec fn roll_cells(g: Seq<Seq<bool>>) -> Set<(int, int)> {
    Set::new(|p: (int, int)| roll_at(g, p.0, p.1))
}

proof fn lemma_true_count_push(r: Seq<bool>, b: bool)
    ensures
        true_count(r.push(b)) == true_count(r) + b2n(b),
        true_count(r) <= r.len(),
    decreases r.len(),
{
    assert(r.push(b).drop_last() =~= r);
    if r.len() > 0 {
        lemma_true_count_push(r.drop_last(), r.last());
        assert(r.drop_last().push(r.last()) =~= r);
    }
}

proof fn lemma_count_rolls_push(g: Seq<Seq<bool>>, row: Seq<bool>)
    ensures
        count_rolls(g.push(row)) == count_rolls(g) + true_count(row),
{
    assert(g.push(row).drop_last() =~= g);
}

/// The rolls of `g` that `m` does not mark.
pub open spec fn unmarked(g: Seq<Seq<bool>>, m: Seq<Seq<bool>>) -> Seq<Seq<bool>> {
    Seq::new(g.len(), |y: int| Seq::new(g[y].len(), |x: int| g[y][x] && !m[y][x]))
}

/// `m` has the shape of `g` and marks only tiles that hold a roll.
pub open spec fn marks_rolls(g: Seq<Seq<bool>>, m: Seq<Seq<bool>>) -> bool {
    &&& m.len() == g.len()
    &&& forall|y: int| 0 <= y < g.len() ==> #[trigger] m[y].len() == g[y].len()
    &&& forall|y: int, x: int| 0 <= y < g.len() && 0 <= x < g[y].len() && m[y][x] ==> g[y][x]
}

proof fn lemma_true_count_split(a: Seq<bool>, m: Seq<bool>)
    requires
        m.len() == a.len(),
        forall|i: int| 0 <= i < a.len() && m[i] ==> a[i],
    ensures
        true_count(a) == true_count(Seq::new(a.len(), |i: int| a[i] && !m[i])) + true_count(m),
    decreases a.len(),
{
    let rest = Seq::new(a.len(), |i: int| a[i] && !m[i]);
    if a.len() > 0 {
        let (a1, m1) = (a.drop_last(), m.drop_last());
        lemma_true_count_split(a1, m1);
        assert(rest.drop_last() =~= Seq::new(a1.len(), |i: int| a1[i] && !m1[i]));
    }
}

proof fn lemma_true_count_zero(m: Seq<bool>, i: int)
    requires
        true_count(m) == 0,
        0 <= i < m.len(),
    ensures
        !m[i],
    decreases m.len(),
{
    if i < m.len() - 1 {
        lemma_true_count_zero(m.drop_last(), i);
    }
}

/// Removing the marked rolls leaves the unmarked ones: the counts add up.
proof fn lemma_count_rolls_split(g: Seq<Seq<bool>>, m: Seq<Seq<bool>>)
    requires
        marks_rolls(g, m),
    ensures
        count_rolls(g) == count_rolls(unmarked(g, m)) + count_rolls(m),
    decreases g.len(),
{
    if g.len() > 0 {
        let (g1, m1) = (g.drop_last(), m.drop_last());
        lemma_count_rolls_split(g1, m1);
        assert(unmarked(g, m).drop_last() =~= unmarked(g1, m1));
        lemma_true_count_split(g.last(), m.last());
        assert(unmarked(g, m).last() =~= Seq::new(
            g.last().len(),
            |i: int| g.last()[i] && !m.last()[i],
        ));
    }
}

proof fn lemma_count_rolls_zero(m: Seq<Seq<bool>>, y: int, x: int)
    requires
        count_rolls(m) == 0,
        0 <= y < m.len(),
        0 <= x < m[y].len(),
    ensures
        !m[y][x],
    decreases m.len(),
{
    if y < m.len() - 1 {
        lemma_count_rolls_zero(m.drop_last(), y, x);
    } else {
        lemma_true_count_zero(m.last(), x);
    }
}

proof fn lemma_count_rolls_bound(g: Seq<Seq<bool>>, w: nat)
    requires
        forall|y: int| 0 <= y < g.len() ==> #[trigger] g[y].len() == w,
    ensures
        count_rolls(g) <= g.len() * w,
    decreases g.len(),
{
    if g.len() > 0 {
        lemma_count_rolls_bound(g.drop_last(), w);
        lemma_true_count_push(g.last(), false);
        let k = g.len() as int;
        assert((k - 1) * w + w == k * w) by (nonlinear_arith);
    }
}

/// A pass removes exactly the accessible rolls: what was there is what is
/// left plus what was removed.
pub proof fn lemma_pass_count(g: Seq<Seq<bool>>)
    ensures
        count_rolls(g) == count_rolls(after_pass(g)) + accessible_count(g),
        accessible_count(g) == 0 ==> after_pass(g) == g,
{
    let m = accessible_mask(g);
    lemma_count_rolls_split(g, m);
    assert forall|y: int| 0 <= y < g.len() implies #[trigger] unmarked(g, m)[y] =~= after_pass(
        g,
    )[y] by {}
    assert(unmarked(g, m) =~= after_pass(g));
    if accessible_count(g) == 0 {
        assert forall|y: int| 0 <= y < g.len() implies #[trigger] after_pass(g)[y] =~= g[y] by {
            assert forall|x: int| 0 <= x < g[y].len() implies !m[y][x] by {
                lemma_count_rolls_zero(m, y, x);
            }
        }
        assert(after_pass(g) =~= g);
    }
}

#[via_fn]
proof fn lemma_stable_decreases(g: Seq<Seq<bool>>) {
    lemma_pass_count(g);
}

/// `g` once passes have been made until one removes nothing.
pub open spec fn stable_grid(g: Seq<Seq<bool>>) -> Seq<Seq<bool>>
    decreases count_rolls(g),
    via lemma_stable_decreases
{
    if accessible_count(g) == 0 {
        g
    } else {
        stable_grid(after_pass(g))
    }
}

/// Sum of the rolls that each pass removes, until one removes nothing.
pub open spec fn removed_until_stable(g: Seq<Seq<bool>>) -> nat
    decreases count_rolls(g),
    via lemma_removed_decreases
{
    if accessible_count(g) == 0 {
        0
    } else {
        accessible_count(g) + removed_until_stable(after_pass(g))
    }
}

#[via_fn]
proof fn lemma_removed_decreases(g: Seq<Seq<bool>>) {
    lemma_pass_count(g);
}

/// Once passes have been made until one removes nothing, a further pass
/// removes nothing and leaves the grid as it is.
pub proof fn lemma_stable_grid_is_stable(g: Seq<Seq<bool>>)
    ensures
        accessible_count(stable_grid(g)) == 0,
        after_pass(stable_grid(g)) == stable_grid(g),
    decreases count_rolls(g),
{
    lemma_pass_count(g);
    if accessible_count(g) != 0 {
        lemma_stable_grid_is_stable(after_pass(g));
    }
}

/// The rolls removed pass after pass, until one removes nothing, are the
/// rolls there were at first less the rolls left at the end.
pub proof fn lemma_removed_until_stable(g: Seq<Seq<bool>>)
    ensures
        count_rolls(stable_grid(g)) <= count_rolls(g),
        removed_until_stable(g) == count_rolls(g) - count_rolls(stable_grid(g)),
    decreases count_rolls(g),
{
    lemma_pass_count(g);
    if accessible_count(g) != 0 {
        lemma_removed_until_stable(after_pass(g));
    }
}

/// A pass only removes rolls: every roll after it was there before it.
pub proof fn lemma_pass_only_removes(g: Seq<Seq<bool>>)
    ensures
        roll_cells(after_pass(g)).subset_of(roll_cells(g)),
{
}

/// Every tile of `g` holds a roll.
pub open spec fn all_rolls(g: Seq<Seq<bool>>) -> bool {
    forall|y: int, x: int| 0 <= y < g.len() && 0 <= x < g[y].len() ==> #[trigger] g[y][x]
}

/// An interior roll has at most eight neighbouring rolls, eight when every
/// tile holds one, and whether its own tile holds a roll does not change the
/// count.
pub proof fn lemma_interior_neighbors(g: Seq<Seq<bool>>, w: nat, h: nat, x: int, y: int, b: bool)
    requires
        is_rectangle(g, w, h),
        0 < x < w - 1,
        0 < y < h - 1,
        g[y][x],
    ensures
        neighbor_rolls(g, x, y) <= 8,
        all_rolls(g) ==> neighbor_rolls(g, x, y) == 8,
        neighbor_rolls(g.update(y, g[y].update(x, b)), x, y) == neighbor_rolls(g, x, y),
{
}

/// A roll in a corner has at most three neighbouring rolls; one on another
/// border tile has at most five. When every tile holds a roll and the grid is
/// at least two tiles wide and high, these counts are reached.
pub proof fn lemma_border_neighbors(g: Seq<Seq<bool>>, w: nat, h: nat, x: int, y: int)
    requires
        is_rectangle(g, w, h),
        0 <= x < w,
        0 <= y < h,
        g[y][x],
    ensures
        (x == 0 || x == w - 1) && (y == 0 || y == h - 1) ==> neighbor_rolls(g, x, y) <= 3,
        x == 0 || x == w - 1 || y == 0 || y == h - 1 ==> neighbor_rolls(g, x, y) <= 5,
        all_rolls(g) && w >= 2 && h >= 2 && (x == 0 || x == w - 1) && (y == 0 || y == h - 1)
            ==> neighbor_rolls(g, x, y) == 3,
        all_rolls(g) && w >= 2 && h >= 2 && (x == 0 || x == w - 1 || y == 0 || y == h - 1) && !(
        (x == 0 || x == w - 1) && (y == 0 || y == h - 1)) ==> neighbor_rolls(g, x, y) == 5,
{
}

/// Returns the number of rolls adjacent to the roll at `(x_roll, y_roll)`.
pub fn nb_neighboring_rolls(grid: &Grid, x_roll: usize, y_roll: usize) -> (r: usize)
    requires
        grid.wf(),
        x_roll < grid.spec_width(),
        y_roll < grid.spec_height(),
        grid@[y_roll as int][x_roll as int],
    ensures
        r == neighbor_rolls(grid@, x_roll as int, y_roll as int),
        r <= 8,
{
    let ghost g = grid@;
    let width = grid.width();
    let height = grid.height();
    let x_lo: usize = if x_roll == 0 { 0 } else { x_roll - 1 };
    let x_hi: usize = if x_roll + 1 == width { x_roll } else { x_roll + 1 };
    let y_lo: usize = if y_roll == 0 { 0 } else { y_roll - 1 };
    let y_hi: usize = if y_roll + 1 == height { y_roll } else { y_roll + 1 };
    let mut nb_rolls: usize = 0;
    let mut y: usize = y_lo;
    while y <= y_hi
        invariant
            g == grid@,
            grid.wf(),
            width == grid.spec_width(),
            height == grid.spec_height(),
            x_roll < width,
            y_lo <= y <= y_hi + 1,
            y_hi < height,
            y_hi <= y_lo + 2,
            x_lo <= x_hi < width,
            x_hi <= x_lo + 2,
            x_lo == if x_roll == 0 { 0 } else { x_roll - 1 },
            x_hi == if x_roll + 1 == width { x_roll as int } else { x_roll + 1 },
            nb_rolls == rolls_in_block(g, x_roll as int, y_lo as int, y as int),
            nb_rolls <= 3 * (y - y_lo),
        decreases y_hi + 1 - y,
    {
        let mut x: usize = x_lo;
        let ghost before = nb_rolls as int;
        while x <= x_hi
            invariant
                g == grid@,
                grid.wf(),
                width == grid.spec_width(),
                height == grid.spec_height(),
                y_lo <= y <= y_hi,
                y_hi < height,
                y_hi <= y_lo + 2,
                x_lo <= x <= x_hi + 1,
                x_hi < width,
                x_hi <= x_lo + 2,
                before <= 3 * (y - y_lo),
                nb_rolls == before + rolls_in_span(g, y as int, x_lo as int, x as int),
            decreases x_hi + 1 - x,
        {
            proof {
                lemma_span_bound(g, y as int, x_lo as int, x as int);
            }
            if grid.is_roll_at(x, y) {
                nb_rolls = nb_rolls + 1;
            }
            x = x + 1;
        }
        proof {
            lemma_span_is_triple(g, width as nat, x_roll as int, y as int, x_lo as int, x as int);
        }
        y = y + 1;
    }
    proof {
        lemma_block_is_column(g, height as nat, x_roll as int, y_roll as int, y_lo as int, y as int);
    }
    // The roll itself was counted too.
    nb_rolls - 1
}

/// Removes from `grid` all accessible rolls, judging every roll on the grid
/// as it was before the pass. Returns the number of removed rolls.
pub fn remove_accessible_rolls(grid: &mut Grid) -> (r: usize)
    requires
        old(grid).wf(),
    ensures
        final(grid).wf(),
        final(grid).spec_width() == old(grid).spec_width(),
        final(grid).spec_height() == old(grid).spec_height(),
        final(grid)@ == after_pass(old(grid)@),
        r == accessible_count(old(grid)@),
{
    let ghost g = grid@;
    let width = grid.width();
    let height = grid.height();
    // Decide every removal before making any.
    let mut marks: Vec<Vec<bool>> = Vec::new();
    let ghost mut decided: Seq<Seq<bool>> = Seq::empty();
    let mut sum: usize = 0;
    let mut y: usize = 0;
    while y < height
        invariant
            g == grid@,
            grid.wf(),
            width == grid.spec_width(),
            height == grid.spec_height(),
            y <= height,
            marks@.len() == y,
            decided.len() == y,
            forall|yy: int| 0 <= yy < y ==> #[trigger] marks@[yy]@ == decided[yy],
            forall|yy: int| 0 <= yy < y ==> #[trigger] decided[yy] == accessible_mask(g)[yy],
            sum == count_rolls(decided),
            sum <= y * width,
        decreases height - y,
    {
        let mut row: Vec<bool> = Vec::new();
        let mut row_sum: usize = 0;
        let mut x: usize = 0;
        while x < width
            invariant
                g == grid@,
                grid.wf(),
                width == grid.spec_width(),
                height == grid.spec_height(),
                y < height,
                x <= width,
                row@.len() == x,
                forall|xx: int| 0 <= xx < x ==> #[trigger] row@[xx] == accessible(g, xx, y as int),
                row_sum == true_count(row@),
                row_sum <= x,
            decreases width - x,
        {
            let acc = grid.is_roll_at(x, y) && nb_neighboring_rolls(grid, x, y) < ACCESS_THRESHOLD;
            proof {
                lemma_true_count_push(row@, acc);
            }
            row.push(acc);
            if acc {
                row_sum = row_sum + 1;
            }
            x = x + 1;
        }
        proof {
            assert(sum + row_sum <= (y + 1) * width <= height * width) by (nonlinear_arith)
                requires
                    sum <= y * width,
                    row_sum <= width,
                    y < height,
            ;
            lemma_count_rolls_push(decided, row@);
            assert(row@ =~= accessible_mask(g)[y as int]);
            decided = decided.push(row@);
        }
        marks.push(row);
        sum = sum + row_sum;
        y = y + 1;
    }
    assert(decided =~= accessible_mask(g));
    // Then make them.
    let mut y: usize = 0;
    while y < height
        invariant
            grid.wf(),
            width == grid.spec_width(),
            height == grid.spec_height(),
            is_rectangle(g, width as nat, height as nat),
            y <= height,
            marks@.len() == height,
            forall|yy: int| 0 <= yy < height ==> #[trigger] marks@[yy]@ == accessible_mask(g)[yy],
            forall|yy: int, xx: int|
                0 <= yy < height && 0 <= xx < width ==> #[trigger] grid@[yy][xx] == if yy < y {
                    after_pass(g)[yy][xx]
                } else {
                    g[yy][xx]
                },
        decreases height - y,
    {
        let mut x: usize = 0;
        while x < width
            invariant
                grid.wf(),
                width == grid.spec_width(),
                height == grid.spec_height(),
                is_rectangle(g, width as nat, height as nat),
                y < height,
                x <= width,
                marks@.len() == height,
                forall|yy: int|
                    0 <= yy < height ==> #[trigger] marks@[yy]@ == accessible_mask(g)[yy],
                forall|yy: int, xx: int|
                    0 <= yy < height && 0 <= xx < width ==> #[trigger] grid@[yy][xx] == if yy < y
                        || (yy == y && xx < x) {
                        after_pass(g)[yy][xx]
                    } else {
                        g[yy][xx]
                    },
            decreases width - x,
        {
            assert(marks@[y as int]@ == accessible_mask(g)[y as int]);
            if marks[y][x] {
                grid.remove_roll_at(x, y);
            }
            x = x + 1;
        }
        y = y + 1;
    }
    assert forall|yy: int| 0 <= yy < height implies #[trigger] grid@[yy] =~= after_pass(g)[yy] by {
        assert forall|xx: int| 0 <= xx < width implies grid@[yy][xx] == after_pass(g)[yy][xx] by {
            assert(grid@[yy][xx] == after_pass(g)[yy][xx]);
        }
    }
    assert(grid@ =~= after_pass(g));
    sum
}

/// Removes accessible rolls from `grid`, pass after pass, until a pass
/// removes nothing. Returns the number of removed rolls.
pub fn remove_all_accessible_rolls(grid: &mut Grid) -> (r: usize)
    requires
        old(grid).wf(),
    ensures
        final(grid).wf(),
        final(grid).spec_width() == old(grid).spec_width(),
        final(grid).spec_height() == old(grid).spec_height(),
        final(grid)@ == stable_grid(old(grid)@),
        accessible_count(final(grid)@) == 0,
        r == removed_until_stable(old(grid)@),
        r == count_rolls(old(grid)@) - count_rolls(final(grid)@),
{
    let ghost g0 = grid@;
    let ghost width = grid.spec_width();
    let ghost height = grid.spec_height();
    proof {
        lemma_count_rolls_bound(g0, width);
    }
    let mut nb_removed_rolls: usize = 0;
    loop
        invariant
            grid.wf(),
            grid.spec_width() == width,
            grid.spec_height() == height,
            g0.len() * width <= usize::MAX,
            stable_grid(grid@) == stable_grid(g0),
            nb_removed_rolls + removed_until_stable(grid@) == removed_until_stable(g0),
            nb_removed_rolls + count_rolls(grid@) == count_rolls(g0),
            count_rolls(g0) <= g0.len() * width,
        ensures
            grid.wf(),
            grid.spec_width() == width,
            grid.spec_height() == height,
            grid@ == stable_grid(g0),
            accessible_count(grid@) == 0,
            nb_removed_rolls == removed_until_stable(g0),
            nb_removed_rolls + count_rolls(grid@) == count_rolls(g0),
        decreases count_rolls(grid@),
    {
        let ghost before = grid@;
        proof {
            lemma_pass_count(before);
        }
        let n = remove_accessible_rolls(grid);
        if n == 0 {
            break;
        }
        nb_removed_rolls = nb_removed_rolls + n;
    }
    nb_removed_rolls
}

/// Reads a grid from its text and removes its accessible rolls until none is
/// left. Returns the number of removed rolls.
pub fn solve_for(input: &[u8]) -> (r: Result<usize, GridError>)
    ensures
        r is Ok <==> well_formed_text(input@),
        r matches Ok(n) ==> n == removed_until_stable(tiles_of_text(input@)),
{
    let mut grid = Grid::load(input)?;
    Ok(remove_all_accessible_rolls(&mut grid))
}

} // verus!
