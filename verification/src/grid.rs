//! Dense `u64` grids and the mathematical machinery shared by the pyramid,
//! the refinement pass and the suppression step: rectangle sums and
//! first-strictly-greatest scans.
//!
//! A grid is a `Vec<Vec<u64>>` indexed `[x][y]`, `x` over `0..width` (outer)
//! and `y` over `0..height` (inner); every scan in this crate walks `x`
//! outermost and `y` innermost, ascending.

use vstd::prelude::*;

verus! {

/// The columns of a nested vector as a sequence of sequences.
pub open spec fn grid_view(g: Seq<Vec<u64>>) -> Seq<Seq<u64>> {
    Seq::new(g.len(), |i: int| g[i]@)
}

/// `g` is a dense `w x h` grid.
pub open spec fn grid_wf(g: Seq<Seq<u64>>, w: int, h: int) -> bool {
    &&& g.len() == w
    &&& forall|i: int| 0 <= i < w ==> (#[trigger] g[i]).len() == h
}

/// Every cell of `g` is at most `b`.
pub open spec fn grid_bounded(g: Seq<Seq<u64>>, w: int, h: int, b: int) -> bool {
    forall|i: int, j: int| 0 <= i < w && 0 <= j < h ==> #[trigger] g[i][j] <= b
}

/// Sum of column `x` of `g` over rows `y0 <= y < y1`.
pub open spec fn col_sum(g: Seq<Seq<u64>>, x: int, y0: int, y1: int) -> int
    decreases y1 - y0,
{
    if y1 <= y0 {
        0
    } else {
        col_sum(g, x, y0, y1 - 1) + g[x][y1 - 1]
    }
}

/// Sum of the cells of `g` over `x0 <= x < x1`, `y0 <= y < y1`.
pub open spec fn rect_sum(g: Seq<Seq<u64>>, x0: int, x1: int, y0: int, y1: int) -> int
    decreases x1 - x0,
{
    if x1 <= x0 {
        0
    } else {
        rect_sum(g, x0, x1 - 1, y0, y1) + col_sum(g, x1 - 1, y0, y1)
    }
}

pub proof fn lemma_col_sum_bounds(g: Seq<Seq<u64>>, x: int, y0: int, y1: int, b: int)
    requires
        forall|j: int| y0 <= j < y1 ==> 0 <= #[trigger] g[x][j] <= b,
        0 <= b,
    ensures
        0 <= col_sum(g, x, y0, y1) <= b * (if y1 >= y0 { y1 - y0 } else { 0 }),
    decreases y1 - y0,
{
    if y1 > y0 {
        lemma_col_sum_bounds(g, x, y0, y1 - 1, b);
        assert(b * (y1 - y0) == b * (y1 - 1 - y0) + b) by (nonlinear_arith);
    }
}

pub proof fn lemma_rect_sum_bounds(g: Seq<Seq<u64>>, x0: int, x1: int, y0: int, y1: int, b: int)
    requires
        forall|i: int, j: int| x0 <= i < x1 && y0 <= j < y1 ==> 0 <= #[trigger] g[i][j] <= b,
        0 <= b,
        y0 <= y1,
    ensures
        0 <= rect_sum(g, x0, x1, y0, y1) <= b * (if x1 >= x0 { (x1 - x0) * (y1 - y0) } else { 0 }),
    decreases x1 - x0,
{
    if x1 > x0 {
        lemma_rect_sum_bounds(g, x0, x1 - 1, y0, y1, b);
        lemma_col_sum_bounds(g, x1 - 1, y0, y1, b);
        assert(b * ((x1 - x0) * (y1 - y0)) == b * ((x1 - 1 - x0) * (y1 - y0)) + b * (y1 - y0))
            by (nonlinear_arith);
    }
}

/// Two grids that agree on a rectangle have the same sum over it.
pub proof fn lemma_col_sum_congruence(g1: Seq<Seq<u64>>, g2: Seq<Seq<u64>>, x: int, y0: int, y1: int)
    requires
        forall|j: int| y0 <= j < y1 ==> #[trigger] g1[x][j] == g2[x][j],
    ensures
        col_sum(g1, x, y0, y1) == col_sum(g2, x, y0, y1),
    decreases y1 - y0,
{
    if y1 > y0 {
        lemma_col_sum_congruence(g1, g2, x, y0, y1 - 1);
    }
}

pub proof fn lemma_rect_sum_congruence(
    g1: Seq<Seq<u64>>,
    g2: Seq<Seq<u64>>,
    x0: int,
    x1: int,
    y0: int,
    y1: int,
)
    requires
        forall|i: int, j: int| x0 <= i < x1 && y0 <= j < y1 ==> #[trigger] g1[i][j] == g2[i][j],
    ensures
        rect_sum(g1, x0, x1, y0, y1) == rect_sum(g2, x0, x1, y0, y1),
    decreases x1 - x0,
{
    if x1 > x0 {
        lemma_rect_sum_congruence(g1, g2, x0, x1 - 1, y0, y1);
        lemma_col_sum_congruence(g1, g2, x1 - 1, y0, y1);
    }
}

/// One step of the first-strictly-greatest scan: a candidate at `(x, y)`
/// with score `w` replaces the best seen so far only if strictly greater.
/// Ties therefore keep the earliest candidate in scan order.
pub open spec fn upd_best(b: (int, int, int), x: int, y: int, w: int) -> (int, int, int) {
    if w > b.2 {
        (x, y, w)
    } else {
        b
    }
}

/// Fold `upd_best` over one column of candidates `(i, j0..j)`, reported at
/// offset `(ox, oy)`, scored by `vf`.
pub open spec fn fold_best_col(
    b: (int, int, int),
    i: int,
    j0: int,
    j: int,
    ox: int,
    oy: int,
    vf: spec_fn(int, int) -> int,
) -> (int, int, int)
    decreases j - j0,
{
    if j <= j0 {
        b
    } else {
        upd_best(fold_best_col(b, i, j0, j - 1, ox, oy, vf), i + ox, j - 1 + oy, vf(i, j - 1))
    }
}

/// Fold `upd_best` over the rectangle of candidates `(i0..i) x (j0..j1)`,
/// `i` outer and `j` inner, both ascending.
pub open spec fn fold_best(
    b: (int, int, int),
    i0: int,
    i: int,
    j0: int,
    j1: int,
    ox: int,
    oy: int,
    vf: spec_fn(int, int) -> int,
) -> (int, int, int)
    decreases i - i0,
{
    if i <= i0 {
        b
    } else {
        fold_best_col(fold_best(b, i0, i - 1, j0, j1, ox, oy, vf), i - 1, j0, j1, ox, oy, vf)
    }
}

/// What the scan guarantees: the final score dominates the initial one and
/// every scanned candidate, and the final position is either the initial one
/// or a scanned candidate whose score it carries.
pub proof fn lemma_fold_best_col_facts(
    b: (int, int, int),
    i: int,
    j0: int,
    j: int,
    ox: int,
    oy: int,
    vf: spec_fn(int, int) -> int,
)
    ensures
        ({
            let r = fold_best_col(b, i, j0, j, ox, oy, vf);
            &&& r.2 >= b.2
            &&& forall|t: int| j0 <= t < j ==> r.2 >= #[trigger] vf(i, t)
            &&& r == b || exists|t: int|
                j0 <= t < j && r == (i + ox, t + oy, #[trigger] vf(i, t))
        }),
    decreases j - j0,
{
    if j > j0 {
        lemma_fold_best_col_facts(b, i, j0, j - 1, ox, oy, vf);
    }
}

pub proof fn lemma_fold_best_facts(
    b: (int, int, int),
    i0: int,
    i: int,
    j0: int,
    j1: int,
    ox: int,
    oy: int,
    vf: spec_fn(int, int) -> int,
)
    ensures
        ({
            let r = fold_best(b, i0, i, j0, j1, ox, oy, vf);
            &&& r.2 >= b.2
            &&& forall|s: int, t: int| i0 <= s < i && j0 <= t < j1 ==> r.2 >= #[trigger] vf(s, t)
            &&& r == b || exists|s: int, t: int|
                i0 <= s < i && j0 <= t < j1 && r == (s + ox, t + oy, #[trigger] vf(s, t))
        }),
    decreases i - i0,
{
    if i > i0 {
        lemma_fold_best_facts(b, i0, i - 1, j0, j1, ox, oy, vf);
        lemma_fold_best_col_facts(
            fold_best(b, i0, i - 1, j0, j1, ox, oy, vf),
            i - 1,
            j0,
            j1,
            ox,
            oy,
            vf,
        );
        let r = fold_best(b, i0, i, j0, j1, ox, oy, vf);
        let p = fold_best(b, i0, i - 1, j0, j1, ox, oy, vf);
        assert forall|s: int, t: int| i0 <= s < i && j0 <= t < j1 implies r.2 >= #[trigger] vf(
            s,
            t,
        ) by {
            if s < i - 1 {
                assert(p.2 >= vf(s, t));
            }
        }
    }
}

} // verus!
