//! The aggregate pyramid: a chain of progressively coarser grids, each cell
//! of a coarser level holding the exact sum of a `5 x 5` block of the next
//! finer level (clamped at the edges).  Level `0` is the difference map
//! itself.  The pyramid supports a coarse-to-fine maximum query
//! (`fetch_top_point`) and an incremental partial rebuild
//! (`invalid_rectangle`).

use vstd::prelude::*;
use crate::grid::{
    grid_view, grid_wf, grid_bounded, rect_sum, col_sum, upd_best, fold_best, fold_best_col,
    lemma_rect_sum_bounds, lemma_rect_sum_congruence, lemma_col_sum_bounds,
    lemma_fold_best_facts,
};

verus! {

/// The fixed downsample factor of the pyramid.
pub const BLOCK: usize = 5;

/// One pyramid level: a dense `width x height` grid of aggregate values.
pub struct Level {
    pub data: Vec<Vec<u64>>,
    pub width: usize,
    pub height: usize,
}

impl Level {
    pub open spec fn grid(&self) -> Seq<Seq<u64>> {
        grid_view(self.data@)
    }

    pub open spec fn wf(&self) -> bool {
        grid_wf(self.grid(), self.width as int, self.height as int)
    }

    pub fn get_cell(&self, x: usize, y: usize) -> (v: u64)
        requires
            self.wf(),
            x < self.width,
            y < self.height,
        ensures
            v == self.grid()[x as int][y as int],
    {
        proof {
            assert(self.data@[x as int]@ == self.grid()[x as int]);
        }
        self.data[x][y]
    }

    pub fn set_cell(&mut self, x: usize, y: usize, v: u64)
        requires
            old(self).wf(),
            x < old(self).width,
            y < old(self).height,
        ensures
            final(self).wf(),
            final(self).width == old(self).width,
            final(self).height == old(self).height,
            final(self).grid() == old(self).grid().update(
                x as int,
                old(self).grid()[x as int].update(y as int, v),
            ),
    {
        proof {
            assert(self.data@[x as int]@ == self.grid()[x as int]);
        }
        self.data[x][y] = v;
        proof {
            assert(self.grid() =~= old(self).grid().update(
                x as int,
                old(self).grid()[x as int].update(y as int, v),
            ));
        }
    }
}

/// A transient `(x, y, weight)` triple used while scanning for a maximum.
#[derive(Clone, Copy, Debug)]
pub struct XY {
    pub x: usize,
    pub y: usize,
    pub weight: u64,
}

impl XY {
    /// The triple as mathematical integers.
    pub open spec fn t(&self) -> (int, int, int) {
        (self.x as int, self.y as int, self.weight as int)
    }

    pub fn new() -> (r: XY)
        ensures
            r.t() == (0int, 0int, 0int),
    {
        XY { x: 0, y: 0, weight: 0 }
    }

    /// Keep the strictly heavier candidate; ties keep the incumbent.
    pub fn update(&mut self, x: usize, y: usize, weight: u64)
        ensures
            final(self).t() == upd_best(old(self).t(), x as int, y as int, weight as int),
    {
        if weight > self.weight {
            self.x = x;
            self.y = y;
            self.weight = weight;
        }
    }
}

/// Dimension of the next coarser level: `ceil(w / 5)`.
pub open spec fn next_dim(w: int) -> int {
    (w + 4) / 5
}

/// Width (or height) of level `k` of a pyramid whose base is `w` wide.
pub open spec fn level_dim(w: int, k: nat) -> int
    decreases k,
{
    if k == 0 {
        w
    } else {
        next_dim(level_dim(w, (k - 1) as nat))
    }
}

/// Number of levels built over a `w x h` base: coarsening stops at the first
/// level whose width or height falls below the block factor.
pub open spec fn num_levels(w: int, h: int) -> int
    decreases w,
{
    if w < 5 || h < 5 || w < 1 || h < 1 {
        1
    } else {
        1 + num_levels(next_dim(w), next_dim(h))
    }
}

pub open spec fn pow5(k: nat) -> int
    decreases k,
{
    if k == 0 {
        1
    } else {
        5 * pow5((k - 1) as nat)
    }
}

/// Largest value a level-`k` cell can hold: the base is bounded by the
/// largest per-pixel difference, `765`, and each coarser cell sums at most
/// `25` finer ones.
pub open spec fn lvl_cap(k: nat) -> int
    decreases k,
{
    if k == 0 {
        765
    } else {
        25 * lvl_cap((k - 1) as nat)
    }
}

pub open spec fn min_i(a: int, b: int) -> int {
    if a <= b {
        a
    } else {
        b
    }
}

/// The exact sum, in level `g` of dimensions `w x h`, of the block of cell
/// `(i, j)` of the next coarser level.
pub open spec fn block_sum(g: Seq<Seq<u64>>, w: int, h: int, i: int, j: int) -> int {
    rect_sum(g, 5 * i, min_i(5 * i + 5, w), 5 * j, min_i(5 * j + 5, h))
}

/// The grid one level coarser than `g`: every cell the sum of its block.
pub open spec fn agg_grid(g: Seq<Seq<u64>>, w: int, h: int) -> Seq<Seq<u64>> {
    Seq::new(
        next_dim(w) as nat,
        |i: int| Seq::new(next_dim(h) as nat, |j: int| block_sum(g, w, h, i, j) as u64),
    )
}

/// The fully consistent pyramid over a base grid: the unique level sequence
/// in which every coarser cell is the exact sum of its block.
pub open spec fn pyramid_of(base: Seq<Seq<u64>>, w: int, h: int) -> Seq<Seq<Seq<u64>>>
    decreases w,
{
    if w < 5 || h < 5 || w < 1 || h < 1 {
        seq![base]
    } else {
        seq![base] + pyramid_of(agg_grid(base, w, h), next_dim(w), next_dim(h))
    }
}

/// A base-level coordinate seen from level `k`: `k`-fold floor division by 5.
pub open spec fn shrink(x: int, k: nat) -> int
    decreases k,
{
    if k == 0 {
        x
    } else {
        shrink(x, (k - 1) as nat) / 5
    }
}

/// Does level-`k` cell `(i, j)` lie in the image of the base rectangle
/// `[x0, x1] x [y0, y1]`?
pub open spec fn in_srect(x0: int, x1: int, y0: int, y1: int, k: nat, i: int, j: int) -> bool {
    &&& shrink(x0, k) <= i <= shrink(x1, k)
    &&& shrink(y0, k) <= j <= shrink(y1, k)
}

/// The lazily maintained aggregate pyramid.  `levels[0]` is the difference
/// map; `levels[k + 1]` is the next coarser aggregate of `levels[k]`.
pub struct AggregateMountain {
    pub levels: Vec<Level>,
}

impl AggregateMountain {
    /// The whole pyramid as a sequence of mathematical grids.
    pub open spec fn view(&self) -> Seq<Seq<Seq<u64>>> {
        Seq::new(self.levels@.len(), |k: int| self.levels@[k].grid())
    }

    pub open spec fn lw(&self, k: int) -> int {
        self.levels@[k].width as int
    }

    pub open spec fn lh(&self, k: int) -> int {
        self.levels@[k].height as int
    }

    pub open spec fn num(&self) -> int {
        self.levels@.len() as int
    }

    /// Shape invariant: dimensions chain by ceiling division, every grid is
    /// dense, only the last level is degenerate, the base is at most
    /// `65536 x 65536`, and every cell respects its level's cap.
    pub open spec fn wf(&self) -> bool {
        &&& 1 <= self.num() <= 8
        &&& 1 <= self.lw(0) <= 65536
        &&& 1 <= self.lh(0) <= 65536
        &&& forall|k: int|
            0 <= k < self.num() ==> grid_wf(#[trigger] self@[k], self.lw(k), self.lh(k))
        &&& forall|k: int| 0 <= k < self.num() ==> 1 <= #[trigger] self.lw(k) <= 65536
        &&& forall|k: int| 0 <= k < self.num() ==> 1 <= #[trigger] self.lh(k) <= 65536
        &&& forall|k: int|
            1 <= k < self.num() ==> #[trigger] self.lw(k) == next_dim(self.lw(k - 1))
                && self.lw(k - 1) >= 5
        &&& forall|k: int|
            1 <= k < self.num() ==> #[trigger] self.lh(k) == next_dim(self.lh(k - 1))
                && self.lh(k - 1) >= 5
        &&& self.lw(self.num() - 1) < 5 || self.lh(self.num() - 1) < 5
        &&& self.num() == num_levels(self.lw(0), self.lh(0))
        &&& forall|k: int|
            0 <= k < self.num() ==> grid_bounded(
                #[trigger] self@[k],
                self.lw(k),
                self.lh(k),
                lvl_cap(k as nat),
            )
    }

    /// Aggregate invariant: every non-base cell equals the exact sum of its
    /// block in the next finer level.
    pub open spec fn agg_ok(&self) -> bool {
        forall|k: int, i: int, j: int|
            1 <= k < self.num() && 0 <= i < self.lw(k) && 0 <= j < self.lh(k)
                ==> #[trigger] self@[k][i][j] == block_sum(
                self@[k - 1],
                self.lw(k - 1),
                self.lh(k - 1),
                i,
                j,
            )
    }

    /// A fresh single-level pyramid over the given difference data.
    pub fn new(diff_data: Vec<Vec<u64>>, width: usize, height: usize) -> (m: AggregateMountain)
        ensures
            m.num() == 1,
            m@[0] == grid_view(diff_data@),
            m.lw(0) == width,
            m.lh(0) == height,
    {
        let mut levels: Vec<Level> = Vec::new();
        levels.push(Level { data: diff_data, width, height });
        AggregateMountain { levels }
    }

    /// Number of levels of the pyramid.
    pub fn level_count(&self) -> (n: usize)
        ensures
            n == self.num(),
    {
        self.levels.len()
    }

    pub fn level_width(&self, k: usize) -> (w: usize)
        requires
            k < self.num(),
        ensures
            w == self.lw(k as int),
    {
        self.levels[k].width
    }

    pub fn level_height(&self, k: usize) -> (h: usize)
        requires
            k < self.num(),
        ensures
            h == self.lh(k as int),
    {
        self.levels[k].height
    }

    /// Read one cell of one level.
    pub fn cell(&self, k: usize, x: usize, y: usize) -> (v: u64)
        requires
            self.wf(),
            k < self.num(),
            x < self.lw(k as int),
            y < self.lh(k as int),
        ensures
            v == self@[k as int][x as int][y as int],
    {
        proof {
            assert(self@[k as int] == self.levels@[k as int].grid());
        }
        self.levels[k].get_cell(x, y)
    }

    /// Sum the level-`k` block that feeds cell `(i, j)` of level `k + 1`.
    #[verifier::loop_isolation(false)]
    fn sum_block(&self, k: usize, i: usize, j: usize) -> (v: u64)
        requires
            k < self.num(),
            k <= 6,
            grid_wf(self@[k as int], self.lw(k as int), self.lh(k as int)),
            grid_bounded(self@[k as int], self.lw(k as int), self.lh(k as int), lvl_cap(k as nat)),
            self.lw(k as int) <= 65536,
            self.lh(k as int) <= 65536,
            5 * (i as int) < self.lw(k as int),
            5 * (j as int) < self.lh(k as int),
        ensures
            v == block_sum(self@[k as int], self.lw(k as int), self.lh(k as int), i as int, j as int),
            v <= lvl_cap((k + 1) as nat),
    {
        let w = self.levels[k].width;
        let h = self.levels[k].height;
        let bx0 = i * 5;
        let by0 = j * 5;
        let bx1 = if bx0 + 5 <= w {
            bx0 + 5
        } else {
            w
        };
        let by1 = if by0 + 5 <= h {
            by0 + 5
        } else {
            h
        };
        let ghost gv = self@[k as int];
        let ghost cap = lvl_cap(k as nat);
        proof {
            lemma_lvl_cap_facts(k as nat);
            lemma_lvl_cap_facts((k + 1) as nat);
            assert(lvl_cap((k + 1) as nat) == 25 * cap);
        }
        let mut acc: u64 = 0;
        let mut x = bx0;
        while x < bx1
            invariant
                bx0 <= x <= bx1,
                acc == rect_sum(gv, bx0 as int, x as int, by0 as int, by1 as int),
                acc <= cap * 25,
            decreases bx1 - x,
        {
            let mut y = by0;
            proof {
                assert(self@[k as int] == self.levels@[k as int].grid());
            }
            while y < by1
                invariant
                    by0 <= y <= by1,
                    bx0 <= x < bx1,
                    acc == rect_sum(gv, bx0 as int, x as int, by0 as int, by1 as int) + col_sum(
                        gv,
                        x as int,
                        by0 as int,
                        y as int,
                    ),
                    acc <= cap * 25,
                decreases by1 - y,
            {
                let c = self.levels[k].get_cell(x, y);
                proof {
                    lemma_rect_sum_bounds(gv, bx0 as int, x as int, by0 as int, by1 as int, cap);
                    lemma_col_sum_bounds(gv, x as int, by0 as int, y as int, cap);
                    assert(cap * ((x - bx0) * (by1 - by0)) + cap * (y - by0) + cap <= cap * 25)
                        by (nonlinear_arith)
                        requires
                            cap >= 0,
                            x - bx0 <= 4,
                            by1 - by0 <= 5,
                            x >= bx0,
                            by1 >= by0,
                            y - by0 <= 4,
                            y >= by0,
                    ;
                }
                acc = acc + c;
                y = y + 1;
            }
            x = x + 1;
        }
        proof {
            assert(bx1 as int == min_i(5 * (i as int) + 5, self.lw(k as int)));
            assert(by1 as int == min_i(5 * (j as int) + 5, self.lh(k as int)));
        }
        acc
    }

    /// Does the coarsest level still admit another coarsening step?
    fn needs_more_levels(&self) -> (b: bool)
        requires
            self.num() >= 1,
        ensures
            b == (self.lw(self.num() - 1) >= 5 && self.lh(self.num() - 1) >= 5),
    {
        let n = self.levels.len();
        self.levels[n - 1].width >= 5 && self.levels[n - 1].height >= 5
    }

    /// Allocate every coarser level, zero-filled, until a level's width or
    /// height falls below the block factor.
    #[verifier::loop_isolation(false)]
    pub fn gen_aggregate_mountain_mapping(&mut self)
        requires
            old(self).num() == 1,
            grid_wf(old(self)@[0], old(self).lw(0), old(self).lh(0)),
            1 <= old(self).lw(0) <= 65536,
            1 <= old(self).lh(0) <= 65536,
            grid_bounded(old(self)@[0], old(self).lw(0), old(self).lh(0), 765),
        ensures
            final(self).wf(),
            final(self)@[0] == old(self)@[0],
            final(self).lw(0) == old(self).lw(0),
            final(self).lh(0) == old(self).lh(0),
            forall|k: int, i: int, j: int|
                1 <= k < final(self).num() && 0 <= i < final(self).lw(k)
                    && 0 <= j < final(self).lh(k) ==> final(self)@[k][i][j] == 0,
    {
        while self.needs_more_levels()
            invariant
                self.num() >= 1,
                self.levels@[0] == old(self).levels@[0],
                forall|k: int|
                    0 <= k < self.num() ==> #[trigger] self.lw(k) == level_dim(
                        old(self).lw(0),
                        k as nat,
                    ),
                forall|k: int|
                    0 <= k < self.num() ==> #[trigger] self.lh(k) == level_dim(
                        old(self).lh(0),
                        k as nat,
                    ),
                forall|k: int|
                    0 <= k < self.num() ==> grid_wf(#[trigger] self@[k], self.lw(k), self.lh(k)),
                forall|k: int, i: int, j: int|
                    1 <= k < self.num() && 0 <= i < self.lw(k) && 0 <= j < self.lh(k)
                        ==> #[trigger] self@[k][i][j] == 0,
                forall|k: int| 0 <= k < self.num() - 1 ==> #[trigger] self.lw(k) >= 5,
                forall|k: int| 0 <= k < self.num() - 1 ==> #[trigger] self.lh(k) >= 5,
            decreases self.levels@[self.num() - 1].width,
        {
            let n = self.levels.len();
            let w = self.levels[n - 1].width;
            let h = self.levels[n - 1].height;
            proof {
                assert(w >= 5 && h >= 5);
                lemma_level_dim_pos(old(self).lw(0), (n - 1) as nat);
                lemma_level_dim_pos(old(self).lh(0), (n - 1) as nat);
                lemma_next_dim(w as int);
                lemma_next_dim(h as int);
            }
            let nw = (w + 4) / 5;
            let nh = (h + 4) / 5;
            let lv = zero_level(nw, nh);
            let ghost prev = *self;
            self.levels.push(lv);
            proof {
                let w0 = old(self).lw(0);
                let h0 = old(self).lh(0);
                let m: int = n as int;
                assert(self.levels@ == prev.levels@.push(lv));
                assert(self.num() == m + 1);
                assert forall|k: int| 0 <= k < self.num() implies #[trigger] self@[k] == (if k < m {
                    prev@[k]
                } else {
                    lv.grid()
                }) by {
                    if k < m {
                        assert(self.levels@[k] == prev.levels@[k]);
                    } else {
                        assert(self.levels@[k] == lv);
                    }
                }
                assert(prev.lw(m - 1) == level_dim(w0, (m - 1) as nat));
                assert(prev.lh(m - 1) == level_dim(h0, (m - 1) as nat));
                assert(w as int == prev.lw(m - 1));
                assert(h as int == prev.lh(m - 1));
                assert(self.levels@[m] == lv);
                assert(self.lw(m) == nw as int && self.lh(m) == nh as int);
                assert(nw as int == next_dim(w as int) && nh as int == next_dim(h as int));
                assert((m as nat) > 0 && ((m as nat) - 1) as nat == (m - 1) as nat);
                assert(level_dim(w0, m as nat) == next_dim(level_dim(w0, (m - 1) as nat)));
                assert(level_dim(h0, m as nat) == next_dim(level_dim(h0, (m - 1) as nat)));
                assert forall|k: int| 0 <= k < self.num() implies #[trigger] self.lw(k)
                    == level_dim(w0, k as nat) by {
                    if k < m {
                        assert(self.levels@[k] == prev.levels@[k]);
                        assert(prev.lw(k) == level_dim(w0, k as nat));
                    }
                }
                assert forall|k: int| 0 <= k < self.num() implies #[trigger] self.lh(k)
                    == level_dim(h0, k as nat) by {
                    if k < m {
                        assert(self.levels@[k] == prev.levels@[k]);
                        assert(prev.lh(k) == level_dim(h0, k as nat));
                    }
                }
                assert forall|k: int| 0 <= k < self.num() - 1 implies #[trigger] self.lw(k)
                    >= 5 by {
                    assert(self.levels@[k] == prev.levels@[k]);
                    if k < m - 1 {
                        assert(prev.lw(k) >= 5);
                    } else {
                        assert(self.lw(k) == w as int);
                    }
                }
                assert forall|k: int| 0 <= k < self.num() - 1 implies #[trigger] self.lh(k)
                    >= 5 by {
                    assert(self.levels@[k] == prev.levels@[k]);
                    if k < m - 1 {
                        assert(prev.lh(k) >= 5);
                    } else {
                        assert(self.lh(k) == h as int);
                    }
                }
            }
        }
        proof {
            let w0 = old(self).lw(0);
            let h0 = old(self).lh(0);
            let n = self.num();
            assert forall|k: nat| k < n - 1 implies #[trigger] level_dim(w0, k) >= 5 && level_dim(
                h0,
                k,
            ) >= 5 by {
                assert(self.lw(k as int) == level_dim(w0, (k as int) as nat));
                assert(self.lh(k as int) == level_dim(h0, (k as int) as nat));
                assert((k as int) as nat == k);
                assert(self.lw(k as int) >= 5 && self.lh(k as int) >= 5);
            }
            assert(self.lw(n - 1) == level_dim(w0, ((n - 1) as int) as nat));
            assert(self.lh(n - 1) == level_dim(h0, ((n - 1) as int) as nat));
            assert(((n - 1) as int) as nat == (n - 1) as nat);
            lemma_num_levels_char(w0, h0, n);
            lemma_num_levels_le8(w0, h0);
            assert forall|k: int| 1 <= k < n implies #[trigger] self.lw(k) == next_dim(
                self.lw(k - 1),
            ) && self.lw(k - 1) >= 5 by {
                assert(self.lw(k - 1) == level_dim(w0, (k - 1) as nat));
                assert(self.lw(k) == level_dim(w0, k as nat));
                assert((k as nat - 1) as nat == (k - 1) as nat);
                assert(level_dim(w0, k as nat) == next_dim(level_dim(w0, (k - 1) as nat)));
                assert(self.lw(k - 1) >= 5);
            }
            assert forall|k: int| 1 <= k < n implies #[trigger] self.lh(k) == next_dim(
                self.lh(k - 1),
            ) && self.lh(k - 1) >= 5 by {
                assert(self.lh(k - 1) == level_dim(h0, (k - 1) as nat));
                assert(self.lh(k) == level_dim(h0, k as nat));
                assert((k as nat - 1) as nat == (k - 1) as nat);
                assert(level_dim(h0, k as nat) == next_dim(level_dim(h0, (k - 1) as nat)));
                assert(self.lh(k - 1) >= 5);
            }
            assert forall|k: int| 0 <= k < n implies grid_bounded(
                #[trigger] self@[k],
                self.lw(k),
                self.lh(k),
                lvl_cap(k as nat),
            ) by {
                lemma_lvl_cap_pos(k as nat);
            }
            assert forall|k: int| 0 <= k < n implies 1 <= #[trigger] self.lw(k) <= 65536 by {
                assert(self.lw(k) == level_dim(w0, k as nat));
                lemma_level_dim_pos(w0, k as nat);
            }
            assert forall|k: int| 0 <= k < n implies 1 <= #[trigger] self.lh(k) <= 65536 by {
                assert(self.lh(k) == level_dim(h0, k as nat));
                lemma_level_dim_pos(h0, k as nat);
            }
        }
    }

    /// Recompute, at every coarser level, exactly the cells whose blocks
    /// overlap the given base-level rectangle (inclusive corners).  Cells
    /// outside the rectangle's image keep their old value.
    #[verifier::loop_isolation(false)]
    pub fn invalid_rectangle(
        &mut self,
        left_top_x: usize,
        left_top_y: usize,
        right_bottom_x: usize,
        right_bottom_y: usize,
    )
        requires
            old(self).wf(),
            left_top_x <= right_bottom_x < old(self).lw(0),
            left_top_y <= right_bottom_y < old(self).lh(0),
        ensures
            final(self).wf(),
            final(self).num() == old(self).num(),
            forall|t: int|
                0 <= t < old(self).num() ==> #[trigger] final(self).lw(t) == old(self).lw(t),
            forall|t: int|
                0 <= t < old(self).num() ==> #[trigger] final(self).lh(t) == old(self).lh(t),
            final(self)@[0] == old(self)@[0],
            forall|t: int, i: int, j: int|
                1 <= t < old(self).num() && 0 <= i < old(self).lw(t) && 0 <= j < old(self).lh(t)
                    && in_srect(
                    left_top_x as int,
                    right_bottom_x as int,
                    left_top_y as int,
                    right_bottom_y as int,
                    t as nat,
                    i,
                    j,
                ) ==> #[trigger] final(self)@[t][i][j] == block_sum(
                    final(self)@[t - 1],
                    old(self).lw(t - 1),
                    old(self).lh(t - 1),
                    i,
                    j,
                ),
            forall|t: int, i: int, j: int|
                1 <= t < old(self).num() && 0 <= i < old(self).lw(t) && 0 <= j < old(self).lh(t)
                    && !in_srect(
                    left_top_x as int,
                    right_bottom_x as int,
                    left_top_y as int,
                    right_bottom_y as int,
                    t as nat,
                    i,
                    j,
                ) ==> #[trigger] final(self)@[t][i][j] == old(self)@[t][i][j],
    {
        let ghost x0 = left_top_x as int;
        let ghost x1 = right_bottom_x as int;
        let ghost y0 = left_top_y as int;
        let ghost y1 = right_bottom_y as int;
        let mut k: usize = 0;
        let mut sx = left_top_x;
        let mut ex = right_bottom_x;
        let mut sy = left_top_y;
        let mut ey = right_bottom_y;
        while k + 1 < self.levels.len()
            invariant
                k + 1 <= self.num(),
                self.num() == old(self).num(),
                forall|t: int| 0 <= t < self.num() ==> #[trigger] self.lw(t) == old(self).lw(t),
                forall|t: int| 0 <= t < self.num() ==> #[trigger] self.lh(t) == old(self).lh(t),
                self@[0] == old(self)@[0],
                forall|t: int| k < t < self.num() ==> #[trigger] self@[t] == old(self)@[t],
                sx as int == shrink(x0, k as nat),
                ex as int == shrink(x1, k as nat),
                sy as int == shrink(y0, k as nat),
                ey as int == shrink(y1, k as nat),
                sx <= ex,
                ex < self.lw(k as int),
                sy <= ey,
                ey < self.lh(k as int),
                forall|t: int|
                    0 <= t < self.num() ==> grid_wf(#[trigger] self@[t], self.lw(t), self.lh(t)),
                forall|t: int|
                    0 <= t < self.num() ==> grid_bounded(
                        #[trigger] self@[t],
                        self.lw(t),
                        self.lh(t),
                        lvl_cap(t as nat),
                    ),
                forall|t: int, i: int, j: int|
                    1 <= t <= k && 0 <= i < self.lw(t) && 0 <= j < self.lh(t) && in_srect(
                        x0,
                        x1,
                        y0,
                        y1,
                        t as nat,
                        i,
                        j,
                    ) ==> #[trigger] self@[t][i][j] == block_sum(
                        self@[t - 1],
                        self.lw(t - 1),
                        self.lh(t - 1),
                        i,
                        j,
                    ),
                forall|t: int, i: int, j: int|
                    1 <= t <= k && 0 <= i < self.lw(t) && 0 <= j < self.lh(t) && !in_srect(
                        x0,
                        x1,
                        y0,
                        y1,
                        t as nat,
                        i,
                        j,
                    ) ==> #[trigger] self@[t][i][j] == old(self)@[t][i][j],
            decreases self.num() - k,
        {
            let nsx = sx / 5;
            let nex = ex / 5;
            let nsy = sy / 5;
            let ney = ey / 5;
            proof {
                lemma_next_dim(self.lw(k as int));
                lemma_next_dim(self.lh(k as int));
                assert(nex as int <= (self.lw(k as int) - 1) / 5 && nsx <= nex && nsx as int >= 0
                    && ney as int <= (self.lh(k as int) - 1) / 5 && nsy <= ney)
                    by (nonlinear_arith)
                    requires
                        sx <= ex,
                        ex < self.lw(k as int),
                        sy <= ey,
                        ey < self.lh(k as int),
                        nsx == sx as int / 5,
                        nex == ex as int / 5,
                        nsy == sy as int / 5,
                        ney == ey as int / 5,
                ;
                assert(self.lw(k as int + 1) == next_dim(self.lw(k as int)));
                assert(self.lh(k as int + 1) == next_dim(self.lh(k as int)));
                assert(5 * (nex as int) <= ex as int && 5 * (ney as int) <= ey as int && nex as int
                    <= (self.lw(k as int) - 1) / 5 && ney as int <= (self.lh(k as int) - 1) / 5)
                    by (nonlinear_arith)
                    requires
                        nex == ex as int / 5,
                        ney == ey as int / 5,
                        ex < self.lw(k as int),
                        ey < self.lh(k as int),
                        0 <= ex,
                        0 <= ey,
                ;
            }
            let ghost prev = *self;
            let kk = k + 1;
            let mut i = nsx;
            while i <= nex
                invariant
                    nsx <= i,
                    i <= nex + 1,
                    nex < self.lw(kk as int),
                    ney < self.lh(kk as int),
                    5 * (nex as int) <= ex as int,
                    5 * (ney as int) <= ey as int,
                    ex < self.lw(k as int),
                    ey < self.lh(k as int),
                    kk == k + 1,
                    k + 1 < self.num(),
                    k <= 6,
                    self.num() == prev.num(),
                    forall|t: int| 0 <= t < self.num() ==> #[trigger] self.lw(t) == prev.lw(t),
                    forall|t: int| 0 <= t < self.num() ==> #[trigger] self.lh(t) == prev.lh(t),
                    forall|t: int| 0 <= t < self.num() && t != kk ==> #[trigger] self@[t] == prev@[t],
                    forall|t: int|
                        0 <= t < self.num() ==> grid_wf(#[trigger] self@[t], self.lw(t), self.lh(t)),
                    forall|t: int|
                        0 <= t < self.num() ==> grid_bounded(
                            #[trigger] self@[t],
                            self.lw(t),
                            self.lh(t),
                            lvl_cap(t as nat),
                        ),
                    forall|a: int, b: int|
                        0 <= a < self.lw(kk as int) && 0 <= b < self.lh(kk as int)
                            ==> #[trigger] self@[kk as int][a][b] == (if nsx <= a < i && nsy <= b
                            <= ney {
                            block_sum(prev@[k as int], prev.lw(k as int), prev.lh(k as int), a, b)
                        } else {
                            prev@[kk as int][a][b] as int
                        }),
                decreases nex + 1 - i,
            {
                let mut j = nsy;
                while j <= ney
                    invariant
                        nsx <= i <= nex,
                        nsy <= j,
                        j <= ney + 1,
                        nex < self.lw(kk as int),
                        ney < self.lh(kk as int),
                        5 * (nex as int) <= ex as int,
                        5 * (ney as int) <= ey as int,
                        ex < self.lw(k as int),
                        ey < self.lh(k as int),
                        kk == k + 1,
                        k + 1 < self.num(),
                        k <= 6,
                        self.num() == prev.num(),
                        forall|t: int|
                            0 <= t < self.num() ==> #[trigger] self.lw(t) == prev.lw(t),
                        forall|t: int|
                            0 <= t < self.num() ==> #[trigger] self.lh(t) == prev.lh(t),
                        forall|t: int|
                            0 <= t < self.num() && t != kk ==> #[trigger] self@[t] == prev@[t],
                        forall|t: int|
                            0 <= t < self.num() ==> grid_wf(
                                #[trigger] self@[t],
                                self.lw(t),
                                self.lh(t),
                            ),
                        forall|t: int|
                            0 <= t < self.num() ==> grid_bounded(
                                #[trigger] self@[t],
                                self.lw(t),
                                self.lh(t),
                                lvl_cap(t as nat),
                            ),
                        forall|a: int, b: int|
                            0 <= a < self.lw(kk as int) && 0 <= b < self.lh(kk as int)
                                ==> #[trigger] self@[kk as int][a][b] == (if (nsx <= a < i && nsy
                                <= b <= ney) || (a == i && nsy <= b < j) {
                                block_sum(
                                    prev@[k as int],
                                    prev.lw(k as int),
                                    prev.lh(k as int),
                                    a,
                                    b,
                                )
                            } else {
                                prev@[kk as int][a][b] as int
                            }),
                    decreases ney + 1 - j,
                {
                    proof {
                        assert(5 * (i as int) <= 5 * (nex as int)) by (nonlinear_arith)
                            requires
                                i <= nex,
                        ;
                        assert(5 * (j as int) <= 5 * (ney as int)) by (nonlinear_arith)
                            requires
                                j <= ney,
                        ;
                    }
                    let v = self.sum_block(k, i, j);
                    let ghost before = *self;
                    proof {
                        assert(self@[kk as int] == self.levels@[kk as int].grid());
                    }
                    self.levels[kk].set_cell(i, j, v);
                    proof {
                        assert(self.levels@ == before.levels@.update(
                            kk as int,
                            self.levels@[kk as int],
                        ));
                        assert forall|t: int| 0 <= t < self.num() && t != kk implies #[trigger] self@[t]
                            == before@[t] by {
                            assert(self.levels@[t] == before.levels@[t]);
                        }
                        assert forall|t: int| 0 <= t < self.num() implies #[trigger] self.lw(t)
                            == before.lw(t) by {
                            if t != kk {
                                assert(self.levels@[t] == before.levels@[t]);
                            }
                        }
                        assert forall|t: int| 0 <= t < self.num() implies #[trigger] self.lh(t)
                            == before.lh(t) by {
                            if t != kk {
                                assert(self.levels@[t] == before.levels@[t]);
                            }
                        }
                        assert(self@[kk as int] == before@[kk as int].update(
                            i as int,
                            before@[kk as int][i as int].update(j as int, v),
                        ));
                        assert(v == block_sum(
                            prev@[k as int],
                            prev.lw(k as int),
                            prev.lh(k as int),
                            i as int,
                            j as int,
                        ));
                        assert forall|a: int, b: int|
                            0 <= a < self.lw(kk as int) && 0 <= b < self.lh(kk as int) implies
                            #[trigger] self@[kk as int][a][b] == (if (nsx <= a < i && nsy <= b
                            <= ney) || (a == i && nsy <= b < j + 1) {
                            block_sum(prev@[k as int], prev.lw(k as int), prev.lh(k as int), a, b)
                        } else {
                            prev@[kk as int][a][b] as int
                        }) by {
                            if a == i as int && b == j as int {
                            } else if a == i as int {
                                assert(self@[kk as int][a][b] == before@[kk as int][a][b]);
                            } else {
                                assert(self@[kk as int][a][b] == before@[kk as int][a][b]);
                            }
                        }
                    }
                    j = j + 1;
                }
                i = i + 1;
            }
            proof {
                assert forall|a: int, b: int|
                    0 <= a < self.lw(kk as int) && 0 <= b < self.lh(kk as int) && in_srect(
                        x0,
                        x1,
                        y0,
                        y1,
                        kk as nat,
                        a,
                        b,
                    ) implies #[trigger] self@[kk as int][a][b] == block_sum(
                    self@[k as int],
                    self.lw(k as int),
                    self.lh(k as int),
                    a,
                    b,
                ) by {
                    assert(shrink(x0, kk as nat) == nsx as int);
                    assert(shrink(x1, kk as nat) == nex as int);
                    assert(shrink(y0, kk as nat) == nsy as int);
                    assert(shrink(y1, kk as nat) == ney as int);
                    assert(self@[k as int] == prev@[k as int]);
                }
            }
            sx = nsx;
            ex = nex;
            sy = nsy;
            ey = ney;
            k = k + 1;
        }
    }
}


fn zero_level(width: usize, height: usize) -> (lv: Level)
    ensures
        lv.wf(),
        lv.width == width,
        lv.height == height,
        forall|i: int, j: int|
            0 <= i < width && 0 <= j < height ==> lv.grid()[i][j] == 0,
{
    let mut data: Vec<Vec<u64>> = Vec::new();
    let mut i: usize = 0;
    while i < width
        invariant
            i <= width,
            data@.len() == i,
            forall|a: int| 0 <= a < i ==> (#[trigger] data@[a])@.len() == height,
            forall|a: int, b: int| 0 <= a < i && 0 <= b < height ==> data@[a]@[b] == 0,
        decreases width - i,
    {
        let mut col: Vec<u64> = Vec::new();
        let mut j: usize = 0;
        while j < height
            invariant
                j <= height,
                col@.len() == j,
                forall|b: int| 0 <= b < j ==> col@[b] == 0,
            decreases height - j,
        {
            col.push(0);
            j = j + 1;
        }
        data.push(col);
        i = i + 1;
    }
    Level { data, width, height }
}

pub proof fn lemma_lvl_cap_facts(k: nat)
    requires
        k <= 7,
    ensures
        765 <= lvl_cap(k) <= 4669189453125,
    decreases k,
{
    reveal_with_fuel(lvl_cap, 9);
    if k > 0 {
        lemma_lvl_cap_facts((k - 1) as nat);
        assert(lvl_cap(k) == 25 * lvl_cap((k - 1) as nat));
        assert(lvl_cap(7) == 4669189453125);
        lemma_lvl_cap_mono(k, 7);
    }
}

proof fn lemma_lvl_cap_mono(k1: nat, k2: nat)
    requires
        k1 <= k2,
    ensures
        0 < lvl_cap(k1) <= lvl_cap(k2),
    decreases k2,
{
    if k1 == k2 {
        lemma_lvl_cap_pos(k1);
    } else {
        lemma_lvl_cap_mono(k1, (k2 - 1) as nat);
    }
}

proof fn lemma_lvl_cap_pos(k: nat)
    ensures
        lvl_cap(k) >= 765,
    decreases k,
{
    if k > 0 {
        lemma_lvl_cap_pos((k - 1) as nat);
    }
}

pub proof fn lemma_next_dim(w: int)
    requires
        w >= 1,
    ensures
        next_dim(w) >= 1,
        (w - 1) / 5 == next_dim(w) - 1,
        w >= 5 ==> next_dim(w) < w,
        w < 5 ==> next_dim(w) == 1,
{
    assert(next_dim(w) >= 1 && (w - 1) / 5 == (w + 4) / 5 - 1 && (w >= 5 ==> (w + 4) / 5 < w) && (w
        < 5 ==> (w + 4) / 5 == 1)) by (nonlinear_arith)
        requires
            w >= 1,
    ;
}

pub proof fn lemma_level_dim_pos(w: int, k: nat)
    requires
        w >= 1,
    ensures
        level_dim(w, k) >= 1,
        level_dim(w, k) <= w,
    decreases k,
{
    if k > 0 {
        lemma_level_dim_pos(w, (k - 1) as nat);
        lemma_next_dim(level_dim(w, (k - 1) as nat));
        assert(next_dim(level_dim(w, (k - 1) as nat)) <= level_dim(w, (k - 1) as nat) || level_dim(
            w,
            (k - 1) as nat,
        ) < 5);
    }
}

proof fn lemma_num_levels_bound(w: int, h: int, n: nat)
    requires
        1 <= w,
        1 <= h,
        w <= pow5(n),
    ensures
        num_levels(w, h) <= n + 1,
    decreases n,
{
    if w < 5 || h < 5 {
    } else {
        assert(pow5(n) >= 5);
        assert(n >= 1) by {
            if n == 0 {
                assert(pow5(0) == 1);
            }
        }
        lemma_next_dim(w);
        assert(next_dim(w) <= pow5((n - 1) as nat)) by {
            assert(5 * pow5((n - 1) as nat) == pow5(n));
            assert((w + 4) / 5 <= pow5((n - 1) as nat)) by (nonlinear_arith)
                requires
                    w <= 5 * pow5((n - 1) as nat),
                    pow5((n - 1) as nat) >= 1,
            ;
        }
        lemma_num_levels_bound(next_dim(w), next_dim(h), (n - 1) as nat);
    }
}

pub proof fn lemma_num_levels_pos(w: int, h: int)
    ensures
        num_levels(w, h) >= 1,
    decreases w,
{
    if !(w < 5 || h < 5 || w < 1 || h < 1) {
        lemma_num_levels_pos(next_dim(w), next_dim(h));
    }
}

pub proof fn lemma_num_levels_le8(w: int, h: int)
    requires
        1 <= w <= 65536,
        1 <= h <= 65536,
    ensures
        1 <= num_levels(w, h) <= 8,
{
    assert(pow5(7) == 78125) by {
        reveal_with_fuel(pow5, 8);
    }
    lemma_num_levels_bound(w, h, 7);
    lemma_num_levels_pos(w, h);
}

/// Characterize `num_levels` by the dimension chain: if every level before
/// `n - 1` is non-degenerate and level `n - 1` is degenerate, there are
/// exactly `n` levels.
pub proof fn lemma_num_levels_char(w: int, h: int, n: int)
    requires
        1 <= w,
        1 <= h,
        n >= 1,
        forall|k: nat| k < n - 1 ==> #[trigger] level_dim(w, k) >= 5 && level_dim(h, k) >= 5,
        level_dim(w, (n - 1) as nat) < 5 || level_dim(h, (n - 1) as nat) < 5,
    ensures
        num_levels(w, h) == n,
    decreases n,
{
    if n == 1 {
        assert(level_dim(w, 0) == w && level_dim(h, 0) == h);
    } else {
        assert(level_dim(w, 0) >= 5 && level_dim(h, 0) >= 5);
        assert(level_dim(w, 0) == w && level_dim(h, 0) == h);
        lemma_next_dim(w);
        lemma_next_dim(h);
        assert forall|k: nat| k < n - 2 implies #[trigger] level_dim(next_dim(w), k) >= 5
            && level_dim(next_dim(h), k) >= 5 by {
            lemma_level_dim_shift(w, k);
            lemma_level_dim_shift(h, k);
            assert(level_dim(w, (k + 1) as nat) >= 5);
            assert(level_dim(h, (k + 1) as nat) >= 5);
        }
        lemma_level_dim_shift(w, (n - 2) as nat);
        lemma_level_dim_shift(h, (n - 2) as nat);
        lemma_num_levels_char(next_dim(w), next_dim(h), n - 1);
    }
}

/// `level_dim` commutes with taking one coarsening step at the base.
pub proof fn lemma_level_dim_shift(w: int, k: nat)
    ensures
        level_dim(next_dim(w), k) == level_dim(w, (k + 1) as nat),
    decreases k,
{
    if k > 0 {
        lemma_level_dim_shift(w, (k - 1) as nat);
    } else {
        reveal_with_fuel(level_dim, 2);
    }
}

/// Shrinking the largest base coordinate lands on the largest coordinate of
/// the corresponding level.
pub proof fn lemma_shrink_last(w: int, k: nat)
    requires
        w >= 1,
    ensures
        shrink(w - 1, k) == level_dim(w, k) - 1,
    decreases k,
{
    if k > 0 {
        lemma_shrink_last(w, (k - 1) as nat);
        lemma_level_dim_pos(w, (k - 1) as nat);
        lemma_next_dim(level_dim(w, (k - 1) as nat));
    }
}

pub proof fn lemma_shrink_mono(a: int, b: int, k: nat)
    requires
        0 <= a <= b,
    ensures
        0 <= shrink(a, k) <= shrink(b, k),
    decreases k,
{
    if k > 0 {
        lemma_shrink_mono(a, b, (k - 1) as nat);
        assert(shrink(a, (k - 1) as nat) / 5 <= shrink(b, (k - 1) as nat) / 5 && shrink(
            a,
            (k - 1) as nat,
        ) / 5 >= 0) by (nonlinear_arith)
            requires
                0 <= shrink(a, (k - 1) as nat) <= shrink(b, (k - 1) as nat),
        ;
    }
}

} // verus!

verus! {

pub open spec fn gw(g: Seq<Seq<u64>>) -> int {
    g.len() as int
}

pub open spec fn gh(g: Seq<Seq<u64>>) -> int {
    if g.len() > 0 {
        g[0].len() as int
    } else {
        0
    }
}

/// The score function of a plain grid scan: the cell value itself.
pub open spec fn cellf(g: Seq<Seq<u64>>) -> spec_fn(int, int) -> int {
    |i: int, j: int| g[i][j] as int
}

/// The coarse-to-fine query, level `k` and below: the coarsest level is
/// scanned whole; each finer level scans only the block inherited from the
/// level above, with the first-strictly-greatest tie-break throughout.
pub open spec fn fetch_at(m: Seq<Seq<Seq<u64>>>, k: int) -> (int, int, int)
    decreases m.len() - k,
{
    if k < 0 || k >= m.len() {
        (0, 0, 0)
    } else if k == m.len() - 1 {
        fold_best((0, 0, 0), 0, gw(m[k]), 0, gh(m[k]), 0, 0, cellf(m[k]))
    } else {
        let c = fetch_at(m, k + 1);
        fold_best(
            (0, 0, 0),
            5 * c.0,
            min_i(5 * c.0 + 5, gw(m[k])),
            5 * c.1,
            min_i(5 * c.1 + 5, gh(m[k])),
            0,
            0,
            cellf(m[k]),
        )
    }
}

/// The base-level rectangle that the query actually scans: the whole base
/// when there is a single level, else the block inherited from level `1`.
/// Bounds are `(x0, x1, y0, y1)` with exclusive upper ends.
pub open spec fn searched_base_rect(m: &AggregateMountain) -> (int, int, int, int) {
    if m.num() == 1 {
        (0, m.lw(0), 0, m.lh(0))
    } else {
        let c = fetch_at(m@, 1);
        (5 * c.0, min_i(5 * c.0 + 5, m.lw(0)), 5 * c.1, min_i(5 * c.1 + 5, m.lh(0)))
    }
}

pub proof fn lemma_fetch_at_bounds(m: &AggregateMountain, k: int)
    requires
        m.wf(),
        0 <= k < m.num(),
    ensures
        ({
            let r = fetch_at(m@, k);
            &&& 0 <= r.0 < m.lw(k)
            &&& 0 <= r.1 < m.lh(k)
            &&& 0 <= r.2
        }),
    decreases m.num() - k,
{
    let g = m@[k];
    assert(gw(g) == m.lw(k) && gh(g) == m.lh(k));
    if k == m.num() - 1 {
        lemma_fold_best_facts((0, 0, 0), 0, gw(g), 0, gh(g), 0, 0, cellf(g));
    } else {
        lemma_fetch_at_bounds(m, k + 1);
        let c = fetch_at(m@, k + 1);
        assert(m.lw(k + 1) == next_dim(m.lw(k)));
        assert(m.lh(k + 1) == next_dim(m.lh(k)));
        assert(5 * c.0 < m.lw(k) && 5 * c.1 < m.lh(k)) by (nonlinear_arith)
            requires
                0 <= c.0 < (m.lw(k) + 4) / 5,
                0 <= c.1 < (m.lh(k) + 4) / 5,
                m.lw(k) >= 1,
                m.lh(k) >= 1,
        ;
        lemma_fold_best_facts(
            (0, 0, 0),
            5 * c.0,
            min_i(5 * c.0 + 5, gw(g)),
            5 * c.1,
            min_i(5 * c.1 + 5, gh(g)),
            0,
            0,
            cellf(g),
        );
    }
}

/// The query returns a value at least as large as every base cell it could
/// reach along its coarse-to-fine path (not necessarily the global maximum:
/// a coarser winner can hide a finer cell outside its block).
pub proof fn lemma_fetch_top_point_dominates(m: &AggregateMountain)
    requires
        m.wf(),
    ensures
        ({
            let r = fetch_at(m@, 0);
            let rect = searched_base_rect(m);
            &&& r.2 >= 0
            &&& forall|i: int, j: int|
                rect.0 <= i < rect.1 && rect.2 <= j < rect.3 ==> r.2 >= #[trigger] m@[0][i][j]
        }),
{
    let g = m@[0];
    assert(gw(g) == m.lw(0) && gh(g) == m.lh(0));
    let rect = searched_base_rect(m);
    if m.num() == 1 {
        lemma_fold_best_facts((0, 0, 0), 0, gw(g), 0, gh(g), 0, 0, cellf(g));
        assert forall|i: int, j: int|
            rect.0 <= i < rect.1 && rect.2 <= j < rect.3 implies fetch_at(m@, 0).2
            >= #[trigger] m@[0][i][j] by {
            assert(fetch_at(m@, 0).2 >= cellf(g)(i, j));
        }
    } else {
        let c = fetch_at(m@, 1);
        lemma_fold_best_facts(
            (0, 0, 0),
            5 * c.0,
            min_i(5 * c.0 + 5, gw(g)),
            5 * c.1,
            min_i(5 * c.1 + 5, gh(g)),
            0,
            0,
            cellf(g),
        );
        assert forall|i: int, j: int|
            rect.0 <= i < rect.1 && rect.2 <= j < rect.3 implies fetch_at(m@, 0).2
            >= #[trigger] m@[0][i][j] by {
            assert(fetch_at(m@, 0).2 >= cellf(g)(i, j));
        }
    }
}

impl AggregateMountain {
    /// Scan one rectangle of one level for its first strictly greatest cell.
    #[verifier::loop_isolation(false)]
    pub(crate) fn scan_rect(&self, k: usize, x0: usize, x1: usize, y0: usize, y1: usize) -> (r: XY)
        requires
            k < self.num(),
            grid_wf(self@[k as int], self.lw(k as int), self.lh(k as int)),
            x0 <= x1 <= self.lw(k as int),
            y0 <= y1 <= self.lh(k as int),
        ensures
            r.t() == fold_best(
                (0, 0, 0),
                x0 as int,
                x1 as int,
                y0 as int,
                y1 as int,
                0,
                0,
                cellf(self@[k as int]),
            ),
    {
        let ghost vf = cellf(self@[k as int]);
        let mut xy = XY::new();
        let mut i = x0;
        while i < x1
            invariant
                x0 <= i <= x1,
                xy.t() == fold_best((0, 0, 0), x0 as int, i as int, y0 as int, y1 as int, 0, 0, vf),
            decreases x1 - i,
        {
            let mut j = y0;
            while j < y1
                invariant
                    y0 <= j <= y1,
                    x0 <= i < x1,
                    xy.t() == fold_best_col(
                        fold_best((0, 0, 0), x0 as int, i as int, y0 as int, y1 as int, 0, 0, vf),
                        i as int,
                        y0 as int,
                        j as int,
                        0,
                        0,
                        vf,
                    ),
                decreases y1 - j,
            {
                let v = self.levels[k].get_cell(i, j);
                proof {
                    assert(self@[k as int] == self.levels@[k as int].grid());
                    assert(vf(i as int, j as int) == v as int);
                }
                xy.update(i, j, v);
                j = j + 1;
            }
            i = i + 1;
        }
        xy
    }

    /// The approximate-maximum query: scan the whole coarsest level, then
    /// narrow to the winning cell's block at each finer level.
    #[verifier::loop_isolation(false)]
    pub fn fetch_top_point(&self) -> (r: XY)
        requires
            self.wf(),
        ensures
            r.t() == fetch_at(self@, 0),
            r.x < self.lw(0),
            r.y < self.lh(0),
    {
        let n = self.levels.len();
        let mut k = n - 1;
        let w = self.levels[k].width;
        let h = self.levels[k].height;
        let mut r = self.scan_rect(k, 0, w, 0, h);
        while k > 0
            invariant
                0 <= k < self.num(),
                r.t() == fetch_at(self@, k as int),
            decreases k,
        {
            proof {
                lemma_fetch_at_bounds(self, k as int);
            }
            k = k - 1;
            proof {
                assert(self.lw(k as int + 1) == next_dim(self.lw(k as int)));
                assert(self.lh(k as int + 1) == next_dim(self.lh(k as int)));
                assert(5 * (r.x as int) < self.lw(k as int) && 5 * (r.y as int) < self.lh(k as int))
                    by (nonlinear_arith)
                    requires
                        0 <= r.x < (self.lw(k as int) + 4) / 5,
                        0 <= r.y < (self.lh(k as int) + 4) / 5,
                        self.lw(k as int) >= 1,
                        self.lh(k as int) >= 1,
                ;
            }
            let w2 = self.levels[k].width;
            let h2 = self.levels[k].height;
            let bx0 = r.x * 5;
            let by0 = r.y * 5;
            let bx1 = if bx0 + 5 <= w2 {
                bx0 + 5
            } else {
                w2
            };
            let by1 = if by0 + 5 <= h2 {
                by0 + 5
            } else {
                h2
            };
            r = self.scan_rect(k, bx0, bx1, by0, by1);
        }
        proof {
            lemma_fetch_at_bounds(self, 0);
        }
        r
    }
}

pub proof fn lemma_shrink_zero(k: nat)
    ensures
        shrink(0, k) == 0,
    decreases k,
{
    if k > 0 {
        lemma_shrink_zero((k - 1) as nat);
    }
}

/// In a well-formed pyramid the dimension of level `k` is the `k`-fold
/// coarsening of the base dimension.
pub proof fn lemma_wf_dim_at(m: &AggregateMountain, k: int)
    requires
        m.wf(),
        0 <= k < m.num(),
    ensures
        m.lw(k) == level_dim(m.lw(0), k as nat),
        m.lh(k) == level_dim(m.lh(0), k as nat),
    decreases k,
{
    if k > 0 {
        lemma_wf_dim_at(m, k - 1);
        assert(m.lw(k) == next_dim(m.lw(k - 1)));
        assert(m.lh(k) == next_dim(m.lh(k - 1)));
        assert((k as nat - 1) as nat == (k - 1) as nat);
    }
}

/// After a partial rebuild over a rectangle, the aggregate invariant holds
/// again, provided it held before the base was mutated and the base changed
/// only inside the rectangle.
pub proof fn lemma_agg_restored(
    s0: &AggregateMountain,
    post: &AggregateMountain,
    x0: int,
    x1: int,
    y0: int,
    y1: int,
)
    requires
        s0.wf(),
        post.wf(),
        s0.agg_ok(),
        post.num() == s0.num(),
        forall|t: int| 0 <= t < post.num() ==> #[trigger] post.lw(t) == s0.lw(t),
        forall|t: int| 0 <= t < post.num() ==> #[trigger] post.lh(t) == s0.lh(t),
        0 <= x0 <= x1 < s0.lw(0),
        0 <= y0 <= y1 < s0.lh(0),
        forall|i: int, j: int|
            0 <= i < s0.lw(0) && 0 <= j < s0.lh(0) && !(x0 <= i <= x1 && y0 <= j <= y1)
                ==> post@[0][i][j] == #[trigger] s0@[0][i][j],
        forall|t: int, i: int, j: int|
            1 <= t < post.num() && 0 <= i < post.lw(t) && 0 <= j < post.lh(t) && in_srect(
                x0,
                x1,
                y0,
                y1,
                t as nat,
                i,
                j,
            ) ==> #[trigger] post@[t][i][j] == block_sum(
                post@[t - 1],
                post.lw(t - 1),
                post.lh(t - 1),
                i,
                j,
            ),
        forall|t: int, i: int, j: int|
            1 <= t < post.num() && 0 <= i < post.lw(t) && 0 <= j < post.lh(t) && !in_srect(
                x0,
                x1,
                y0,
                y1,
                t as nat,
                i,
                j,
            ) ==> #[trigger] post@[t][i][j] == s0@[t][i][j],
    ensures
        post.agg_ok(),
{
    assert forall|t: int, i: int, j: int|
        1 <= t < post.num() && 0 <= i < post.lw(t) && 0 <= j < post.lh(t) implies
        #[trigger] post@[t][i][j] == block_sum(post@[t - 1], post.lw(t - 1), post.lh(t - 1), i, j) by {
        if !in_srect(x0, x1, y0, y1, t as nat, i, j) {
            let sax = shrink(x0, (t - 1) as nat);
            let sbx = shrink(x1, (t - 1) as nat);
            let say = shrink(y0, (t - 1) as nat);
            let sby = shrink(y1, (t - 1) as nat);
            assert(shrink(x0, t as nat) == sax / 5 && shrink(x1, t as nat) == sbx / 5 && shrink(
                y0,
                t as nat,
            ) == say / 5 && shrink(y1, t as nat) == sby / 5) by {
                assert((t as nat - 1) as nat == (t - 1) as nat);
            }
            let bx0 = 5 * i;
            let bx1 = min_i(5 * i + 5, post.lw(t - 1));
            let by0 = 5 * j;
            let by1 = min_i(5 * j + 5, post.lh(t - 1));
            assert forall|a: int, b: int| bx0 <= a < bx1 && by0 <= b < by1 implies
                #[trigger] post@[t - 1][a][b] == s0@[t - 1][a][b] by {
                lemma_shrink_mono(0, x0, (t - 1) as nat);
                lemma_shrink_mono(0, x1, (t - 1) as nat);
                lemma_shrink_mono(0, y0, (t - 1) as nat);
                lemma_shrink_mono(0, y1, (t - 1) as nat);
                lemma_shrink_zero((t - 1) as nat);
                assert(i < sax / 5 ==> a < sax) by (nonlinear_arith)
                    requires
                        bx0 == 5 * i,
                        a <= bx0 + 4,
                        0 <= sax,
                ;
                assert(i > sbx / 5 ==> a > sbx) by (nonlinear_arith)
                    requires
                        bx0 == 5 * i,
                        a >= bx0,
                        0 <= sbx,
                ;
                assert(j < say / 5 ==> b < say) by (nonlinear_arith)
                    requires
                        by0 == 5 * j,
                        b <= by0 + 4,
                        0 <= say,
                ;
                assert(j > sby / 5 ==> b > sby) by (nonlinear_arith)
                    requires
                        by0 == 5 * j,
                        b >= by0,
                        0 <= sby,
                ;
                assert(!in_srect(x0, x1, y0, y1, (t - 1) as nat, a, b));
                if t - 1 == 0 {
                    assert(post@[0][a][b] == s0@[0][a][b]);
                } else {
                    assert(post@[t - 1][a][b] == s0@[t - 1][a][b]);
                }
            }
            assert(post@[t][i][j] == s0@[t][i][j]);
            assert(s0@[t][i][j] == block_sum(s0@[t - 1], s0.lw(t - 1), s0.lh(t - 1), i, j));
            lemma_rect_sum_congruence(post@[t - 1], s0@[t - 1], bx0, bx1, by0, by1);
        }
    }
}

/// A rebuild over the whole base makes the pyramid globally consistent.
pub proof fn lemma_agg_after_full(post: &AggregateMountain)
    requires
        post.wf(),
        forall|t: int, i: int, j: int|
            1 <= t < post.num() && 0 <= i < post.lw(t) && 0 <= j < post.lh(t) && in_srect(
                0,
                post.lw(0) - 1,
                0,
                post.lh(0) - 1,
                t as nat,
                i,
                j,
            ) ==> #[trigger] post@[t][i][j] == block_sum(
                post@[t - 1],
                post.lw(t - 1),
                post.lh(t - 1),
                i,
                j,
            ),
    ensures
        post.agg_ok(),
{
    assert forall|t: int, i: int, j: int|
        1 <= t < post.num() && 0 <= i < post.lw(t) && 0 <= j < post.lh(t) implies
        #[trigger] post@[t][i][j] == block_sum(post@[t - 1], post.lw(t - 1), post.lh(t - 1), i, j) by {
        lemma_shrink_zero(t as nat);
        lemma_wf_dim_at(post, t);
        lemma_shrink_last(post.lw(0), t as nat);
        lemma_shrink_last(post.lh(0), t as nat);
        assert(in_srect(0, post.lw(0) - 1, 0, post.lh(0) - 1, t as nat, i, j));
    }
}

proof fn lemma_pyramid_unique_rec(m: Seq<Seq<Seq<u64>>>, w: int, h: int)
    requires
        1 <= w,
        1 <= h,
        m.len() == num_levels(w, h),
        forall|k: int|
            0 <= k < m.len() ==> grid_wf(
                #[trigger] m[k],
                level_dim(w, k as nat),
                level_dim(h, k as nat),
            ),
        forall|k: int, i: int, j: int|
            1 <= k < m.len() && 0 <= i < level_dim(w, k as nat) && 0 <= j < level_dim(h, k as nat)
                ==> #[trigger] m[k][i][j] == block_sum(
                m[k - 1],
                level_dim(w, (k - 1) as nat),
                level_dim(h, (k - 1) as nat),
                i,
                j,
            ),
    ensures
        m == pyramid_of(m[0], w, h),
    decreases m.len(),
{
    lemma_num_levels_pos(w, h);
    if w < 5 || h < 5 {
        assert(m.len() == 1);
        assert(m =~= seq![m[0]]);
    } else {
        let w2 = next_dim(w);
        let h2 = next_dim(h);
        lemma_next_dim(w);
        lemma_next_dim(h);
        lemma_num_levels_pos(next_dim(w), next_dim(h));
        let tail = m.subrange(1, m.len() as int);
        assert(m.len() >= 2);
        assert(tail[0] =~~= agg_grid(m[0], w, h)) by {
            assert(level_dim(w, 1) == w2 && level_dim(h, 1) == h2) by {
                reveal_with_fuel(level_dim, 2);
            }
            assert(grid_wf(m[1], w2, h2));
            assert(agg_grid(m[0], w, h).len() == w2);
            assert forall|i: int, j: int| 0 <= i < w2 && 0 <= j < h2 implies m[1][i][j]
                == #[trigger] agg_grid(m[0], w, h)[i][j] by {
                assert(m[1][i][j] == block_sum(m[0], w, h, i, j));
            }
        }
        assert forall|k: int| 0 <= k < tail.len() implies grid_wf(
            #[trigger] tail[k],
            level_dim(w2, k as nat),
            level_dim(h2, k as nat),
        ) by {
            lemma_level_dim_shift(w, k as nat);
            lemma_level_dim_shift(h, k as nat);
            assert(tail[k] == m[k + 1]);
            assert((k as nat + 1) as nat == (k + 1) as nat);
        }
        assert forall|k: int, i: int, j: int|
            1 <= k < tail.len() && 0 <= i < level_dim(w2, k as nat) && 0 <= j < level_dim(
                h2,
                k as nat,
            ) implies #[trigger] tail[k][i][j] == block_sum(
            tail[k - 1],
            level_dim(w2, (k - 1) as nat),
            level_dim(h2, (k - 1) as nat),
            i,
            j,
        ) by {
            lemma_level_dim_shift(w, k as nat);
            lemma_level_dim_shift(h, k as nat);
            lemma_level_dim_shift(w, (k - 1) as nat);
            lemma_level_dim_shift(h, (k - 1) as nat);
            assert(tail[k] == m[k + 1] && tail[k - 1] == m[k]);
            assert(m[k + 1][i][j] == block_sum(
                m[k],
                level_dim(w, k as nat),
                level_dim(h, k as nat),
                i,
                j,
            ));
        }
        lemma_pyramid_unique_rec(tail, w2, h2);
        assert(m =~= seq![m[0]] + pyramid_of(agg_grid(m[0], w, h), w2, h2));
    }
}

/// A well-formed pyramid satisfying the aggregate invariant is exactly the
/// mathematical pyramid of its base grid.
pub proof fn lemma_pyramid_unique(m: &AggregateMountain)
    requires
        m.wf(),
        m.agg_ok(),
    ensures
        m@ == pyramid_of(m@[0], m.lw(0), m.lh(0)),
{
    assert forall|k: int| 0 <= k < m@.len() implies grid_wf(
        #[trigger] m@[k],
        level_dim(m.lw(0), k as nat),
        level_dim(m.lh(0), k as nat),
    ) by {
        lemma_wf_dim_at(m, k);
    }
    assert forall|k: int, i: int, j: int|
        1 <= k < m@.len() && 0 <= i < level_dim(m.lw(0), k as nat) && 0 <= j < level_dim(
            m.lh(0),
            k as nat,
        ) implies #[trigger] m@[k][i][j] == block_sum(
        m@[k - 1],
        level_dim(m.lw(0), (k - 1) as nat),
        level_dim(m.lh(0), (k - 1) as nat),
        i,
        j,
    ) by {
        lemma_wf_dim_at(m, k);
        lemma_wf_dim_at(m, k - 1);
    }
    lemma_pyramid_unique_rec(m@, m.lw(0), m.lh(0));
}

} // verus!
