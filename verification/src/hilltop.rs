//! The suppression and iteration controller: build the difference map and
//! its pyramid, then repeat `top_n` times — fetch the approximate maximum,
//! refine it, record it, and (between iterations) suppress a neighbourhood
//! around it and rebuild the affected pyramid cells.

use vstd::prelude::*;
use crate::pixel::{Image, Pixel, rgb_diff, diff_val};
use crate::grid::{
    grid_view, grid_wf, grid_bounded, rect_sum, col_sum, fold_best, lemma_rect_sum_bounds,
    lemma_col_sum_bounds, lemma_fold_best_facts,
};
use crate::pyramid::{
    Level, XY, AggregateMountain, cellf, fetch_at, pyramid_of, in_srect, lemma_agg_restored,
    lemma_agg_after_full, lemma_pyramid_unique,
};
use crate::refine::{Rectangle, rect_range_spec, dist2, refine_spec, adjust_center_point};

verus! {

/// Why a request was rejected.
#[derive(Clone, Copy, Debug, PartialEq, Eq, Structural)]
pub enum HilltopError {
    InvalidInput,
}

/// One reported peak: its pixel position and its refined score.
#[derive(Clone, Copy, Debug, PartialEq, Eq, Structural)]
pub struct Point {
    x: usize,
    y: usize,
    weight: u64,
}

impl Point {
    pub closed spec fn spec_x(&self) -> int {
        self.x as int
    }

    pub closed spec fn spec_y(&self) -> int {
        self.y as int
    }

    pub closed spec fn spec_weight(&self) -> int {
        self.weight as int
    }

    fn new(x: usize, y: usize, weight: u64) -> (p: Point)
        ensures
            p.spec_x() == x,
            p.spec_y() == y,
            p.spec_weight() == weight,
    {
        Point { x, y, weight }
    }

    pub fn get_x(&self) -> (r: u32)
        requires
            self.spec_x() <= 0xFFFF_FFFF,
        ensures
            r == self.spec_x(),
    {
        self.x as u32
    }

    pub fn get_y(&self) -> (r: u32)
        requires
            self.spec_y() <= 0xFFFF_FFFF,
        ensures
            r == self.spec_y(),
    {
        self.y as u32
    }

    pub fn get_weight(&self) -> (r: u64)
        ensures
            r == self.spec_weight(),
    {
        self.weight
    }
}

/// The inputs of one run: the two images, the expected feature diameter
/// (`ch_size`) and the number of peaks to extract.
pub struct HilltopParamAndResult {
    pub background_image: Image,
    pub challenge_image: Image,
    pub ch_size: u32,
    pub top_n: usize,
    pub avg_diff: u32,
}

impl HilltopParamAndResult {
    pub fn new(
        background_image: Image,
        challenge_image: Image,
        ch_size: u32,
        top_n: usize,
    ) -> (r: HilltopParamAndResult)
        ensures
            r.background_image == background_image,
            r.challenge_image == challenge_image,
            r.ch_size == ch_size,
            r.top_n == top_n,
            r.avg_diff == 0,
    {
        HilltopParamAndResult { background_image, challenge_image, ch_size, top_n, avg_diff: 0 }
    }
}

/// The per-pixel difference grid of two equally sized images: cell `(i, j)`
/// is the L1 colour distance of the two pixels there.
pub open spec fn diff_grid(a: Seq<Seq<Pixel>>, b: Seq<Seq<Pixel>>, w: int, h: int) -> Seq<
    Seq<u64>,
> {
    Seq::new(w as nat, |i: int| Seq::new(h as nat, |j: int| diff_val(a[i][j], b[i][j]) as u64))
}

/// How much suppression subtracts from a cell at squared distance `d2` from
/// the suppressed point: `max_diff` scaled by the quadratic decay
/// `1 - (d / s)^2 / 2.25`, clamped so the stored value never goes below zero.
pub open spec fn suppress_dec(v: int, md: int, d2: int, s: int) -> int {
    let den = 9 * s * s;
    if 4 * d2 <= den {
        let dec = md * (den - 4 * d2) / den;
        if v >= dec {
            v - dec
        } else {
            0
        }
    } else {
        v
    }
}

/// The difference map after suppressing the neighbourhood of `(px, py)`:
/// inside the clamped window of half-side `s / 2`, each cell loses a
/// quadratic share of the window's maximum; outside it, nothing changes.
pub open spec fn suppress_spec(
    g: Seq<Seq<u64>>,
    w: int,
    h: int,
    px: int,
    py: int,
    s: int,
) -> Seq<Seq<u64>> {
    let r = rect_range_spec(px, py, s, w, h);
    let md = fold_best((0, 0, 0), r.0, r.2 + 1, r.1, r.3 + 1, 0, 0, cellf(g)).2;
    Seq::new(
        w as nat,
        |i: int|
            Seq::new(
                h as nat,
                |j: int|
                    if r.0 <= i <= r.2 && r.1 <= j <= r.3 {
                        suppress_dec(g[i][j] as int, md, dist2(i, j, px, py), s) as u64
                    } else {
                        g[i][j]
                    },
            ),
    )
}

/// The whole run as a mathematical function: each step fetches the
/// approximate maximum of the pyramid induced by the current base, refines
/// it against the raw map and the current base, emits it, and (except after
/// the last step) suppresses its neighbourhood in the base.
pub open spec fn run_spec(
    raw: Seq<Seq<u64>>,
    base: Seq<Seq<u64>>,
    w: int,
    h: int,
    s: int,
    n: nat,
) -> Seq<(int, int, int)>
    decreases n,
{
    if n == 0 {
        Seq::empty()
    } else {
        let c = fetch_at(pyramid_of(base, w, h), 0);
        let r = refine_spec(raw, base, w, h, c, s);
        let base2 = if n == 1 {
            base
        } else {
            suppress_spec(base, w, h, r.0, r.1, s)
        };
        seq![r] + run_spec(raw, base2, w, h, s, (n - 1) as nat)
    }
}

/// The inputs on which a run is defined: equal dimensions, both within the
/// supported range, and a positive feature size.
pub open spec fn valid_params(p: &HilltopParamAndResult) -> bool {
    &&& p.background_image.spec_width() == p.challenge_image.spec_width()
    &&& p.background_image.spec_height() == p.challenge_image.spec_height()
    &&& 1 <= p.challenge_image.spec_width() <= 65536
    &&& 1 <= p.challenge_image.spec_height() <= 65536
    &&& 1 <= p.ch_size <= 65536
}

/// The same images, feature size and count always produce the same peak
/// sequence: the run is a pure function of its inputs, with no hidden state.
pub proof fn lemma_find_top_n_deterministic(p: &HilltopParamAndResult, q: &HilltopParamAndResult)
    requires
        p.background_image@ == q.background_image@,
        p.challenge_image@ == q.challenge_image@,
        p.background_image.spec_width() == q.background_image.spec_width(),
        p.background_image.spec_height() == q.background_image.spec_height(),
        p.challenge_image.spec_width() == q.challenge_image.spec_width(),
        p.challenge_image.spec_height() == q.challenge_image.spec_height(),
        p.ch_size == q.ch_size,
        p.top_n == q.top_n,
    ensures
        ({
            let w = p.challenge_image.spec_width() as int;
            let h = p.challenge_image.spec_height() as int;
            let dg = diff_grid(p.challenge_image@, p.background_image@, w, h);
            let dq = diff_grid(q.challenge_image@, q.background_image@, w, h);
            &&& dg == dq
            &&& run_spec(dg, dg, w, h, p.ch_size as int, p.top_n as nat) == run_spec(
                dq,
                dq,
                w,
                h,
                q.ch_size as int,
                q.top_n as nat,
            )
        }),
{
}

/// Building the difference map and the pyramid twice from the same two
/// images yields identical grids: both are mathematical functions of the
/// pixel data alone.
pub proof fn lemma_build_idempotent(
    a: &Image,
    b: &Image,
    c: &Image,
    d: &Image,
    w: int,
    h: int,
)
    requires
        a@ == c@,
        b@ == d@,
    ensures
        diff_grid(a@, b@, w, h) == diff_grid(c@, d@, w, h),
        pyramid_of(diff_grid(a@, b@, w, h), w, h) == pyramid_of(diff_grid(c@, d@, w, h), w, h),
{
}

/// Compute the difference map of two equally sized images, and the total
/// difference across all pixels.
#[verifier::loop_isolation(false)]
fn build_diff_map(bg: &Image, cg: &Image) -> (r: (Vec<Vec<u64>>, u64))
    requires
        bg.wf(),
        cg.wf(),
        bg.spec_width() == cg.spec_width(),
        bg.spec_height() == cg.spec_height(),
        1 <= cg.spec_width() <= 65536,
        1 <= cg.spec_height() <= 65536,
    ensures
        ({
            let w = cg.spec_width() as int;
            let h = cg.spec_height() as int;
            let dg = diff_grid(cg@, bg@, w, h);
            &&& grid_view(r.0@) == dg
            &&& r.0@.len() == w
            &&& forall|i: int| 0 <= i < w ==> (#[trigger] r.0@[i])@.len() == h
            &&& r.1 as int == rect_sum(dg, 0, w, 0, h)
        }),
{
    let w = cg.width();
    let h = cg.height();
    let ghost dg = diff_grid(cg@, bg@, w as int, h as int);
    proof {
        assert forall|i: int, j: int| 0 <= i < w && 0 <= j < h implies 0 <= #[trigger] dg[i][j]
            <= 765 by {
            assert(dg[i][j] == diff_val(cg@[i][j], bg@[i][j]) as u64);
        }
    }
    let mut diff: Vec<Vec<u64>> = Vec::new();
    let mut total: u64 = 0;
    let mut i: usize = 0;
    while i < w
        invariant
            i <= w,
            diff@.len() == i,
            forall|a: int| 0 <= a < i ==> (#[trigger] diff@[a])@.len() == h,
            forall|a: int, b: int| 0 <= a < i && 0 <= b < h ==> #[trigger] diff@[a]@[b] == dg[a][b],
            total as int == rect_sum(dg, 0, i as int, 0, h as int),
            total <= 0x4000_0000_0000,
        decreases w - i,
    {
        let mut col: Vec<u64> = Vec::new();
        let mut j: usize = 0;
        while j < h
            invariant
                j <= h,
                i < w,
                col@.len() == j,
                forall|b: int| 0 <= b < j ==> #[trigger] col@[b] == dg[i as int][b],
                total as int == rect_sum(dg, 0, i as int, 0, h as int) + col_sum(
                    dg,
                    i as int,
                    0,
                    j as int,
                ),
                total <= 0x4000_0000_0000,
            decreases h - j,
        {
            let d = rgb_diff(cg.get_pixel(i, j), bg.get_pixel(i, j)) as u64;
            proof {
                assert(dg[i as int][j as int] == d);
                lemma_rect_sum_bounds(dg, 0, i as int, 0, h as int, 765);
                lemma_col_sum_bounds(dg, i as int, 0, j as int, 765);
                assert(765 * ((i as int) * (h as int)) + 765 * (j as int) + 765
                    <= 0x4000_0000_0000) by (nonlinear_arith)
                    requires
                        0 <= i as int <= 65536,
                        0 <= h as int <= 65536,
                        0 <= j as int <= 65536,
                ;
            }
            total = total + d;
            col.push(d);
            j = j + 1;
        }
        diff.push(col);
        i = i + 1;
    }
    proof {
        assert(grid_view(diff@) =~~= dg);
    }
    (diff, total)
}

/// Flatten the neighbourhood of a just-reported peak: subtract a quadratic
/// share of the window's maximum from every cell of the clamped window of
/// half-side `ch_size / 2`, clamping at zero, then rebuild the pyramid cells
/// over that window.
#[verifier::loop_isolation(false)]
#[verifier::rlimit(60)]
pub fn trip_aggregate_mountain(mountain: &mut AggregateMountain, top_xy: XY, ch_size: usize)
    requires
        old(mountain).wf(),
        old(mountain).agg_ok(),
        grid_bounded(old(mountain)@[0], old(mountain).lw(0), old(mountain).lh(0), 765),
        top_xy.x < old(mountain).lw(0),
        top_xy.y < old(mountain).lh(0),
        1 <= ch_size <= 65536,
    ensures
        final(mountain).wf(),
        final(mountain).agg_ok(),
        final(mountain).num() == old(mountain).num(),
        final(mountain).lw(0) == old(mountain).lw(0),
        final(mountain).lh(0) == old(mountain).lh(0),
        grid_bounded(final(mountain)@[0], old(mountain).lw(0), old(mountain).lh(0), 765),
        final(mountain)@[0] == suppress_spec(
            old(mountain)@[0],
            old(mountain).lw(0),
            old(mountain).lh(0),
            top_xy.x as int,
            top_xy.y as int,
            ch_size as int,
        ),
        final(mountain)@ == pyramid_of(
            final(mountain)@[0],
            old(mountain).lw(0),
            old(mountain).lh(0),
        ),
        old(mountain)@[0][top_xy.x as int][top_xy.y as int] > 0
            ==> final(mountain)@[0][top_xy.x as int][top_xy.y as int]
            < old(mountain)@[0][top_xy.x as int][top_xy.y as int],
        forall|i: int, j: int|
            0 <= i < old(mountain).lw(0) && 0 <= j < old(mountain).lh(0) && 4 * dist2(
                i,
                j,
                top_xy.x as int,
                top_xy.y as int,
            ) >= 9 * (ch_size as int) * (ch_size as int) ==> final(mountain)@[0][i][j] == old(
                mountain,
            )@[0][i][j],
{
    let w = mountain.level_width(0);
    let h = mountain.level_height(0);
    let ghost px = top_xy.x as int;
    let ghost py = top_xy.y as int;
    let ghost si = ch_size as int;
    let ghost g0 = mountain@[0];
    let ghost sup = suppress_spec(g0, w as int, h as int, px, py, si);
    let rect = Rectangle::rectangle_range(top_xy.x, top_xy.y, ch_size, w, h);
    proof {
        assert(rect.top_x <= top_xy.x && top_xy.x <= rect.bottom_x);
        assert(rect.top_y <= top_xy.y && top_xy.y <= rect.bottom_y);
    }
    let md_xy = mountain.scan_rect(0, rect.top_x, rect.bottom_x + 1, rect.top_y, rect.bottom_y + 1);
    let max_diff = md_xy.weight;
    proof {
        lemma_fold_best_facts(
            (0, 0, 0),
            rect.top_x as int,
            rect.bottom_x as int + 1,
            rect.top_y as int,
            rect.bottom_y as int + 1,
            0,
            0,
            cellf(g0),
        );
        assert(max_diff <= 765);
        assert(max_diff as int >= cellf(g0)(px, py));
        assert(9 * si * si <= 0x9_0000_0000) by (nonlinear_arith)
            requires
                1 <= si <= 65536,
        ;
    }
    let den: u64 = 9 * (ch_size as u64) * (ch_size as u64);
    proof {
        assert(den as int == 9 * si * si && 9 <= den <= 0x9_0000_0000) by (nonlinear_arith)
            requires
                1 <= si <= 65536,
                den as int == 9 * si * si,
        ;
    }
    let mut x = rect.top_x;
    while x <= rect.bottom_x
        invariant
            rect.top_x <= x <= rect.bottom_x + 1,
            mountain.num() == old(mountain).num(),
            forall|t: int|
                0 <= t < mountain.num() ==> #[trigger] mountain.lw(t) == old(mountain).lw(t),
            forall|t: int|
                0 <= t < mountain.num() ==> #[trigger] mountain.lh(t) == old(mountain).lh(t),
            forall|t: int| 1 <= t < mountain.num() ==> #[trigger] mountain@[t] == old(mountain)@[t],
            forall|t: int|
                0 <= t < mountain.num() ==> grid_wf(
                    #[trigger] mountain@[t],
                    mountain.lw(t),
                    mountain.lh(t),
                ),
            grid_bounded(mountain@[0], w as int, h as int, 765),
            forall|a: int, b: int|
                0 <= a < w && 0 <= b < h ==> #[trigger] mountain@[0][a][b] == (if rect.top_x as int
                    <= a < x as int && rect.top_y as int <= b <= rect.bottom_y as int {
                    sup[a][b]
                } else {
                    g0[a][b]
                }),
        decreases rect.bottom_x + 1 - x,
    {
        let mut y = rect.top_y;
        while y <= rect.bottom_y
            invariant
                rect.top_y <= y <= rect.bottom_y + 1,
                rect.top_x <= x <= rect.bottom_x,
                mountain.num() == old(mountain).num(),
                forall|t: int|
                    0 <= t < mountain.num() ==> #[trigger] mountain.lw(t) == old(mountain).lw(t),
                forall|t: int|
                    0 <= t < mountain.num() ==> #[trigger] mountain.lh(t) == old(mountain).lh(t),
                forall|t: int|
                    1 <= t < mountain.num() ==> #[trigger] mountain@[t] == old(mountain)@[t],
                forall|t: int|
                    0 <= t < mountain.num() ==> grid_wf(
                        #[trigger] mountain@[t],
                        mountain.lw(t),
                        mountain.lh(t),
                    ),
                grid_bounded(mountain@[0], w as int, h as int, 765),
                forall|a: int, b: int|
                    0 <= a < w && 0 <= b < h ==> #[trigger] mountain@[0][a][b] == (if (rect.top_x
                        as int <= a < x as int && rect.top_y as int <= b <= rect.bottom_y as int)
                        || (a == x as int && rect.top_y as int <= b < y as int) {
                        sup[a][b]
                    } else {
                        g0[a][b]
                    }),
            decreases rect.bottom_y + 1 - y,
        {
            let v = mountain.cell(0, x, y);
            let dx = if x >= top_xy.x {
                (x - top_xy.x) as u64
            } else {
                (top_xy.x - x) as u64
            };
            let dy = if y >= top_xy.y {
                (y - top_xy.y) as u64
            } else {
                (top_xy.y - y) as u64
            };
            proof {
                assert(dx <= 65536 && dy <= 65536);
                assert(dx * dx <= 0x1_0000_0000 && dy * dy <= 0x1_0000_0000) by (nonlinear_arith)
                    requires
                        dx <= 65536,
                        dy <= 65536,
                ;
            }
            let d2 = dx * dx + dy * dy;
            proof {
                assert(d2 as int == dist2(x as int, y as int, px, py)) by (nonlinear_arith)
                    requires
                        dx as int == (if x as int >= px {
                            x - px
                        } else {
                            px - x
                        }),
                        dy as int == (if y as int >= py {
                            y - py
                        } else {
                            py - y
                        }),
                        d2 == dx * dx + dy * dy,
                ;
            }
            let nv: u64 = if 4 * d2 <= den {
                proof {
                    assert(max_diff * (den - 4 * d2) <= 765 * 0x9_0000_0000) by (nonlinear_arith)
                        requires
                            max_diff <= 765,
                            den - 4 * d2 <= 0x9_0000_0000,
                            0 <= den - 4 * d2,
                    ;
                }
                let dec = max_diff * (den - 4 * d2) / den;
                if v >= dec {
                    v - dec
                } else {
                    0
                }
            } else {
                v
            };
            proof {
                assert(nv as int == suppress_dec(v as int, max_diff as int, d2 as int, si));
                assert(sup[x as int][y as int] == nv);
            }
            let ghost before = *mountain;
            mountain.levels[0].set_cell(x, y, nv);
            proof {
                assert(mountain.levels@ == before.levels@.update(0, mountain.levels@[0]));
                assert forall|t: int| 0 <= t < mountain.num() && t != 0 implies #[trigger] mountain@[t]
                    == before@[t] by {
                    assert(mountain.levels@[t] == before.levels@[t]);
                }
                assert forall|t: int| 0 <= t < mountain.num() implies #[trigger] mountain.lw(t)
                    == before.lw(t) by {
                    if t != 0 {
                        assert(mountain.levels@[t] == before.levels@[t]);
                    }
                }
                assert forall|t: int| 0 <= t < mountain.num() implies #[trigger] mountain.lh(t)
                    == before.lh(t) by {
                    if t != 0 {
                        assert(mountain.levels@[t] == before.levels@[t]);
                    }
                }
                assert(mountain@[0] == before@[0].update(
                    x as int,
                    before@[0][x as int].update(y as int, nv),
                ));
            }
            y = y + 1;
        }
        x = x + 1;
    }
    proof {
        assert(mountain@[0] =~~= sup);
    }
    let ghost mid = *mountain;
    mountain.invalid_rectangle(rect.top_x, rect.top_y, rect.bottom_x, rect.bottom_y);
    proof {
        let ghost s0 = *old(mountain);
        assert forall|i: int, j: int|
            0 <= i < s0.lw(0) && 0 <= j < s0.lh(0) && !(rect.top_x as int <= i <= rect.bottom_x
                as int && rect.top_y as int <= j <= rect.bottom_y as int) implies mountain@[0][i][j]
            == #[trigger] s0@[0][i][j] by {
            assert(mountain@[0][i][j] == mid@[0][i][j]);
            assert(mid@[0][i][j] == g0[i][j]);
        }
        assert forall|t: int, i: int, j: int|
            1 <= t < mountain.num() && 0 <= i < mountain.lw(t) && 0 <= j < mountain.lh(t)
                && !in_srect(
                rect.top_x as int,
                rect.bottom_x as int,
                rect.top_y as int,
                rect.bottom_y as int,
                t as nat,
                i,
                j,
            ) implies #[trigger] mountain@[t][i][j] == s0@[t][i][j] by {
            assert(mountain@[t][i][j] == mid@[t][i][j]);
            assert(mid@[t] == s0@[t]);
        }
        lemma_agg_restored(
            &s0,
            mountain,
            rect.top_x as int,
            rect.bottom_x as int,
            rect.top_y as int,
            rect.bottom_y as int,
        );
        lemma_pyramid_unique(mountain);
        // the centre cell drops to zero when it was positive
        assert(mountain@[0][px][py] == sup[px][py]);
        assert(suppress_dec(g0[px][py] as int, max_diff as int, 0, si) == 0) by {
            assert(9 * si * si > 0) by (nonlinear_arith)
                requires
                    si >= 1,
            ;
            assert(max_diff as int * (9 * si * si - 0) / (9 * si * si) == max_diff as int)
                by (nonlinear_arith)
                requires
                    9 * si * si > 0,
                    max_diff >= 0,
            ;
            assert(g0[px][py] <= max_diff);
        }
        assert(dist2(px, py, px, py) == 0);
        // cells at normalized distance >= 1.5 lie outside the window
        assert forall|i: int, j: int|
            0 <= i < s0.lw(0) && 0 <= j < s0.lh(0) && 4 * dist2(i, j, px, py) >= 9 * si * si
            implies mountain@[0][i][j] == s0@[0][i][j] by {
            if rect.top_x as int <= i <= rect.bottom_x as int && rect.top_y as int <= j
                <= rect.bottom_y as int {
                assert(4 * dist2(i, j, px, py) < 9 * si * si) by (nonlinear_arith)
                    requires
                        dist2(i, j, px, py) == (i - px) * (i - px) + (j - py) * (j - py),
                        -(si / 2) <= i - px <= si / 2,
                        -(si / 2) <= j - py <= si / 2,
                        1 <= si,
                ;
            }
        }
    }
}

} // verus!

verus! {

/// The run model emits exactly `n` peaks.
pub proof fn lemma_run_len(
    raw: Seq<Seq<u64>>,
    base: Seq<Seq<u64>>,
    w: int,
    h: int,
    s: int,
    n: nat,
)
    ensures
        run_spec(raw, base, w, h, s, n).len() == n,
    decreases n,
{
    if n > 0 {
        let c = fetch_at(pyramid_of(base, w, h), 0);
        let r = refine_spec(raw, base, w, h, c, s);
        let base2 = if n == 1 {
            base
        } else {
            suppress_spec(base, w, h, r.0, r.1, s)
        };
        lemma_run_len(raw, base2, w, h, s, (n - 1) as nat);
    }
}

/// One step of the run model: peel the first element off the remaining
/// output sequence and step the base grid.
proof fn lemma_run_step(
    dg: Seq<Seq<u64>>,
    cur: Seq<Seq<u64>>,
    wi: int,
    hi: int,
    si: int,
    run0: Seq<(int, int, int)>,
    i: int,
    n: int,
)
    requires
        0 <= i < n,
        run0.len() == n,
        run_spec(dg, cur, wi, hi, si, (n - i) as nat) == run0.subrange(i, n),
    ensures
        ({
            let c = fetch_at(pyramid_of(cur, wi, hi), 0);
            let rr = refine_spec(dg, cur, wi, hi, c, si);
            let base2 = if n - i == 1 {
                cur
            } else {
                suppress_spec(cur, wi, hi, rr.0, rr.1, si)
            };
            &&& run0[i] == rr
            &&& run_spec(dg, base2, wi, hi, si, (n - i - 1) as nat) == run0.subrange(i + 1, n)
        }),
{
    let n_rem = (n - i) as nat;
    let c = fetch_at(pyramid_of(cur, wi, hi), 0);
    let rr = refine_spec(dg, cur, wi, hi, c, si);
    let base2 = if n - i == 1 {
        cur
    } else {
        suppress_spec(cur, wi, hi, rr.0, rr.1, si)
    };
    assert(run_spec(dg, cur, wi, hi, si, n_rem) == seq![rr] + run_spec(
        dg,
        base2,
        wi,
        hi,
        si,
        (n_rem - 1) as nat,
    ));
    assert(run0.subrange(i, n)[0] == run0[i]);
    assert(run0[i] == rr);
    assert(run_spec(dg, base2, wi, hi, si, (n - i - 1) as nat) =~= run0.subrange(i + 1, n)) by {
        let tail = run_spec(dg, base2, wi, hi, si, (n - i - 1) as nat);
        assert forall|t: int| 0 <= t < n - i - 1 implies tail[t] == run0.subrange(i + 1, n)[t] by {
            assert(tail[t] == (seq![rr] + tail)[t + 1]);
            assert(run0.subrange(i, n)[t + 1] == run0[i + 1 + t]);
        }
    }
}

/// Locate the `top_n` strongest localized differences between the two
/// images: repeatedly fetch the pyramid's approximate maximum, refine it,
/// record it, and suppress its neighbourhood.  Returns the peaks in
/// extraction order together with the mean per-pixel difference.  Inputs
/// with mismatched or out-of-range dimensions, or a zero feature size, are
/// rejected; `top_n == 0` yields an empty sequence.
#[verifier::loop_isolation(false)]
#[verifier::rlimit(100)]
#[verifier::spinoff_prover]
pub fn find_top_n(result: HilltopParamAndResult) -> (r: Result<(Vec<Point>, u64), HilltopError>)
    requires
        result.background_image.wf(),
        result.challenge_image.wf(),
    ensures
        r is Ok <==> valid_params(&result),
        match r {
            Ok(pm) => ({
                let w = result.challenge_image.spec_width() as int;
                let h = result.challenge_image.spec_height() as int;
                let dg = diff_grid(result.challenge_image@, result.background_image@, w, h);
                let run = run_spec(dg, dg, w, h, result.ch_size as int, result.top_n as nat);
                &&& pm.0@.len() == result.top_n
                &&& pm.1 as int == rect_sum(dg, 0, w, 0, h) / (w * h)
                &&& forall|idx: int|
                    0 <= idx < result.top_n ==> (#[trigger] pm.0@[idx]).spec_x() == run[idx].0
                        && pm.0@[idx].spec_y() == run[idx].1 && pm.0@[idx].spec_weight()
                        == run[idx].2
                &&& forall|idx: int|
                    0 <= idx < result.top_n ==> (#[trigger] pm.0@[idx]).spec_x() < w
                        && pm.0@[idx].spec_y() < h
            }),
            Err(e) => e == HilltopError::InvalidInput,
        },
{
    let bw = result.background_image.width();
    let bh = result.background_image.height();
    let width = result.challenge_image.width();
    let height = result.challenge_image.height();
    if !(bw == width && bh == height && width >= 1 && height >= 1 && width <= 65536 && height
        <= 65536 && result.ch_size >= 1 && result.ch_size <= 65536) {
        return Err(HilltopError::InvalidInput);
    }
    let ch_size = result.ch_size as usize;
    let ghost wi = width as int;
    let ghost hi = height as int;
    let ghost si = ch_size as int;
    let ghost n = result.top_n as int;
    let ghost dg = diff_grid(result.challenge_image@, result.background_image@, wi, hi);
    let ghost run0 = run_spec(dg, dg, wi, hi, si, result.top_n as nat);
    let (diff, total) = build_diff_map(&result.background_image, &result.challenge_image);
    let (calculate_diff, _unused_total) = build_diff_map(
        &result.background_image,
        &result.challenge_image,
    );
    let raw_level = Level { data: diff, width, height };
    proof {
        assert(raw_level.grid() == dg);
        assert forall|a: int, b: int| 0 <= a < wi && 0 <= b < hi implies #[trigger] dg[a][b]
            <= 765 by {
            assert(dg[a][b] == diff_val(result.challenge_image@[a][b], result.background_image@[a][b]) as u64);
        }
    }
    let mut mountain = AggregateMountain::new(calculate_diff, width, height);
    mountain.gen_aggregate_mountain_mapping();
    mountain.invalid_rectangle(0, 0, width - 1, height - 1);
    proof {
        lemma_agg_after_full(&mountain);
        lemma_pyramid_unique(&mountain);
        assert(mountain@[0] == dg);
    }
    proof {
        assert(1 <= (width as int) * (height as int) <= 0x1_0000_0000) by (nonlinear_arith)
            requires
                1 <= width as int <= 65536,
                1 <= height as int <= 65536,
        ;
        lemma_run_len(dg, dg, wi, hi, si, result.top_n as nat);
        assert(run0.subrange(0, n) =~= run0);
    }
    let avg_diff = total / ((width as u64) * (height as u64));
    let mut ret: Vec<Point> = Vec::new();
    let mut i: usize = 0;
    while i < result.top_n
        invariant
            i <= result.top_n,
            ret@.len() == i,
            mountain.wf(),
            mountain.agg_ok(),
            mountain.lw(0) == width,
            mountain.lh(0) == height,
            grid_bounded(mountain@[0], wi, hi, 765),
            mountain@ == pyramid_of(mountain@[0], wi, hi),
            forall|idx: int|
                0 <= idx < i ==> (#[trigger] ret@[idx]).spec_x() == run0[idx].0 && ret@[idx].spec_y()
                    == run0[idx].1 && ret@[idx].spec_weight() == run0[idx].2,
            forall|idx: int|
                0 <= idx < i ==> (#[trigger] ret@[idx]).spec_x() < wi && ret@[idx].spec_y() < hi,
            run_spec(dg, mountain@[0], wi, hi, si, (result.top_n - i) as nat) == run0.subrange(
                i as int,
                n,
            ),
        decreases result.top_n - i,
    {
        let ghost cur = mountain@[0];
        let top = mountain.fetch_top_point();
        let top_xy = adjust_center_point(top, &mountain, ch_size, &raw_level);
        ret.push(Point::new(top_xy.x, top_xy.y, top_xy.weight));
        proof {
            lemma_run_step(dg, cur, wi, hi, si, run0, i as int, n);
            assert(top.t() == fetch_at(pyramid_of(cur, wi, hi), 0));
            assert(top_xy.t() == run0[i as int]);
        }
        if i + 1 < result.top_n {
            trip_aggregate_mountain(&mut mountain, top_xy, ch_size);
        }
        i = i + 1;
        proof {
            if i < result.top_n {
                assert(run_spec(dg, mountain@[0], wi, hi, si, (result.top_n - i) as nat)
                    == run0.subrange(i as int, n));
            } else {
                assert(run_spec(dg, mountain@[0], wi, hi, si, 0) =~= run0.subrange(i as int, n));
            }
        }
    }
    proof {
        assert((total as int) / ((wi * hi) as int) == rect_sum(dg, 0, wi, 0, hi) / (wi * hi));
    }
    Ok((ret, avg_diff))
}

} // verus!
