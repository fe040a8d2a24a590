//! Peak refinement: re-localize a coarse pyramid candidate by scoring a
//! neighbourhood with a radial decay kernel, first over a down-sampled
//! "short-cut" grid (with cubed values, to favour concentrated energy), then
//! per pixel against the difference map.
//!
//! The kernel is a fixed-point rendering of a smooth radial falloff: weight
//! `1024` at the centre, `0` at the window's corner-reaching radius, computed
//! as `(1 - r)^2 * (1 + 2 r)` in units of `1/1024` for the normalized
//! distance `r` — a polynomial falloff with the same endpoints and slopes as
//! the cosine bump `(cos(pi r) + 1) / 2`.

use vstd::prelude::*;
use crate::grid::{
    grid_view, grid_wf, grid_bounded, rect_sum, col_sum, fold_best, fold_best_col,
    lemma_rect_sum_bounds, lemma_col_sum_bounds, lemma_fold_best_facts,
};
use crate::pyramid::{Level, XY, AggregateMountain, min_i};

verus! {

/// Linear scan for the integer square root, counting up from 1.
pub open spec fn sqrt_from(x: int, a: int) -> int
    decreases x + 1 - a,
{
    if a >= 1 && a <= x && a * a <= x {
        sqrt_from(x, a + 1)
    } else {
        a - 1
    }
}

pub open spec fn sqrt_spec(x: int) -> int {
    sqrt_from(x, 1)
}

proof fn lemma_sqrt_from(x: int, a: int)
    requires
        1 <= a,
        (a - 1) * (a - 1) <= x,
    ensures
        ({
            let r = sqrt_from(x, a);
            &&& a - 1 <= r
            &&& r * r <= x
            &&& x < (r + 1) * (r + 1)
        }),
    decreases x + 1 - a,
{
    if a <= x && a * a <= x {
        lemma_sqrt_from(x, a + 1);
    } else {
        assert(a * a > x) by (nonlinear_arith)
            requires
                1 <= a,
                !(a <= x && a * a <= x),
        ;
    }
}

pub proof fn lemma_sqrt_spec(x: int)
    requires
        0 <= x,
    ensures
        0 <= sqrt_spec(x),
        sqrt_spec(x) * sqrt_spec(x) <= x,
        x < (sqrt_spec(x) + 1) * (sqrt_spec(x) + 1),
{
    lemma_sqrt_from(x, 1);
}

/// Largest integer whose square does not exceed `x`.
pub fn sqrt(x: usize) -> (r: usize)
    requires
        x <= 0x10_0000,
    ensures
        r as int == sqrt_spec(x as int),
        (r as int) * (r as int) <= x as int,
        (x as int) < (r as int + 1) * (r as int + 1),
        x >= 1 ==> r >= 1,
{
    let xx = x as u64;
    let mut a: u64 = 1;
    while a <= xx && a * a <= xx
        invariant
            1 <= a,
            xx == x as u64,
            x <= 0x10_0000,
            a <= xx + 1,
            (a as int) * (a as int) <= 0x4_0000_0000_0000,
            (a - 1) * (a - 1) <= xx,
            sqrt_from(x as int, a as int) == sqrt_spec(x as int),
        decreases xx + 1 - a,
    {
        proof {
            assert((a + 1 - 1) * (a + 1 - 1) <= xx);
            assert(((a + 1) as int) * ((a + 1) as int) <= 0x4_0000_0000_0000) by (nonlinear_arith)
                requires
                    a <= 0x10_0000,
            ;
        }
        a = a + 1;
    }
    proof {
        lemma_sqrt_from(x as int, a as int);
        assert(sqrt_from(x as int, a as int) == a - 1);
        lemma_sqrt_spec(x as int);
        if x >= 1 {
            assert(a - 1 >= 1) by (nonlinear_arith)
                requires
                    x as int >= 1,
                    (x as int) < ((a - 1) + 1) * ((a - 1) + 1),
                    a >= 1,
            ;
        }
    }
    (a - 1) as usize
}

/// A clamped square window: corners `(top_x, top_y)`..`(bottom_x, bottom_y)`
/// inclusive, of half-side `slice_size / 2` around `(x, y)`, clamped to
/// `[0, total_width) x [0, total_height)`.
pub struct Rectangle {
    pub top_x: usize,
    pub top_y: usize,
    pub bottom_x: usize,
    pub bottom_y: usize,
}

pub open spec fn rect_range_spec(x: int, y: int, slice: int, tw: int, th: int) -> (
    int,
    int,
    int,
    int,
) {
    let half = slice / 2;
    let tx = if x > half {
        x - half
    } else {
        0
    };
    let ty = if y > half {
        y - half
    } else {
        0
    };
    let bx = if x + half >= tw {
        tw - 1
    } else {
        x + half
    };
    let by = if y + half >= th {
        th - 1
    } else {
        y + half
    };
    (tx, ty, bx, by)
}

impl Rectangle {
    pub fn rectangle_range(
        x: usize,
        y: usize,
        slice_size: usize,
        total_width: usize,
        total_height: usize,
    ) -> (r: Rectangle)
        requires
            total_width >= 1,
            total_height >= 1,
            x <= 0x40000,
            y <= 0x40000,
            slice_size <= 0x40000,
        ensures
            ({
                let t = rect_range_spec(
                    x as int,
                    y as int,
                    slice_size as int,
                    total_width as int,
                    total_height as int,
                );
                &&& r.top_x as int == t.0
                &&& r.top_y as int == t.1
                &&& r.bottom_x as int == t.2
                &&& r.bottom_y as int == t.3
                &&& r.top_x <= r.bottom_x < total_width || r.top_x > r.bottom_x
                &&& r.bottom_x < total_width
                &&& r.bottom_y < total_height
            }),
    {
        let half_slice_size = slice_size / 2;
        let top_x = if x > half_slice_size {
            x - half_slice_size
        } else {
            0
        };
        let top_y = if y > half_slice_size {
            y - half_slice_size
        } else {
            0
        };
        let mut right_bottom_x = x + half_slice_size;
        let mut right_bottom_y = y + half_slice_size;
        if right_bottom_x >= total_width {
            right_bottom_x = total_width - 1;
        }
        if right_bottom_y >= total_height {
            right_bottom_y = total_height - 1;
        }
        Rectangle { top_x, top_y, bottom_x: right_bottom_x, bottom_y: right_bottom_y }
    }
}

/// Squared distance between `(x, y)` and `(cx, cy)`.
pub open spec fn dist2(x: int, y: int, cx: int, cy: int) -> int {
    (x - cx) * (x - cx) + (y - cy) * (y - cy)
}

/// The fixed-point radial kernel: `0` outside the radius (`d2 > den`, where
/// `den` is the squared corner-reaching distance `2 * radius^2`), else
/// `(1 - r)^2 (1 + 2 r) * 1024` for `r = sqrt(d2 / den)`, evaluated in
/// integer arithmetic at scale `1024`.
pub open spec fn wq_spec(d2: int, den: int) -> int {
    if den <= 0 || d2 > den || d2 < 0 {
        0
    } else {
        let t = d2 * 1048576 / den;
        let rq = sqrt_spec(t);
        (1024 - rq) * (1024 - rq) * (1024 + 2 * rq) / 1048576
    }
}

pub proof fn lemma_wq_bounds(d2: int, den: int)
    ensures
        0 <= wq_spec(d2, den) <= 1024,
{
    if !(den <= 0 || d2 > den || d2 < 0) {
        let t = d2 * 1048576 / den;
        assert(0 <= t <= 1048576) by (nonlinear_arith)
            requires
                0 <= d2 <= den,
                den > 0,
                t == d2 * 1048576 / den,
        ;
        lemma_sqrt_spec(t);
        let rq = sqrt_spec(t);
        assert(rq <= 1024) by (nonlinear_arith)
            requires
                0 <= rq,
                rq * rq <= 1048576,
        ;
        assert(0 <= (1024 - rq) * (1024 - rq) * (1024 + 2 * rq) <= 1073741824)
            by (nonlinear_arith)
            requires
                0 <= rq <= 1024,
        ;
        assert(0 <= (1024 - rq) * (1024 - rq) * (1024 + 2 * rq) / 1048576 <= 1024)
            by (nonlinear_arith)
            requires
                0 <= (1024 - rq) * (1024 - rq) * (1024 + 2 * rq) <= 1073741824,
        ;
    }
}

/// Evaluate the radial kernel weight at squared distance `d2`.
fn kernel_weight(d2: u64, den: u64) -> (r: u64)
    requires
        d2 <= 0x10_0000_0000,
    ensures
        r as int == wq_spec(d2 as int, den as int),
        r <= 1024,
{
    proof {
        lemma_wq_bounds(d2 as int, den as int);
    }
    if den == 0 || d2 > den {
        0
    } else {
        let t = d2 * 1048576 / den;
        proof {
            assert(t <= 1048576) by (nonlinear_arith)
                requires
                    0 < den as int,
                    d2 as int <= den as int,
                    t as int == (d2 as int) * 1048576 / (den as int),
            ;
        }
        let rq = sqrt(t as usize) as u64;
        proof {
            lemma_sqrt_spec(t as int);
            assert((rq as int) * (rq as int) <= t as int);
            assert(rq <= 1024) by (nonlinear_arith)
                requires
                    0 <= rq,
                    t <= 1048576,
                    (rq as int) * (rq as int) <= t as int,
            ;
        }
        proof {
            assert(((1024 - rq) as int) * ((1024 - rq) as int) <= 0x10_0000 && ((1024 - rq) as int)
                * ((1024 - rq) as int) * ((1024 + 2 * rq) as int) <= 0x1_0000_0000_0000)
                by (nonlinear_arith)
                requires
                    rq <= 1024,
            ;
        }
        (1024 - rq) * (1024 - rq) * (1024 + 2 * rq) / 1048576
    }
}

/// One kernel-weighted term: the cell value (cubed in the short-cut pass)
/// times the kernel weight at its distance from the centre.
pub open spec fn wterm(v: int, x: int, y: int, cx: int, cy: int, den: int, cube: bool) -> int {
    let w = wq_spec(dist2(x, y, cx, cy), den);
    if cube {
        v * v * v * w
    } else {
        v * w
    }
}

pub open spec fn wcol_sum(
    g: Seq<Seq<u64>>,
    x: int,
    y0: int,
    y1: int,
    cx: int,
    cy: int,
    den: int,
    cube: bool,
) -> int
    decreases y1 - y0,
{
    if y1 <= y0 {
        0
    } else {
        wcol_sum(g, x, y0, y1 - 1, cx, cy, den, cube) + wterm(
            g[x][y1 - 1] as int,
            x,
            y1 - 1,
            cx,
            cy,
            den,
            cube,
        )
    }
}

/// Kernel-weighted sum over the rectangle `[x0, x1) x [y0, y1)` of `g`,
/// centred at `(cx, cy)`.
pub open spec fn wrect_sum(
    g: Seq<Seq<u64>>,
    x0: int,
    x1: int,
    y0: int,
    y1: int,
    cx: int,
    cy: int,
    den: int,
    cube: bool,
) -> int
    decreases x1 - x0,
{
    if x1 <= x0 {
        0
    } else {
        wrect_sum(g, x0, x1 - 1, y0, y1, cx, cy, den, cube) + wcol_sum(
            g,
            x1 - 1,
            y0,
            y1,
            cx,
            cy,
            den,
            cube,
        )
    }
}

pub proof fn lemma_wterm_bounds(v: int, x: int, y: int, cx: int, cy: int, den: int, cube: bool, b: int)
    requires
        0 <= v <= b,
    ensures
        0 <= wterm(v, x, y, cx, cy, den, cube) <= (if cube {
            b * b * b
        } else {
            b
        }) * 1024,
{
    lemma_wq_bounds(dist2(x, y, cx, cy), den);
    let w = wq_spec(dist2(x, y, cx, cy), den);
    if cube {
        assert(0 <= v * v * v * w <= b * b * b * 1024) by (nonlinear_arith)
            requires
                0 <= v <= b,
                0 <= w <= 1024,
        ;
    } else {
        assert(0 <= v * w <= b * 1024) by (nonlinear_arith)
            requires
                0 <= v <= b,
                0 <= w <= 1024,
        ;
    }
}

pub proof fn lemma_wcol_sum_bounds(
    g: Seq<Seq<u64>>,
    x: int,
    y0: int,
    y1: int,
    cx: int,
    cy: int,
    den: int,
    cube: bool,
    b: int,
)
    requires
        forall|j: int| y0 <= j < y1 ==> 0 <= #[trigger] g[x][j] <= b,
        0 <= b,
    ensures
        0 <= wcol_sum(g, x, y0, y1, cx, cy, den, cube) <= (if cube {
            b * b * b
        } else {
            b
        }) * 1024 * (if y1 >= y0 {
            y1 - y0
        } else {
            0
        }),
    decreases y1 - y0,
{
    let m = (if cube {
        b * b * b
    } else {
        b
    }) * 1024;
    assert(m >= 0) by (nonlinear_arith)
        requires
            b >= 0,
            m == (if cube {
                b * b * b
            } else {
                b
            }) * 1024,
    ;
    if y1 > y0 {
        lemma_wcol_sum_bounds(g, x, y0, y1 - 1, cx, cy, den, cube, b);
        lemma_wterm_bounds(g[x][y1 - 1] as int, x, y1 - 1, cx, cy, den, cube, b);
        assert(m * (y1 - y0) == m * (y1 - 1 - y0) + m) by (nonlinear_arith);
    }
}

pub proof fn lemma_wrect_sum_bounds(
    g: Seq<Seq<u64>>,
    x0: int,
    x1: int,
    y0: int,
    y1: int,
    cx: int,
    cy: int,
    den: int,
    cube: bool,
    b: int,
)
    requires
        forall|i: int, j: int| x0 <= i < x1 && y0 <= j < y1 ==> 0 <= #[trigger] g[i][j] <= b,
        0 <= b,
        y0 <= y1,
    ensures
        0 <= wrect_sum(g, x0, x1, y0, y1, cx, cy, den, cube) <= (if cube {
            b * b * b
        } else {
            b
        }) * 1024 * (if x1 >= x0 {
            (x1 - x0) * (y1 - y0)
        } else {
            0
        }),
    decreases x1 - x0,
{
    let m = (if cube {
        b * b * b
    } else {
        b
    }) * 1024;
    assert(m >= 0) by (nonlinear_arith)
        requires
            b >= 0,
            m == (if cube {
                b * b * b
            } else {
                b
            }) * 1024,
    ;
    if x1 > x0 {
        lemma_wrect_sum_bounds(g, x0, x1 - 1, y0, y1, cx, cy, den, cube, b);
        lemma_wcol_sum_bounds(g, x1 - 1, y0, y1, cx, cy, den, cube, b);
        assert(m * ((x1 - x0) * (y1 - y0)) == m * ((x1 - 1 - x0) * (y1 - y0)) + m * (y1 - y0))
            by (nonlinear_arith);
    }
}

/// Kernel-weighted sum of a rectangle of `g` around centre `(cx, cy)`,
/// cubing the cell values when `cube` is set.
#[verifier::loop_isolation(false)]
fn weighted_sum(
    g: &Vec<Vec<u64>>,
    x0: usize,
    x1: usize,
    y0: usize,
    y1: usize,
    cx: usize,
    cy: usize,
    den: u64,
    cube: bool,
) -> (r: u128)
    requires
        x0 <= x1 <= g@.len(),
        y0 <= y1,
        forall|i: int| 0 <= i < g@.len() ==> y1 <= (#[trigger] g@[i])@.len(),
        forall|i: int, j: int|
            0 <= i < g@.len() && 0 <= j < g@[i]@.len() ==> #[trigger] g@[i]@[j] <= 0x400_0000,
        x1 <= 0x20000,
        y1 <= 0x20000,
        cx <= 0x20000,
        cy <= 0x20000,
    ensures
        r as int == wrect_sum(
            grid_view(g@),
            x0 as int,
            x1 as int,
            y0 as int,
            y1 as int,
            cx as int,
            cy as int,
            den as int,
            cube,
        ),
{
    let ghost gv = grid_view(g@);
    let ghost bb: int = 0x400_0000;
    let ghost mm: int = (if cube {
        bb * bb * bb
    } else {
        bb
    }) * 1024;
    let mut acc: u128 = 0;
    let mut x = x0;
    while x < x1
        invariant
            x0 <= x <= x1,
            acc as int == wrect_sum(
                gv,
                x0 as int,
                x as int,
                y0 as int,
                y1 as int,
                cx as int,
                cy as int,
                den as int,
                cube,
            ),
        decreases x1 - x,
    {
        let mut y = y0;
        while y < y1
            invariant
                y0 <= y <= y1,
                x0 <= x < x1,
                acc as int == wrect_sum(
                    gv,
                    x0 as int,
                    x as int,
                    y0 as int,
                    y1 as int,
                    cx as int,
                    cy as int,
                    den as int,
                    cube,
                ) + wcol_sum(
                    gv,
                    x as int,
                    y0 as int,
                    y as int,
                    cx as int,
                    cy as int,
                    den as int,
                    cube,
                ),
            decreases y1 - y,
        {
            let v = g[x][y];
            let dx = if x >= cx {
                (x - cx) as u64
            } else {
                (cx - x) as u64
            };
            let dy = if y >= cy {
                (y - cy) as u64
            } else {
                (cy - y) as u64
            };
            proof {
                assert(dx <= 0x20000 && dy <= 0x20000);
                assert(dx * dx <= 0x4_0000_0000 && dy * dy <= 0x4_0000_0000) by (nonlinear_arith)
                    requires
                        dx <= 0x20000,
                        dy <= 0x20000,
                ;
            }
            let d2 = dx * dx + dy * dy;
            proof {
                assert(d2 as int == dist2(x as int, y as int, cx as int, cy as int)
                    && d2 <= 0x10_0000_0000) by (nonlinear_arith)
                    requires
                        dx as int == (if x >= cx {
                            x - cx
                        } else {
                            cx - x
                        }),
                        dy as int == (if y >= cy {
                            y - cy
                        } else {
                            cy - y
                        }),
                        d2 == dx * dx + dy * dy,
                        x <= 0x20000,
                        y <= 0x20000,
                        cx <= 0x20000,
                        cy <= 0x20000,
                ;
            }
            let w = kernel_weight(d2, den);
            proof {
                assert(v <= 0x400_0000);
                assert((v as int) * (v as int) <= 0x10_0000_0000_0000 && (v as int) * (v as int)
                    * (v as int) <= 0x4000_0000_0000_0000_0000 && (v as int) * (v as int) * (
                v as int) * (w as int) <= 0x10_0000_0000_0000_0000_0000_0000 && (v as int) * (
                w as int) <= 0x1_0000_0000_0000) by (nonlinear_arith)
                    requires
                        0 <= v as int <= 0x400_0000,
                        0 <= w as int <= 1024,
                ;
            }
            let term: u128 = if cube {
                (v as u128) * (v as u128) * (v as u128) * (w as u128)
            } else {
                (v as u128) * (w as u128)
            };
            proof {
                assert(gv[x as int][y as int] == v);
                assert(term as int == wterm(
                    v as int,
                    x as int,
                    y as int,
                    cx as int,
                    cy as int,
                    den as int,
                    cube,
                )) by (nonlinear_arith)
                    requires
                        term as int == (if cube {
                            (v as int) * (v as int) * (v as int) * (w as int)
                        } else {
                            (v as int) * (w as int)
                        }),
                        w as int == wq_spec(
                            dist2(x as int, y as int, cx as int, cy as int),
                            den as int,
                        ),
                        v <= 0x400_0000,
                        w <= 1024,
                        wterm(v as int, x as int, y as int, cx as int, cy as int, den as int, cube)
                            == (if cube {
                            (v as int) * (v as int) * (v as int) * (wq_spec(
                                dist2(x as int, y as int, cx as int, cy as int),
                                den as int,
                            ))
                        } else {
                            (v as int) * (wq_spec(
                                dist2(x as int, y as int, cx as int, cy as int),
                                den as int,
                            ))
                        }),
                ;
                lemma_wrect_sum_bounds(
                    gv,
                    x0 as int,
                    x as int,
                    y0 as int,
                    y1 as int,
                    cx as int,
                    cy as int,
                    den as int,
                    cube,
                    bb,
                );
                lemma_wcol_sum_bounds(
                    gv,
                    x as int,
                    y0 as int,
                    y as int,
                    cx as int,
                    cy as int,
                    den as int,
                    cube,
                    bb,
                );
                lemma_wterm_bounds(
                    v as int,
                    x as int,
                    y as int,
                    cx as int,
                    cy as int,
                    den as int,
                    cube,
                    bb,
                );
                assert(0 <= mm <= 0x10000000000000000000000);
                assert(mm * ((x - x0) * (y1 - y0)) + mm * (y - y0) + mm < 0x40000000000000000000000000000000)
                    by (nonlinear_arith)
                    requires
                        0 <= mm <= 0x10000000000000000000000,
                        0 <= x - x0 <= 0x20000,
                        0 <= y1 - y0 <= 0x20000,
                        0 <= y - y0 <= 0x20000,
                ;
            }
            acc = acc + term;
            y = y + 1;
        }
        x = x + 1;
    }
    acc
}

/// The down-sampled "short-cut" window: cell `(i, j)` sums the
/// `thumb x thumb` block of the raw difference map starting at
/// `(i * thumb + tx, j * thumb + ty)`, clamped to the map; blocks starting
/// outside the map are zero.
pub open spec fn shortcut_cell(
    raw: Seq<Seq<u64>>,
    w: int,
    h: int,
    tx: int,
    ty: int,
    thumb: int,
    i: int,
    j: int,
) -> int {
    let sx = i * thumb + tx;
    let sy = j * thumb + ty;
    if sx > w - 1 || sy > h - 1 {
        0
    } else {
        rect_sum(raw, sx, min_i(sx + thumb, w), sy, min_i(sy + thumb, h))
    }
}

pub open spec fn shortcut_grid(
    raw: Seq<Seq<u64>>,
    w: int,
    h: int,
    tx: int,
    ty: int,
    thumb: int,
    scw: int,
) -> Seq<Seq<u64>> {
    Seq::new(
        scw as nat,
        |i: int| Seq::new(scw as nat, |j: int| shortcut_cell(raw, w, h, tx, ty, thumb, i, j) as u64),
    )
}

/// Score of a short-cut cell as a refinement candidate: the cubed-value
/// kernel-weighted sum of its neighbourhood.
pub open spec fn score2(sc: Seq<Seq<u64>>, scw: int, scmw: int, i: int, j: int) -> int {
    let cx = i + scmw / 2;
    let cy = j + scmw / 2;
    let r = rect_range_spec(cx, cy, scmw, scw, scw);
    let den = 2 * (scmw / 2) * (scmw / 2);
    wrect_sum(sc, r.0, r.2 + 1, r.1, r.3 + 1, cx, cy, den, true)
}

/// Score of a full-resolution pixel: the kernel-weighted sum of the raw
/// pyramid base over a window of half-side `s / 2`.
pub open spec fn score3(base: Seq<Seq<u64>>, w: int, h: int, s: int, i: int, j: int) -> int {
    let r = rect_range_spec(i, j, s, w, h);
    let den = 2 * (s / 2) * (s / 2);
    wrect_sum(base, r.0, r.2 + 1, r.1, r.3 + 1, i, j, den, false)
}

/// The whole two-pass refinement of one coarse candidate `cand`: build the
/// short-cut grid of the `2 s`-wide window, pick its best interior cell by
/// cubed kernel-weighted score, map that cell back to full resolution, and
/// pick the best pixel there by kernel-weighted score against the pyramid
/// base.  The reported weight is the winning score scaled back down by the
/// kernel's fixed-point unit.
pub open spec fn refine_spec(
    raw: Seq<Seq<u64>>,
    base: Seq<Seq<u64>>,
    w: int,
    h: int,
    cand: (int, int, int),
    s: int,
) -> (int, int, int) {
    let thumb = sqrt_spec(s);
    let scw = (s / thumb) * 2;
    let pr = rect_range_spec(cand.0, cand.1, 2 * s, w, h);
    let sc = shortcut_grid(raw, w, h, pr.0, pr.1, thumb, scw);
    let scmw = scw / 2;
    let b2 = fold_best(
        (0, 0, 0),
        0,
        scmw,
        0,
        scmw,
        scmw / 2,
        scmw / 2,
        |i: int, j: int| score2(sc, scw, scmw, i, j),
    );
    let rsx = min_i(b2.0 * thumb + pr.0, w - 1);
    let rex = min_i(b2.0 * thumb + thumb + pr.0, w - 1);
    let rsy = min_i(b2.1 * thumb + pr.1, h - 1);
    let rey = min_i(b2.1 * thumb + thumb + pr.1, h - 1);
    let b3 = fold_best(
        (0, 0, 0),
        rsx,
        rex + 1,
        rsy,
        rey + 1,
        0,
        0,
        |i: int, j: int| score3(base, w, h, s, i, j),
    );
    (b3.0, b3.1, b3.2 / 1024)
}

} // verus!

verus! {

proof fn lemma_wrect_sum_empty_cols(
    g: Seq<Seq<u64>>,
    x0: int,
    x1: int,
    y0: int,
    y1: int,
    cx: int,
    cy: int,
    den: int,
    cube: bool,
)
    requires
        y1 <= y0,
    ensures
        wrect_sum(g, x0, x1, y0, y1, cx, cy, den, cube) == 0,
    decreases x1 - x0,
{
    if x1 > x0 {
        lemma_wrect_sum_empty_cols(g, x0, x1 - 1, y0, y1, cx, cy, den, cube);
    }
}

/// A full-resolution score is bounded by the largest cell value times the
/// kernel scale times the window area.
pub proof fn lemma_score3_bound(base: Seq<Seq<u64>>, w: int, h: int, s: int, i: int, j: int)
    requires
        grid_wf(base, w, h),
        grid_bounded(base, w, h, 765),
        1 <= w <= 65536,
        1 <= h <= 65536,
    ensures
        0 <= score3(base, w, h, s, i, j) <= 0x10_0000_0000_0000,
{
    let r = rect_range_spec(i, j, s, w, h);
    let den = 2 * (s / 2) * (s / 2);
    if r.3 + 1 <= r.1 {
        lemma_wrect_sum_empty_cols(base, r.0, r.2 + 1, r.1, r.3 + 1, i, j, den, false);
    } else {
        lemma_wrect_sum_bounds(base, r.0, r.2 + 1, r.1, r.3 + 1, i, j, den, false, 765);
        if r.2 + 1 > r.0 {
            assert(765 * 1024 * ((r.2 + 1 - r.0) * (r.3 + 1 - r.1)) <= 0x10_0000_0000_0000)
                by (nonlinear_arith)
                requires
                    0 < r.2 + 1 - r.0 <= 65536,
                    0 < r.3 + 1 - r.1 <= 65536,
            ;
        }
    }
}

/// Sum a small rectangle of a bounded difference-map level.
#[verifier::loop_isolation(false)]
fn sum_block_raw(lv: &Level, x0: usize, x1: usize, y0: usize, y1: usize) -> (r: u64)
    requires
        lv.wf(),
        grid_bounded(lv.grid(), lv.width as int, lv.height as int, 765),
        x0 <= x1 <= lv.width,
        y0 <= y1 <= lv.height,
        x1 - x0 <= 256,
        y1 - y0 <= 256,
    ensures
        r as int == rect_sum(lv.grid(), x0 as int, x1 as int, y0 as int, y1 as int),
        r <= 0x400_0000,
{
    let ghost gv = lv.grid();
    let mut acc: u64 = 0;
    let mut x = x0;
    while x < x1
        invariant
            x0 <= x <= x1,
            acc as int == rect_sum(gv, x0 as int, x as int, y0 as int, y1 as int),
            acc <= 0x400_0000,
        decreases x1 - x,
    {
        let mut y = y0;
        while y < y1
            invariant
                y0 <= y <= y1,
                x0 <= x < x1,
                acc as int == rect_sum(gv, x0 as int, x as int, y0 as int, y1 as int) + col_sum(
                    gv,
                    x as int,
                    y0 as int,
                    y as int,
                ),
                acc <= 0x400_0000,
            decreases y1 - y,
        {
            let c = lv.get_cell(x, y);
            proof {
                lemma_rect_sum_bounds(gv, x0 as int, x as int, y0 as int, y1 as int, 765);
                lemma_col_sum_bounds(gv, x as int, y0 as int, y as int, 765);
                assert(765 * ((x - x0) * (y1 - y0)) + 765 * (y - y0) + 765 <= 0x400_0000)
                    by (nonlinear_arith)
                    requires
                        0 <= x - x0 <= 256,
                        0 <= y1 - y0 <= 256,
                        0 <= y - y0 <= 256,
                ;
            }
            acc = acc + c;
            y = y + 1;
        }
        x = x + 1;
    }
    acc
}

/// Build the down-sampled short-cut grid of the refinement window.
#[verifier::loop_isolation(false)]
fn build_shortcut(raw_diff: &Level, tx: usize, ty: usize, thumb: usize, scw: usize) -> (r: Vec<
    Vec<u64>,
>)
    requires
        raw_diff.wf(),
        grid_bounded(raw_diff.grid(), raw_diff.width as int, raw_diff.height as int, 765),
        1 <= raw_diff.width <= 65536,
        1 <= raw_diff.height <= 65536,
        tx < raw_diff.width,
        ty < raw_diff.height,
        1 <= thumb <= 256,
        scw <= 0x20000,
    ensures
        r@.len() == scw,
        forall|a: int| 0 <= a < scw ==> (#[trigger] r@[a])@.len() == scw,
        grid_view(r@) == shortcut_grid(
            raw_diff.grid(),
            raw_diff.width as int,
            raw_diff.height as int,
            tx as int,
            ty as int,
            thumb as int,
            scw as int,
        ),
        forall|a: int, b: int| 0 <= a < scw && 0 <= b < scw ==> #[trigger] r@[a]@[b] <= 0x400_0000,
{
    let w = raw_diff.width;
    let h = raw_diff.height;
    let ghost rawg = raw_diff.grid();
    let ghost scg = shortcut_grid(rawg, w as int, h as int, tx as int, ty as int, thumb as int, scw as int);
    let mut short_curt: Vec<Vec<u64>> = Vec::new();
    let mut i: usize = 0;
    while i < scw
        invariant
            i <= scw,
            short_curt@.len() == i,
            forall|a: int| 0 <= a < i ==> (#[trigger] short_curt@[a])@.len() == scw,
            forall|a: int, b: int|
                0 <= a < i && 0 <= b < scw ==> #[trigger] short_curt@[a]@[b] == scg[a][b],
            forall|a: int, b: int|
                0 <= a < i && 0 <= b < scw ==> #[trigger] short_curt@[a]@[b] <= 0x400_0000,
        decreases scw - i,
    {
        let mut col: Vec<u64> = Vec::new();
        let mut j: usize = 0;
        while j < scw
            invariant
                j <= scw,
                i < scw,
                col@.len() == j,
                forall|b: int| 0 <= b < j ==> #[trigger] col@[b] == scg[i as int][b],
                forall|b: int| 0 <= b < j ==> #[trigger] col@[b] <= 0x400_0000,
            decreases scw - j,
        {
            proof {
                assert(i * thumb <= 0x200_0000 && j * thumb <= 0x200_0000) by (nonlinear_arith)
                    requires
                        i <= 0x20000,
                        j <= 0x20000,
                        thumb <= 256,
                ;
            }
            let sx = i * thumb + tx;
            let sy = j * thumb + ty;
            let v: u64 = if sx > w - 1 || sy > h - 1 {
                0
            } else {
                let ex = if sx + thumb <= w {
                    sx + thumb
                } else {
                    w
                };
                let ey = if sy + thumb <= h {
                    sy + thumb
                } else {
                    h
                };
                sum_block_raw(raw_diff, sx, ex, sy, ey)
            };
            proof {
                assert(v as int == shortcut_cell(
                    rawg,
                    w as int,
                    h as int,
                    tx as int,
                    ty as int,
                    thumb as int,
                    i as int,
                    j as int,
                ));
                assert(scg[i as int][j as int] == v);
            }
            col.push(v);
            j = j + 1;
        }
        short_curt.push(col);
        i = i + 1;
    }
    proof {
        assert(grid_view(short_curt@) =~~= scg);
    }
    short_curt
}

/// Pick the short-cut cell with the best cubed kernel-weighted score; the
/// reported coordinates are in short-cut space, offset to the window centre.
#[verifier::loop_isolation(false)]
fn best_shortcut_cell(short_curt: &Vec<Vec<u64>>, scmw: usize) -> (r: (usize, usize))
    requires
        short_curt@.len() <= 0x20000,
        short_curt@.len() == 2 * scmw,
        scmw >= 1,
        forall|a: int|
            0 <= a < short_curt@.len() ==> (#[trigger] short_curt@[a])@.len()
                == short_curt@.len(),
        forall|a: int, b: int|
            0 <= a < short_curt@.len() && 0 <= b < short_curt@.len()
                ==> #[trigger] short_curt@[a]@[b] <= 0x400_0000,
    ensures
        ({
            let b2 = fold_best(
                (0, 0, 0),
                0,
                scmw as int,
                0,
                scmw as int,
                scmw as int / 2,
                scmw as int / 2,
                |a: int, b: int| score2(
                    grid_view(short_curt@),
                    2 * scmw as int,
                    scmw as int,
                    a,
                    b,
                ),
            );
            r.0 == b2.0 && r.1 == b2.1 && r.0 < 2 * scmw && r.1 < 2 * scmw
        }),
{
    let scw = short_curt.len();
    let off = scmw / 2;
    let ghost scg = grid_view(short_curt@);
    let ghost vf2 = |a: int, b: int| score2(scg, scw as int, scmw as int, a, b);
    proof {
        assert(2 * ((scmw / 2) as int) * ((scmw / 2) as int) <= 0x1_0000_0000)
            by (nonlinear_arith)
            requires
                scmw <= 0x10000,
        ;
    }
    let den2: u64 = 2 * ((scmw / 2) as u64) * ((scmw / 2) as u64);
    let mut bx2: usize = 0;
    let mut by2: usize = 0;
    let mut bw2: u128 = 0;
    let mut i2: usize = 0;
    while i2 < scmw
        invariant
            i2 <= scmw,
            (bx2 as int, by2 as int, bw2 as int) == fold_best(
                (0, 0, 0),
                0,
                i2 as int,
                0,
                scmw as int,
                off as int,
                off as int,
                vf2,
            ),
            bx2 < scw,
            by2 < scw,
        decreases scmw - i2,
    {
        let mut j2: usize = 0;
        while j2 < scmw
            invariant
                j2 <= scmw,
                i2 < scmw,
                (bx2 as int, by2 as int, bw2 as int) == fold_best_col(
                    fold_best((0, 0, 0), 0, i2 as int, 0, scmw as int, off as int, off as int, vf2),
                    i2 as int,
                    0,
                    j2 as int,
                    off as int,
                    off as int,
                    vf2,
                ),
                bx2 < scw,
                by2 < scw,
            decreases scmw - j2,
        {
            let center_x = i2 + off;
            let center_y = j2 + off;
            let rect = Rectangle::rectangle_range(center_x, center_y, scmw, scw, scw);
            proof {
                assert(center_x < scw && center_y < scw);
                assert(rect.top_x <= rect.bottom_x && rect.top_y <= rect.bottom_y);
            }
            let v = weighted_sum(
                short_curt,
                rect.top_x,
                rect.bottom_x + 1,
                rect.top_y,
                rect.bottom_y + 1,
                center_x,
                center_y,
                den2,
                true,
            );
            proof {
                assert(v as int == vf2(i2 as int, j2 as int));
            }
            if v > bw2 {
                bx2 = center_x;
                by2 = center_y;
                bw2 = v;
            }
            j2 = j2 + 1;
        }
        i2 = i2 + 1;
    }
    (bx2, by2)
}

/// Pick the full-resolution pixel with the best kernel-weighted score over
/// the pyramid base, scanning the given inclusive coordinate ranges.
#[verifier::loop_isolation(false)]
fn best_pixel(base: &Level, rsx: usize, rex: usize, rsy: usize, rey: usize, ch_size: usize) -> (r:
    XY)
    requires
        base.wf(),
        grid_bounded(base.grid(), base.width as int, base.height as int, 765),
        1 <= base.width <= 65536,
        1 <= base.height <= 65536,
        rsx <= rex < base.width,
        rsy <= rey < base.height,
        1 <= ch_size <= 65536,
    ensures
        ({
            let b3 = fold_best(
                (0, 0, 0),
                rsx as int,
                rex as int + 1,
                rsy as int,
                rey as int + 1,
                0,
                0,
                |a: int, b: int| score3(
                    base.grid(),
                    base.width as int,
                    base.height as int,
                    ch_size as int,
                    a,
                    b,
                ),
            );
            r.t() == (b3.0, b3.1, b3.2 / 1024)
        }),
        r.x < base.width,
        r.y < base.height,
{
    let w = base.width;
    let h = base.height;
    let ghost baseg = base.grid();
    let ghost vf3 = |a: int, b: int| score3(baseg, w as int, h as int, ch_size as int, a, b);
    proof {
        assert(2 * ((ch_size / 2) as int) * ((ch_size / 2) as int) <= 0x1_0000_0000)
            by (nonlinear_arith)
            requires
                ch_size <= 0x10000,
        ;
    }
    let den3: u64 = 2 * ((ch_size / 2) as u64) * ((ch_size / 2) as u64);
    proof {
        assert(base.data@.len() == w);
        assert forall|a: int| 0 <= a < base.data@.len() implies (#[trigger] base.data@[a])@.len()
            == h by {
            assert(base.grid()[a].len() == h);
        }
        assert forall|a: int, b: int|
            0 <= a < base.data@.len() && 0 <= b < base.data@[a]@.len() implies #[trigger] base.data@[a]@[b]
            <= 0x400_0000 by {
            assert(base.grid()[a][b] == base.data@[a]@[b]);
        }
    }
    let mut bx3: usize = 0;
    let mut by3: usize = 0;
    let mut bw3: u128 = 0;
    let mut i3: usize = rsx;
    while i3 <= rex
        invariant
            rsx <= i3 <= rex + 1,
            (bx3 as int, by3 as int, bw3 as int) == fold_best(
                (0, 0, 0),
                rsx as int,
                i3 as int,
                rsy as int,
                rey as int + 1,
                0,
                0,
                vf3,
            ),
            bx3 < w,
            by3 < h,
        decreases rex + 1 - i3,
    {
        let mut j3: usize = rsy;
        while j3 <= rey
            invariant
                rsy <= j3 <= rey + 1,
                rsx <= i3 <= rex,
                (bx3 as int, by3 as int, bw3 as int) == fold_best_col(
                    fold_best(
                        (0, 0, 0),
                        rsx as int,
                        i3 as int,
                        rsy as int,
                        rey as int + 1,
                        0,
                        0,
                        vf3,
                    ),
                    i3 as int,
                    rsy as int,
                    j3 as int,
                    0,
                    0,
                    vf3,
                ),
                bx3 < w,
                by3 < h,
            decreases rey + 1 - j3,
        {
            let rect = Rectangle::rectangle_range(i3, j3, ch_size, w, h);
            proof {
                assert(rect.top_x <= rect.bottom_x && rect.top_y <= rect.bottom_y);
            }
            let v = weighted_sum(
                &base.data,
                rect.top_x,
                rect.bottom_x + 1,
                rect.top_y,
                rect.bottom_y + 1,
                i3,
                j3,
                den3,
                false,
            );
            proof {
                assert(grid_view(base.data@) == baseg);
                assert(v as int == vf3(i3 as int, j3 as int));
            }
            if v > bw3 {
                bx3 = i3;
                by3 = j3;
                bw3 = v;
            }
            j3 = j3 + 1;
        }
        i3 = i3 + 1;
    }
    proof {
        lemma_fold_best_facts(
            (0, 0, 0),
            rsx as int,
            rex as int + 1,
            rsy as int,
            rey as int + 1,
            0,
            0,
            vf3,
        );
        assert forall|a: int, b: int|
            rsx as int <= a < rex as int + 1 && rsy as int <= b < rey as int + 1 implies 0
            <= #[trigger] vf3(a, b) <= 0x10_0000_0000_0000 by {
            lemma_score3_bound(baseg, w as int, h as int, ch_size as int, a, b);
        }
        assert(bw3 <= 0x10_0000_0000_0000);
    }
    let weight = (bw3 / 1024) as u64;
    XY { x: bx3, y: by3, weight }
}

/// Re-localize a coarse candidate: down-sample the surrounding window of the
/// raw difference map by block summation, pick the best cell by cubed
/// kernel-weighted score, then pick the best pixel of the corresponding
/// full-resolution block by kernel-weighted score against the pyramid base.
#[verifier::loop_isolation(false)]
pub fn adjust_center_point(
    top_xy: XY,
    mountain: &AggregateMountain,
    ch_size: usize,
    raw_diff: &Level,
) -> (r: XY)
    requires
        mountain.wf(),
        raw_diff.wf(),
        raw_diff.width as int == mountain.lw(0),
        raw_diff.height as int == mountain.lh(0),
        grid_bounded(raw_diff.grid(), mountain.lw(0), mountain.lh(0), 765),
        grid_bounded(mountain@[0], mountain.lw(0), mountain.lh(0), 765),
        top_xy.x < mountain.lw(0),
        top_xy.y < mountain.lh(0),
        1 <= ch_size <= 65536,
    ensures
        r.t() == refine_spec(
            raw_diff.grid(),
            mountain@[0],
            mountain.lw(0),
            mountain.lh(0),
            top_xy.t(),
            ch_size as int,
        ),
        r.x < mountain.lw(0),
        r.y < mountain.lh(0),
{
    let w = raw_diff.width;
    let h = raw_diff.height;
    let points = Rectangle::rectangle_range(top_xy.x, top_xy.y, 2 * ch_size, w, h);
    let thumb_times = sqrt(ch_size);
    proof {
        assert(thumb_times <= 256 && thumb_times <= ch_size) by (nonlinear_arith)
            requires
                1 <= thumb_times,
                (thumb_times as int) * (thumb_times as int) <= ch_size as int,
                ch_size <= 65536,
        ;
        assert(ch_size / thumb_times >= 1 && ch_size / thumb_times <= 65536) by (nonlinear_arith)
            requires
                1 <= thumb_times <= ch_size,
                ch_size <= 65536,
        ;
    }
    let short_curt_width = (ch_size / thumb_times) * 2;
    let short_curt = build_shortcut(raw_diff, points.top_x, points.top_y, thumb_times,
        short_curt_width);
    let short_curt_mountain_width = short_curt_width / 2;
    let best2 = best_shortcut_cell(&short_curt, short_curt_mountain_width);
    proof {
        assert(best2.0 * thumb_times <= 0x200_0000 && best2.1 * thumb_times <= 0x200_0000)
            by (nonlinear_arith)
            requires
                best2.0 <= 0x20000,
                best2.1 <= 0x20000,
                thumb_times <= 256,
        ;
    }
    let real_start_x = best2.0 * thumb_times + points.top_x;
    let real_end_x = best2.0 * thumb_times + thumb_times + points.top_x;
    let real_start_y = best2.1 * thumb_times + points.top_y;
    let real_end_y = best2.1 * thumb_times + thumb_times + points.top_y;
    let rsx = if real_start_x <= w - 1 {
        real_start_x
    } else {
        w - 1
    };
    let rex = if real_end_x <= w - 1 {
        real_end_x
    } else {
        w - 1
    };
    let rsy = if real_start_y <= h - 1 {
        real_start_y
    } else {
        h - 1
    };
    let rey = if real_end_y <= h - 1 {
        real_end_y
    } else {
        h - 1
    };
    proof {
        assert(mountain.levels@[0].grid() == mountain@[0]);
        assert(mountain.levels@[0].width as int == mountain.lw(0));
        assert(mountain.levels@[0].height as int == mountain.lh(0));
    }
    let r = best_pixel(&mountain.levels[0], rsx, rex, rsy, rey, ch_size);
    proof {
        let rawg = raw_diff.grid();
        let baseg = mountain@[0];
        let wi = w as int;
        let hi = h as int;
        let si = ch_size as int;
        let tti = thumb_times as int;
        let scwi = short_curt_width as int;
        let scmwi = short_curt_mountain_width as int;
        let pr = rect_range_spec(top_xy.x as int, top_xy.y as int, 2 * si, wi, hi);
        assert(pr.0 == points.top_x as int && pr.1 == points.top_y as int);
        let sc = shortcut_grid(rawg, wi, hi, pr.0, pr.1, tti, scwi);
        assert(grid_view(short_curt@) == sc);
        assert(tti == sqrt_spec(si) && scwi == (si / tti) * 2 && scmwi == scwi / 2 && 2 * scmwi
            == scwi);
        let vfa = |a: int, b: int| score2(grid_view(short_curt@), 2 * (scmwi), scmwi, a, b);
        let vfb = |a: int, b: int| score2(sc, scwi, scmwi, a, b);
        assert forall|a: int, b: int| #[trigger] vfa(a, b) == vfb(a, b) by {}
        assert(vfa =~= vfb);
        let b2 = fold_best((0, 0, 0), 0, scmwi, 0, scmwi, scmwi / 2, scmwi / 2, vfb);
        assert(best2.0 == b2.0 && best2.1 == b2.1);
        assert(rsx as int == min_i(b2.0 * tti + pr.0, wi - 1));
        assert(rex as int == min_i(b2.0 * tti + tti + pr.0, wi - 1));
        assert(rsy as int == min_i(b2.1 * tti + pr.1, hi - 1));
        assert(rey as int == min_i(b2.1 * tti + tti + pr.1, hi - 1));
        let vfc = |a: int, b: int| score3(
            mountain.levels@[0].grid(),
            mountain.levels@[0].width as int,
            mountain.levels@[0].height as int,
            si,
            a,
            b,
        );
        let vfd = |a: int, b: int| score3(baseg, wi, hi, si, a, b);
        assert forall|a: int, b: int| #[trigger] vfc(a, b) == vfd(a, b) by {}
        assert(vfc =~= vfd);
        let b3 = fold_best(
            (0, 0, 0),
            rsx as int,
            rex as int + 1,
            rsy as int,
            rey as int + 1,
            0,
            0,
            vfd,
        );
        assert(r.t() == (b3.0, b3.1, b3.2 / 1024));
        assert(r.t() == refine_spec(rawg, baseg, wi, hi, top_xy.t(), si));
    }
    r
}

} // verus!
