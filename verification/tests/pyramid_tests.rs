use image_magic::pyramid::AggregateMountain;
use image_magic::pyramid::XY;
use image_magic::hilltop::trip_aggregate_mountain;

fn grid(width: usize, height: usize, cells: &[(usize, usize, u64)]) -> Vec<Vec<u64>> {
    let mut g = vec![vec![0u64; height]; width];
    for &(x, y, v) in cells {
        g[x][y] = v;
    }
    g
}

fn build(width: usize, height: usize, cells: &[(usize, usize, u64)]) -> AggregateMountain {
    let mut m = AggregateMountain::new(grid(width, height, cells), width, height);
    m.gen_aggregate_mountain_mapping();
    m.invalid_rectangle(0, 0, width - 1, height - 1);
    m
}

/// Building twice from the same difference data yields identical grids at
/// every level.
#[test]
fn build_is_idempotent() {
    let cells = [(0usize, 0usize, 5u64), (7, 3, 100), (11, 9, 765), (3, 8, 42)];
    let a = build(12, 10, &cells);
    let b = build(12, 10, &cells);
    assert_eq!(a.level_count(), b.level_count());
    for k in 0..a.level_count() {
        assert_eq!(a.level_width(k), b.level_width(k));
        assert_eq!(a.level_height(k), b.level_height(k));
        for x in 0..a.level_width(k) {
            for y in 0..a.level_height(k) {
                assert_eq!(a.cell(k, x, y), b.cell(k, x, y));
            }
        }
    }
}

fn check_aggregate_invariant(m: &AggregateMountain) {
    for k in 1..m.level_count() {
        for i in 0..m.level_width(k) {
            for j in 0..m.level_height(k) {
                let mut sum = 0u64;
                for x in i * 5..(i * 5 + 5).min(m.level_width(k - 1)) {
                    for y in j * 5..(j * 5 + 5).min(m.level_height(k - 1)) {
                        sum += m.cell(k - 1, x, y);
                    }
                }
                assert_eq!(m.cell(k, i, j), sum);
            }
        }
    }
}

/// Every coarser cell equals the sum of its block, after the initial build
/// and again after an incremental rebuild.
#[test]
fn aggregate_invariant_holds() {
    let cells = [(0usize, 0usize, 5u64), (7, 3, 100), (11, 9, 765), (26, 14, 300)];
    let mut m = build(27, 15, &cells);
    check_aggregate_invariant(&m);
    // dims: 27x15 -> 6x3, which is terminal (height below the block factor)
    assert_eq!(m.level_count(), 2);
    assert_eq!(m.level_width(1), 6);
    assert_eq!(m.level_height(1), 3);
    // cell (1, 0) of level 1 covers x in 5..10, y in 0..5: only (7, 3)
    assert_eq!(m.cell(1, 1, 0), 100);
    // mutate one base cell and rebuild just its rectangle
    m.invalid_rectangle(7, 3, 7, 3);
    check_aggregate_invariant(&m);
}

/// The query walks coarse-to-fine and dominates every cell in the block it
/// searched; on this simple map that is the true maximum.
#[test]
fn fetch_top_point_finds_peak() {
    let m = build(12, 10, &[(7, 3, 100), (2, 2, 40)]);
    let xy = m.fetch_top_point();
    assert_eq!((xy.x, xy.y, xy.weight), (7, 3, 100));
}

/// Ties keep the first cell in scan order (x outer, y inner): the
/// lexicographically smallest coordinate wins.
#[test]
fn fetch_top_point_tie_break() {
    let m = build(4, 4, &[(1, 2, 9), (1, 1, 9), (2, 1, 9)]);
    let xy = m.fetch_top_point();
    assert_eq!((xy.x, xy.y), (1, 1));
}

/// Suppression strictly lowers the suppressed point (here to zero) and
/// leaves cells beyond 1.5 diameters untouched.
#[test]
fn suppression_effect() {
    let mut m = build(20, 20, &[(5, 5, 700), (6, 5, 690), (18, 18, 321)]);
    let p = XY { x: 5, y: 5, weight: 700 };
    trip_aggregate_mountain(&mut m, p, 4);
    // the suppressed point loses the full window maximum, clamped at zero
    assert!(m.cell(0, 5, 5) < 700);
    assert_eq!(m.cell(0, 5, 5), 0);
    // the near neighbour at squared distance 1 loses
    // floor(700 * (9 * 16 - 4) / (9 * 16)) = 680 of its 690
    assert_eq!(m.cell(0, 6, 5), 10);
    // the far cell (distance way beyond 1.5 * 4) is unchanged
    assert_eq!(m.cell(0, 18, 18), 321);
    // and the pyramid is consistent again
    check_aggregate_invariant(&m);
}

/// The transient best-candidate triple only moves on a strictly greater
/// weight.
#[test]
fn xy_update_strictly_greater() {
    let mut xy = XY::new();
    assert_eq!((xy.x, xy.y, xy.weight), (0, 0, 0));
    xy.update(3, 4, 7);
    assert_eq!((xy.x, xy.y, xy.weight), (3, 4, 7));
    xy.update(9, 9, 7);
    assert_eq!((xy.x, xy.y, xy.weight), (3, 4, 7));
    xy.update(1, 1, 8);
    assert_eq!((xy.x, xy.y, xy.weight), (1, 1, 8));
}
