//! Multi-image compositing: average several equally sized images per pixel,
//! then average again keeping only the samples closest to the first-pass
//! mean (the most deviant ~15% of samples are discarded).

use vstd::prelude::*;
use crate::pixel::{Image, Pixel, rgb_diff, diff_val};
use crate::hilltop::HilltopError;

verus! {

/// A per-pixel channel accumulator: running sums of each channel and the
/// number of samples recorded.
#[derive(Clone, Copy, Debug)]
pub struct RGBA {
    pub r: u64,
    pub g: u64,
    pub b: u64,
    pub p: u64,
    pub total_record: u64,
}

impl RGBA {
    /// Each channel sum is bounded by the sample count, so the averages fit
    /// a channel byte.
    pub open spec fn wf(&self) -> bool {
        &&& self.total_record <= 0xFFFF_FFFF
        &&& self.r <= 255 * self.total_record
        &&& self.g <= 255 * self.total_record
        &&& self.b <= 255 * self.total_record
        &&& self.p <= 255 * self.total_record
    }

    pub fn new() -> (r: RGBA)
        ensures
            r.r == 0,
            r.g == 0,
            r.b == 0,
            r.p == 0,
            r.total_record == 0,
            r.wf(),
    {
        RGBA { r: 0, g: 0, b: 0, p: 0, total_record: 0 }
    }

    /// Record one sample: add its channels to the running sums.
    pub fn set_val(&mut self, val: Pixel)
        requires
            old(self).wf(),
            old(self).total_record < 0xFFFF_FFFF,
        ensures
            final(self).wf(),
            final(self).total_record == old(self).total_record + 1,
            final(self).r == old(self).r + val.r,
            final(self).g == old(self).g + val.g,
            final(self).b == old(self).b + val.b,
            final(self).p == old(self).p + val.a,
    {
        self.total_record = self.total_record + 1;
        self.r = self.r + val.r as u64;
        self.g = self.g + val.g as u64;
        self.b = self.b + val.b as u64;
        self.p = self.p + val.a as u64;
    }

    /// The average of the recorded samples, channel by channel.
    pub fn avg_rgb(&self) -> (px: Pixel)
        requires
            self.wf(),
            self.total_record > 0,
        ensures
            px.r as int == self.r as int / self.total_record as int,
            px.g as int == self.g as int / self.total_record as int,
            px.b as int == self.b as int / self.total_record as int,
            px.a as int == self.p as int / self.total_record as int,
    {
        proof {
            assert(self.r / self.total_record <= 255 && self.g / self.total_record <= 255 && self.b
                / self.total_record <= 255 && self.p / self.total_record <= 255)
                by (nonlinear_arith)
                requires
                    self.wf(),
                    self.total_record > 0,
            ;
        }
        Pixel {
            r: (self.r / self.total_record) as u8,
            g: (self.g / self.total_record) as u8,
            b: (self.b / self.total_record) as u8,
            a: (self.p / self.total_record) as u8,
        }
    }
}

/// Channel `c` of a pixel: red, green, blue, alpha in that order.
pub open spec fn chan(p: Pixel, c: int) -> int {
    if c == 0 {
        p.r as int
    } else if c == 1 {
        p.g as int
    } else if c == 2 {
        p.b as int
    } else {
        p.a as int
    }
}

/// Sum of channel `c` at `(x, y)` over the first `k` images.
pub open spec fn chan_sum(imgs: Seq<Seq<Seq<Pixel>>>, k: int, x: int, y: int, c: int) -> int
    decreases k,
{
    if k <= 0 {
        0
    } else {
        chan_sum(imgs, k - 1, x, y, c) + chan(imgs[k - 1][x][y], c)
    }
}

/// The first-pass mean pixel at `(x, y)` over `n` images.
pub open spec fn first_avg(imgs: Seq<Seq<Seq<Pixel>>>, n: int, x: int, y: int) -> Pixel {
    Pixel {
        r: (chan_sum(imgs, n, x, y, 0) / n) as u8,
        g: (chan_sum(imgs, n, x, y, 1) / n) as u8,
        b: (chan_sum(imgs, n, x, y, 2) / n) as u8,
        a: (chan_sum(imgs, n, x, y, 3) / n) as u8,
    }
}

/// The sort key of sample `idx` at `(x, y)`: its colour distance to the
/// first-pass mean in the high bits, its index in the low bits, so that keys
/// are distinct and order primarily by distance.
pub open spec fn sample_key(imgs: Seq<Seq<Seq<Pixel>>>, n: int, x: int, y: int, idx: int) -> int {
    diff_val(imgs[idx][x][y], first_avg(imgs, n, x, y)) * 0x1_0000_0000 + idx
}

/// How many of the first `k` samples have a strictly smaller key than
/// sample `idx`.
pub open spec fn key_rank(
    imgs: Seq<Seq<Seq<Pixel>>>,
    n: int,
    x: int,
    y: int,
    idx: int,
    k: int,
) -> int
    decreases k,
{
    if k <= 0 {
        0
    } else {
        key_rank(imgs, n, x, y, idx, k - 1) + (if sample_key(imgs, n, x, y, k - 1) < sample_key(
            imgs,
            n,
            x,
            y,
            idx,
        ) {
            1int
        } else {
            0int
        })
    }
}

/// How many samples are kept at each pixel: about 85% of them, at least one.
pub open spec fn keep_count(n: int) -> int {
    let k = n * 85 / 100;
    if k < 1 {
        1
    } else {
        k
    }
}

/// Is sample `idx` kept at `(x, y)`?  The kept samples are exactly those
/// whose key ranks among the `keep_count(n)` smallest.
pub open spec fn kept(imgs: Seq<Seq<Seq<Pixel>>>, n: int, x: int, y: int, idx: int) -> bool {
    key_rank(imgs, n, x, y, idx, n) < keep_count(n)
}

/// Sum of channel `c` over the kept samples among the first `k`.
pub open spec fn kept_sum(imgs: Seq<Seq<Seq<Pixel>>>, n: int, x: int, y: int, c: int, k: int) -> int
    decreases k,
{
    if k <= 0 {
        0
    } else {
        kept_sum(imgs, n, x, y, c, k - 1) + (if kept(imgs, n, x, y, k - 1) {
            chan(imgs[k - 1][x][y], c)
        } else {
            0int
        })
    }
}

/// Number of kept samples among the first `k`.
pub open spec fn kept_count(imgs: Seq<Seq<Seq<Pixel>>>, n: int, x: int, y: int, k: int) -> int
    decreases k,
{
    if k <= 0 {
        0
    } else {
        kept_count(imgs, n, x, y, k - 1) + (if kept(imgs, n, x, y, k - 1) {
            1int
        } else {
            0int
        })
    }
}

/// The trimmed mean at `(x, y)`: the average of the kept samples.
pub open spec fn trimmed_avg(imgs: Seq<Seq<Seq<Pixel>>>, n: int, x: int, y: int) -> Pixel {
    let cnt = kept_count(imgs, n, x, y, n);
    Pixel {
        r: (kept_sum(imgs, n, x, y, 0, n) / cnt) as u8,
        g: (kept_sum(imgs, n, x, y, 1, n) / cnt) as u8,
        b: (kept_sum(imgs, n, x, y, 2, n) / cnt) as u8,
        a: (kept_sum(imgs, n, x, y, 3, n) / cnt) as u8,
    }
}

/// Some sample has rank zero: the one with the smallest key.
proof fn lemma_rank_of_min(imgs: Seq<Seq<Seq<Pixel>>>, n: int, x: int, y: int, m: int)
    requires
        0 <= m < n,
        forall|k: int| 0 <= k < n ==> sample_key(imgs, n, x, y, m) <= #[trigger] sample_key(
            imgs,
            n,
            x,
            y,
            k,
        ),
    ensures
        key_rank(imgs, n, x, y, m, n) == 0,
{
    lemma_rank_of_min_rec(imgs, n, x, y, m, n);
}

proof fn lemma_rank_of_min_rec(imgs: Seq<Seq<Seq<Pixel>>>, n: int, x: int, y: int, m: int, k: int)
    requires
        0 <= m < n,
        k <= n,
        forall|t: int| 0 <= t < n ==> sample_key(imgs, n, x, y, m) <= #[trigger] sample_key(
            imgs,
            n,
            x,
            y,
            t,
        ),
    ensures
        key_rank(imgs, n, x, y, m, k) == 0,
    decreases k,
{
    if k > 0 {
        lemma_rank_of_min_rec(imgs, n, x, y, m, k - 1);
    }
}

spec fn is_min_key(imgs: Seq<Seq<Seq<Pixel>>>, n: int, x: int, y: int, k: int, m: int) -> bool {
    0 <= m < k && forall|t: int|
        0 <= t < k ==> sample_key(imgs, n, x, y, m) <= #[trigger] sample_key(imgs, n, x, y, t)
}

proof fn lemma_exists_min(imgs: Seq<Seq<Seq<Pixel>>>, n: int, x: int, y: int, k: int)
    requires
        1 <= k <= n,
    ensures
        exists|m: int| #[trigger] is_min_key(imgs, n, x, y, k, m),
    decreases k,
{
    if k == 1 {
        assert(is_min_key(imgs, n, x, y, k, 0));
    } else {
        lemma_exists_min(imgs, n, x, y, k - 1);
        let m0 = choose|m: int| #[trigger] is_min_key(imgs, n, x, y, k - 1, m);
        if sample_key(imgs, n, x, y, k - 1) < sample_key(imgs, n, x, y, m0) {
            assert(is_min_key(imgs, n, x, y, k, k - 1));
        } else {
            assert(is_min_key(imgs, n, x, y, k, m0));
        }
    }
}

proof fn lemma_kept_count_member(imgs: Seq<Seq<Seq<Pixel>>>, n: int, x: int, y: int, idx: int, k: int)
    requires
        0 <= idx < k,
        kept(imgs, n, x, y, idx),
    ensures
        kept_count(imgs, n, x, y, k) >= 1,
    decreases k,
{
    if idx < k - 1 {
        lemma_kept_count_member(imgs, n, x, y, idx, k - 1);
        lemma_kept_count_nonneg_step(imgs, n, x, y, k);
    } else {
        lemma_kept_count_nonneg(imgs, n, x, y, k - 1);
    }
}

proof fn lemma_kept_count_nonneg(imgs: Seq<Seq<Seq<Pixel>>>, n: int, x: int, y: int, k: int)
    ensures
        kept_count(imgs, n, x, y, k) >= 0,
    decreases k,
{
    if k > 0 {
        lemma_kept_count_nonneg(imgs, n, x, y, k - 1);
    }
}

proof fn lemma_kept_count_nonneg_step(imgs: Seq<Seq<Seq<Pixel>>>, n: int, x: int, y: int, k: int)
    ensures
        kept_count(imgs, n, x, y, k) >= kept_count(imgs, n, x, y, k - 1),
{
}

/// At least one sample is kept at every pixel: the sample with the smallest
/// key has rank zero, and at least one sample is always requested.
pub proof fn lemma_kept_count_pos(imgs: Seq<Seq<Seq<Pixel>>>, n: int, x: int, y: int)
    requires
        n >= 1,
    ensures
        kept_count(imgs, n, x, y, n) >= 1,
{
    lemma_exists_min(imgs, n, x, y, n);
    let m = choose|m: int| #[trigger] is_min_key(imgs, n, x, y, n, m);
    lemma_rank_of_min(imgs, n, x, y, m);
    assert(kept(imgs, n, x, y, m));
    lemma_kept_count_member(imgs, n, x, y, m, n);
}

} // verus!

verus! {

/// The pixel grids of a sequence of images.
pub open spec fn img_views(v: Seq<Image>) -> Seq<Seq<Seq<Pixel>>> {
    Seq::new(v.len(), |k: int| v[k]@)
}

/// All images share the dimensions of the first, and those are supported.
pub open spec fn avg_input_ok(v: Seq<Image>) -> bool {
    &&& 1 <= v.len() <= 0xFFFF
    &&& 1 <= v[0].spec_width() <= 65536
    &&& 1 <= v[0].spec_height() <= 65536
    &&& forall|k: int|
        0 <= k < v.len() ==> (#[trigger] v[k]).spec_width() == v[0].spec_width() && v[k].spec_height()
            == v[0].spec_height()
}

/// The first-pass mean of all samples at one pixel.
#[verifier::loop_isolation(false)]
fn first_pixel(input: &Vec<Image>, x: usize, y: usize) -> (px: Pixel)
    requires
        forall|k: int| 0 <= k < input@.len() ==> (#[trigger] input@[k]).wf(),
        avg_input_ok(input@),
        x < input@[0].spec_width(),
        y < input@[0].spec_height(),
    ensures
        px == first_avg(img_views(input@), input@.len() as int, x as int, y as int),
{
    let ghost imgs = img_views(input@);
    let ghost n = input@.len() as int;
    let mut rgba = RGBA::new();
    let mut k: usize = 0;
    while k < input.len()
        invariant
            k <= input@.len(),
            rgba.wf(),
            rgba.total_record == k,
            rgba.r as int == chan_sum(imgs, k as int, x as int, y as int, 0),
            rgba.g as int == chan_sum(imgs, k as int, x as int, y as int, 1),
            rgba.b as int == chan_sum(imgs, k as int, x as int, y as int, 2),
            rgba.p as int == chan_sum(imgs, k as int, x as int, y as int, 3),
        decreases input@.len() - k,
    {
        let p = input[k].get_pixel(x, y);
        proof {
            assert(imgs[k as int] == input@[k as int]@);
        }
        rgba.set_val(p);
        k = k + 1;
    }
    rgba.avg_rgb()
}

/// The key of one sample at one pixel: colour distance to the first-pass
/// mean in the high bits, the sample index in the low bits.
#[verifier::loop_isolation(false)]
fn sample_key_exec(input: &Vec<Image>, first: Pixel, x: usize, y: usize, idx: usize) -> (r: u64)
    requires
        forall|k: int| 0 <= k < input@.len() ==> (#[trigger] input@[k]).wf(),
        avg_input_ok(input@),
        x < input@[0].spec_width(),
        y < input@[0].spec_height(),
        idx < input@.len(),
        first == first_avg(img_views(input@), input@.len() as int, x as int, y as int),
    ensures
        r as int == sample_key(img_views(input@), input@.len() as int, x as int, y as int, idx as int),
{
    let d = rgb_diff(input[idx].get_pixel(x, y), first) as u64;
    proof {
        assert(img_views(input@)[idx as int] == input@[idx as int]@);
    }
    d * 0x1_0000_0000 + idx as u64
}

/// The trimmed mean of the samples at one pixel: rank each sample by its
/// key and average the `keep_count` best-ranked ones.
#[verifier::loop_isolation(false)]
#[verifier::rlimit(60)]
fn trimmed_pixel(input: &Vec<Image>, first: Pixel, x: usize, y: usize) -> (px: Pixel)
    requires
        forall|k: int| 0 <= k < input@.len() ==> (#[trigger] input@[k]).wf(),
        avg_input_ok(input@),
        x < input@[0].spec_width(),
        y < input@[0].spec_height(),
        first == first_avg(img_views(input@), input@.len() as int, x as int, y as int),
    ensures
        px == trimmed_avg(img_views(input@), input@.len() as int, x as int, y as int),
{
    let ghost imgs = img_views(input@);
    let ghost n = input@.len() as int;
    let len = input.len();
    let keep0 = len * 85 / 100;
    let n_keep = if keep0 < 1 {
        1
    } else {
        keep0
    };
    proof {
        assert(n_keep as int == keep_count(n));
    }
    let mut rgba = RGBA::new();
    let mut idx: usize = 0;
    while idx < len
        invariant
            idx <= len,
            len == input@.len(),
            rgba.wf(),
            rgba.total_record as int == kept_count(imgs, n, x as int, y as int, idx as int),
            rgba.r as int == kept_sum(imgs, n, x as int, y as int, 0, idx as int),
            rgba.g as int == kept_sum(imgs, n, x as int, y as int, 1, idx as int),
            rgba.b as int == kept_sum(imgs, n, x as int, y as int, 2, idx as int),
            rgba.p as int == kept_sum(imgs, n, x as int, y as int, 3, idx as int),
            rgba.total_record <= idx,
        decreases len - idx,
    {
        let my_key = sample_key_exec(input, first, x, y, idx);
        let mut count: usize = 0;
        let mut k2: usize = 0;
        while k2 < len
            invariant
                k2 <= len,
                idx < len,
                len == input@.len(),
                my_key as int == sample_key(imgs, n, x as int, y as int, idx as int),
                count as int == key_rank(imgs, n, x as int, y as int, idx as int, k2 as int),
                count <= k2,
            decreases len - k2,
        {
            let other = sample_key_exec(input, first, x, y, k2);
            if other < my_key {
                count = count + 1;
            }
            k2 = k2 + 1;
        }
        if count < n_keep {
            let p = input[idx].get_pixel(x, y);
            proof {
                assert(imgs[idx as int] == input@[idx as int]@);
                assert(kept(imgs, n, x as int, y as int, idx as int));
            }
            rgba.set_val(p);
        } else {
            proof {
                assert(!kept(imgs, n, x as int, y as int, idx as int));
            }
        }
        idx = idx + 1;
    }
    proof {
        lemma_kept_count_pos(imgs, n, x as int, y as int);
    }
    rgba.avg_rgb()
}

/// Composite several equally sized images: per pixel, take the mean of all
/// samples, then the mean of the ~85% of samples closest to it.
#[verifier::loop_isolation(false)]
#[verifier::rlimit(60)]
pub fn avg(input: &Vec<Image>) -> (r: Result<Image, HilltopError>)
    requires
        forall|k: int| 0 <= k < input@.len() ==> (#[trigger] input@[k]).wf(),
    ensures
        r is Ok <==> avg_input_ok(input@),
        match r {
            Ok(out) => ({
                let n = input@.len() as int;
                let imgs = img_views(input@);
                &&& out.wf()
                &&& out.spec_width() == input@[0].spec_width()
                &&& out.spec_height() == input@[0].spec_height()
                &&& forall|x: int, y: int|
                    0 <= x < out.spec_width() && 0 <= y < out.spec_height() ==> out@[x][y]
                        == trimmed_avg(imgs, n, x, y)
            }),
            Err(e) => e == HilltopError::InvalidInput,
        },
{
    let n = input.len();
    if n < 1 || n > 0xFFFF {
        return Err(HilltopError::InvalidInput);
    }
    let width = input[0].width();
    let height = input[0].height();
    if width < 1 || width > 65536 || height < 1 || height > 65536 {
        return Err(HilltopError::InvalidInput);
    }
    let mut k: usize = 0;
    while k < n
        invariant
            k <= n,
            n == input@.len(),
            width == input@[0].spec_width(),
            height == input@[0].spec_height(),
            forall|t: int|
                0 <= t < k ==> (#[trigger] input@[t]).spec_width() == width && input@[t].spec_height()
                    == height,
        decreases n - k,
    {
        if input[k].width() != width || input[k].height() != height {
            return Err(HilltopError::InvalidInput);
        }
        k = k + 1;
    }
    let ghost imgs = img_views(input@);
    let ghost ni = input@.len() as int;
    let mut out = Image::new(width, height, Pixel { r: 0, g: 0, b: 0, a: 0 });
    let mut x: usize = 0;
    while x < width
        invariant
            x <= width,
            out.wf(),
            out.spec_width() == width,
            out.spec_height() == height,
            forall|a: int, b: int|
                0 <= a < x && 0 <= b < height ==> out@[a][b] == trimmed_avg(imgs, ni, a, b),
        decreases width - x,
    {
        let mut y: usize = 0;
        while y < height
            invariant
                y <= height,
                x < width,
                out.wf(),
                out.spec_width() == width,
                out.spec_height() == height,
                forall|a: int, b: int|
                    0 <= a < x && 0 <= b < height ==> out@[a][b] == trimmed_avg(imgs, ni, a, b),
                forall|b: int| 0 <= b < y ==> out@[x as int][b] == trimmed_avg(imgs, ni, x as int, b),
            decreases height - y,
        {
            let fp = first_pixel(input, x, y);
            let tp = trimmed_pixel(input, fp, x, y);
            let ghost before = out;
            out.set_pixel(x, y, tp);
            proof {
                assert forall|a: int, b: int|
                    0 <= a < width && 0 <= b < height && !(a == x as int && b == y as int) implies
                    out@[a][b] == before@[a][b] by {
                    if a == x as int {
                        assert(out@[a] == before@[a].update(y as int, tp));
                    } else {
                        assert(out@[a] == before@[a]);
                    }
                }
                assert(out@[x as int][y as int] == tp);
            }
            y = y + 1;
        }
        x = x + 1;
    }
    Ok(out)
}

} // verus!
