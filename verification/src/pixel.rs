//! Pixels, images, and the per-pixel difference measure.
//!
//! An `Image` is the library's own dense pixel grid: the decoded form of
//! whatever an outside codec produced.  It exposes exactly the interface the
//! search engine needs: width, height, and random-access RGBA reads.

use vstd::prelude::*;

verus! {

/// One RGBA sample, each channel in `0..=255`.
#[derive(Clone, Copy, Debug, PartialEq, Eq, Structural)]
pub struct Pixel {
    pub r: u8,
    pub g: u8,
    pub b: u8,
    pub a: u8,
}

/// The L1 distance of the colour channels of two pixels; alpha is ignored.
/// Always in `0..=765`.
pub open spec fn diff_val(p: Pixel, q: Pixel) -> int {
    abs_diff(p.r as int, q.r as int) + abs_diff(p.g as int, q.g as int) + abs_diff(
        p.b as int,
        q.b as int,
    )
}

pub open spec fn abs_diff(a: int, b: int) -> int {
    if a >= b {
        a - b
    } else {
        b - a
    }
}

/// Sum of absolute per-channel differences of the colour channels (alpha
/// ignored) of two pixels.
pub fn rgb_diff(left: Pixel, right: Pixel) -> (r: i32)
    ensures
        r == diff_val(left, right),
        0 <= r <= 765,
{
    let dr = if left.r >= right.r {
        left.r - right.r
    } else {
        right.r - left.r
    };
    let dg = if left.g >= right.g {
        left.g - right.g
    } else {
        right.g - left.g
    };
    let db = if left.b >= right.b {
        left.b - right.b
    } else {
        right.b - left.b
    };
    dr as i32 + dg as i32 + db as i32
}

/// A dense `width x height` pixel grid, indexed `[x][y]` with `x` running
/// over columns (`0..width`) and `y` over rows (`0..height`).
pub struct Image {
    pixels: Vec<Vec<Pixel>>,
    width: usize,
    height: usize,
}

impl Image {
    /// The pixel grid as a mathematical sequence of columns.
    pub closed spec fn view(&self) -> Seq<Seq<Pixel>> {
        Seq::new(self.pixels@.len(), |i: int| self.pixels@[i]@)
    }

    pub closed spec fn spec_width(&self) -> usize {
        self.width
    }

    pub closed spec fn spec_height(&self) -> usize {
        self.height
    }

    /// The grid really has the advertised dimensions.
    pub open spec fn wf(&self) -> bool {
        &&& self@.len() == self.spec_width()
        &&& forall|i: int|
            0 <= i < self.spec_width() ==> (#[trigger] self@[i]).len() == self.spec_height()
    }

    /// A `width x height` image with every pixel set to `fill`.
    pub fn new(width: usize, height: usize, fill: Pixel) -> (img: Image)
        ensures
            img.wf(),
            img.spec_width() == width,
            img.spec_height() == height,
            forall|i: int, j: int|
                0 <= i < width && 0 <= j < height ==> img@[i][j] == fill,
    {
        let mut pixels: Vec<Vec<Pixel>> = Vec::new();
        let mut i: usize = 0;
        while i < width
            invariant
                i <= width,
                pixels@.len() == i,
                forall|k: int| 0 <= k < i ==> (#[trigger] pixels@[k])@.len() == height,
                forall|k: int, j: int|
                    0 <= k < i && 0 <= j < height ==> pixels@[k]@[j] == fill,
            decreases width - i,
        {
            let mut col: Vec<Pixel> = Vec::new();
            let mut j: usize = 0;
            while j < height
                invariant
                    j <= height,
                    col@.len() == j,
                    forall|t: int| 0 <= t < j ==> col@[t] == fill,
                decreases height - j,
            {
                col.push(fill);
                j = j + 1;
            }
            pixels.push(col);
            i = i + 1;
        }
        Image { pixels, width, height }
    }

    pub fn width(&self) -> (w: usize)
        ensures
            w == self.spec_width(),
    {
        self.width
    }

    pub fn height(&self) -> (h: usize)
        ensures
            h == self.spec_height(),
    {
        self.height
    }

    pub fn get_pixel(&self, x: usize, y: usize) -> (p: Pixel)
        requires
            self.wf(),
            x < self.spec_width(),
            y < self.spec_height(),
        ensures
            p == self@[x as int][y as int],
    {
        proof {
            assert(self.pixels@.len() == self@.len());
            assert(self.pixels@[x as int]@ == self@[x as int]);
        }
        self.pixels[x][y]
    }

    pub fn set_pixel(&mut self, x: usize, y: usize, p: Pixel)
        requires
            old(self).wf(),
            x < old(self).spec_width(),
            y < old(self).spec_height(),
        ensures
            final(self).wf(),
            final(self).spec_width() == old(self).spec_width(),
            final(self).spec_height() == old(self).spec_height(),
            final(self)@ == old(self)@.update(x as int, old(self)@[x as int].update(y as int, p)),
    {
        proof {
            assert(self.pixels@.len() == self@.len());
            assert(self.pixels@[x as int]@ == self@[x as int]);
        }
        self.pixels[x][y] = p;
        proof {
            assert(self@ =~= old(self)@.update(
                x as int,
                old(self)@[x as int].update(y as int, p),
            ));
        }
    }
}

} // verus!
