use vstd::prelude::*;
use crate::color::{
    ColorObj, classify, within_tolerance, foreground, background, marker, foreground_color,
    background_color, marker_color,
};

verus! {

/// Why a frame could not be built.
#[derive(Clone, Copy, Debug, PartialEq, Eq, Structural)]
pub enum FrameError {
    /// The pixel buffer does not hold exactly `width * height` RGB triples.
    InputShape,
}

/// A raster frame: `width * height` colors stored row by row.
#[derive(Clone, Debug)]
pub struct Frame {
    pub width: u32,
    pub height: u32,
    pub pixels: Vec<ColorObj>,
}

/// Position of pixel `(x, y)` in the row-major pixel sequence.
pub open spec fn index_of(width: int, x: int, y: int) -> int {
    y * width + x
}

/// The color that `raw` holds for pixel `i`: bytes `3i`, `3i + 1` and `3i + 2`.
pub open spec fn color_at_raw(raw: Seq<u8>, i: int) -> ColorObj {
    ColorObj { r: raw[3 * i], g: raw[3 * i + 1], b: raw[3 * i + 2] }
}

impl Frame {
    /// The pixel buffer holds one color per pixel.
    pub open spec fn wf(&self) -> bool {
        self.pixels@.len() == self.width * self.height
    }

    pub open spec fn in_bounds(&self, x: int, y: int) -> bool {
        0 <= x < self.width && 0 <= y < self.height
    }

    /// The color of pixel `(x, y)`.
    pub open spec fn pixel(&self, x: int, y: int) -> ColorObj {
        self.pixels@[index_of(self.width as int, x, y)]
    }

    pub open spec fn is_foreground(&self, x: int, y: int) -> bool {
        self.in_bounds(x, y) && self.pixel(x, y) == foreground()
    }

    /// Builds a frame from `width * height` RGB byte triples, row by row.
    /// Fails with `InputShape` exactly when `raw` has another length.
    pub fn from_rgb(width: u32, height: u32, raw: &Vec<u8>) -> (res: Result<Frame, FrameError>)
        ensures
            raw@.len() == 3 * (width * height) <==> res is Ok,
            res is Err ==> res == Err::<Frame, FrameError>(FrameError::InputShape),
            res matches Ok(f) ==> f.wf() && f.width == width && f.height == height
                && forall|i: int| 0 <= i < f.pixels@.len() ==> #[trigger] f.pixels@[i] == color_at_raw(raw@, i),
    {
        proof {
            assert((width as int) * (height as int) <= u64::MAX) by (nonlinear_arith)
                requires width <= u32::MAX, height <= u32::MAX;
        }
        let n: u64 = (width as u64) * (height as u64);
        let len: usize = raw.len();
        if len % 3 != 0 || (len / 3) as u64 != n {
            return Err(FrameError::InputShape);
        }
        let count: usize = len / 3;
        proof {
            assert(len == 3 * count) by (nonlinear_arith)
                requires len % 3 == 0, count == len / 3;
        }
        let mut pixels: Vec<ColorObj> = Vec::with_capacity(count);
        let mut i: usize = 0;
        while i < count
            invariant
                count == raw@.len() / 3,
                raw@.len() == 3 * count,
                len == raw@.len(),
                i <= count,
                pixels@.len() == i,
                forall|k: int| 0 <= k < i ==> #[trigger] pixels@[k] == color_at_raw(raw@, k),
            decreases count - i,
        {
            let c = ColorObj { r: raw[3 * i], g: raw[3 * i + 1], b: raw[3 * i + 2] };
            pixels.push(c);
            i += 1;
        }
        Ok(Frame { width, height, pixels })
    }

    /// The frame as RGB byte triples, row by row.
    pub fn to_rgb(&self) -> (res: Vec<u8>)
        requires
            self.pixels@.len() * 3 <= usize::MAX,
        ensures
            res@.len() == 3 * self.pixels@.len(),
            forall|i: int| 0 <= i < self.pixels@.len() ==> #[trigger] color_at_raw(res@, i) == self.pixels@[i],
    {
        let mut out: Vec<u8> = Vec::with_capacity(self.pixels.len() * 3);
        let mut i: usize = 0;
        while i < self.pixels.len()
            invariant
                i <= self.pixels@.len(),
                self.pixels@.len() * 3 <= usize::MAX,
                out@.len() == 3 * i,
                forall|k: int| 0 <= k < i ==> #[trigger] color_at_raw(out@, k) == self.pixels@[k],
            decreases self.pixels@.len() - i,
        {
            let c = self.pixels[i];
            let ghost before = out@;
            out.push(c.r);
            out.push(c.g);
            out.push(c.b);
            proof {
                assert forall|k: int| 0 <= k < i + 1 implies #[trigger] color_at_raw(out@, k) == self.pixels@[k] by {
                    if k < i {
                        assert(color_at_raw(before, k) == self.pixels@[k]);
                    }
                }
            }
            i += 1;
        }
        out
    }

    /// The color of pixel `(x, y)`.
    pub fn get_pixel(&self, x: u32, y: u32) -> (res: ColorObj)
        requires
            self.wf(),
            self.in_bounds(x as int, y as int),
        ensures
            res == self.pixel(x as int, y as int),
    {
        let len: usize = self.pixels.len();
        proof {
            lemma_index_in_range(self.width as int, self.height as int, x as int, y as int);
            assert((y as int) * (self.width as int) <= len);
        }
        self.pixels[(y as usize) * (self.width as usize) + (x as usize)]
    }

    /// Sets pixel `(x, y)` to `color`, leaving every other pixel as it was.
    pub fn set_pixel(&mut self, x: u32, y: u32, color: ColorObj)
        requires
            old(self).wf(),
            old(self).in_bounds(x as int, y as int),
        ensures
            final(self).wf(),
            final(self).width == old(self).width,
            final(self).height == old(self).height,
            final(self).pixels@ == old(self).pixels@.update(index_of(old(self).width as int, x as int, y as int), color),
    {
        let len: usize = self.pixels.len();
        proof {
            lemma_index_in_range(self.width as int, self.height as int, x as int, y as int);
            assert((y as int) * (self.width as int) <= len);
        }
        let i: usize = (y as usize) * (self.width as usize) + (x as usize);
        self.pixels.set(i, color);
    }

    /// The mask frame: each pixel that lies within `tol` of `reference` becomes
    /// the foreground color and every other pixel the background color.
    pub fn threshold(&self, reference: ColorObj, tol: u8) -> (res: Frame)
        requires
            self.wf(),
        ensures
            res.wf(),
            res.width == self.width,
            res.height == self.height,
            forall|i: int| 0 <= i < res.pixels@.len() ==> #[trigger] res.pixels@[i] == (
                if within_tolerance(self.pixels@[i], reference, tol) { foreground() } else { background() }),
            forall|i: int| 0 <= i < res.pixels@.len() ==>
                #[trigger] res.pixels@[i] == foreground() || res.pixels@[i] == background(),
    {
        let mut pixels: Vec<ColorObj> = Vec::with_capacity(self.pixels.len());
        let mut i: usize = 0;
        while i < self.pixels.len()
            invariant
                i <= self.pixels@.len(),
                pixels@.len() == i,
                forall|k: int| 0 <= k < i ==> #[trigger] pixels@[k] == (
                    if within_tolerance(self.pixels@[k], reference, tol) { foreground() } else { background() }),
            decreases self.pixels@.len() - i,
        {
            if classify(self.pixels[i], reference, tol) {
                pixels.push(foreground_color());
            } else {
                pixels.push(background_color());
            }
            i += 1;
        }
        Frame { width: self.width, height: self.height, pixels }
    }

    /// A copy of this frame with the pixel at each of `points` set to the marker color.
    pub fn annotate(&self, points: &Vec<(u32, u32)>) -> (res: Frame)
        requires
            self.wf(),
            forall|k: int| 0 <= k < points@.len() ==> self.in_bounds(#[trigger] points@[k].0 as int, points@[k].1 as int),
        ensures
            res.wf(),
            res.width == self.width,
            res.height == self.height,
            forall|i: int| 0 <= i < res.pixels@.len() ==> #[trigger] res.pixels@[i] == (
                if marks(self.width as int, points@, points@.len() as int, i) { marker() } else { self.pixels@[i] }),
    {
        let mut out = Frame { width: self.width, height: self.height, pixels: self.pixels.clone() };
        let mut j: usize = 0;
        while j < points.len()
            invariant
                self.wf(),
                forall|k: int| 0 <= k < points@.len() ==> self.in_bounds(#[trigger] points@[k].0 as int, points@[k].1 as int),
                j <= points@.len(),
                out.wf(),
                out.width == self.width,
                out.height == self.height,
                forall|i: int| 0 <= i < out.pixels@.len() ==> #[trigger] out.pixels@[i] == (
                    if marks(self.width as int, points@, j as int, i) { marker() } else { self.pixels@[i] }),
            decreases points@.len() - j,
        {
            let (x, y) = points[j];
            let ghost prev = out.pixels@;
            out.set_pixel(x, y, marker_color());
            proof {
                let w = self.width as int;
                lemma_index_in_range(w, self.height as int, x as int, y as int);
                assert forall|i: int| 0 <= i < out.pixels@.len() implies #[trigger] out.pixels@[i] == (
                    if marks(w, points@, j + 1, i) { marker() } else { self.pixels@[i] }) by {
                    assert(prev[i] == (if marks(w, points@, j as int, i) { marker() } else { self.pixels@[i] }));
                    if i == index_of(w, x as int, y as int) {
                        assert(points@[j as int].0 == x && points@[j as int].1 == y);
                        assert(marks(w, points@, j + 1, i));
                    } else if marks(w, points@, j + 1, i) {
                        let k = choose|k: int| 0 <= k < j + 1 && index_of(w, #[trigger] points@[k].0 as int, points@[k].1 as int) == i;
                        assert(k < j);
                        assert(marks(w, points@, j as int, i));
                        assert(prev[i] == marker());
                    } else {
                        assert(!marks(w, points@, j as int, i));
                        assert(prev[i] == self.pixels@[i]);
                    }
                }
            }
            j += 1;
        }
        out
    }
}

/// Whether one of the first `n` of `points` lies at pixel index `i`.
pub open spec fn marks(width: int, points: Seq<(u32, u32)>, n: int, i: int) -> bool {
    exists|k: int| 0 <= k < n && index_of(width, #[trigger] points[k].0 as int, points[k].1 as int) == i
}

/// A pixel position inside a `width` by `height` frame has an index below `width * height`.
pub proof fn lemma_index_in_range(width: int, height: int, x: int, y: int)
    requires
        0 <= x < width,
        0 <= y < height,
    ensures
        0 <= y * width,
        0 <= index_of(width, x, y) < width * height,
{
    assert(y * width + x < width * height) by (nonlinear_arith)
        requires 0 <= x < width, 0 <= y < height;
    assert(0 <= y * width) by (nonlinear_arith)
        requires 0 <= x < width, 0 <= y;
}

} // verus!
