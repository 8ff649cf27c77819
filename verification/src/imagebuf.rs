//! A plain RGBA pixel buffer and the compositing step that copies packed
//! source images into the final canvas.
use vstd::prelude::*;

verus! {

/// A decoded image: RGBA, 8 bits per channel, rows top to bottom.
#[derive(Clone, Debug)]
pub struct Rgba8Image {
    /// Width in pixels.
    pub width: u32,
    /// Height in pixels.
    pub height: u32,
    /// `4 * width * height` bytes, pixel by pixel.
    pub pixels: Vec<u8>,
}

impl Rgba8Image {
    /// The buffer holds exactly one 4-byte pixel per coordinate.
    pub open spec fn wf(self) -> bool {
        self.pixels@.len() == 4 * (self.width as int) * (self.height as int)
    }

    /// The first byte of the pixel at `(x, y)`.
    pub open spec fn pixel_off(self, x: int, y: int) -> int {
        4 * (y * (self.width as int) + x)
    }

    /// The RGBA bytes of the pixel at `(x, y)`.
    pub open spec fn pixel_at(self, x: int, y: int) -> (u8, u8, u8, u8) {
        let off = self.pixel_off(x, y);
        (self.pixels@[off], self.pixels@[off + 1], self.pixels@[off + 2], self.pixels@[off + 3])
    }

    /// A fully transparent image of the given dimensions.
    pub fn new(width: u32, height: u32) -> (r: Rgba8Image)
        requires
            4 * (width as int) * (height as int) <= usize::MAX,
        ensures
            r.wf(),
            r.width == width,
            r.height == height,
            forall|i: int| 0 <= i < r.pixels@.len() ==> r.pixels@[i] == 0u8,
    {
        proof {
            assert(0 <= (width as int) * (height as int) && (width as int) * (height as int) <= 4
                * (width as int) * (height as int) && 4 * ((width as int) * (height as int)) == 4
                * (width as int) * (height as int)) by (nonlinear_arith);
        }
        let total: usize = 4 * ((width as usize) * (height as usize));
        let mut pixels: Vec<u8> = Vec::new();
        let mut i: usize = 0;
        while i < total
            invariant
                i <= total,
                pixels@.len() == i,
                forall|j: int| 0 <= j < i ==> pixels@[j] == 0u8,
            decreases total - i,
        {
            pixels.push(0u8);
            i = i + 1;
        }
        Rgba8Image { width, height, pixels }
    }
}

/// A pixel's bytes lie inside a well-formed buffer.
pub proof fn lemma_pixel_off_bounds(img: Rgba8Image, x: int, y: int)
    requires
        img.wf(),
        0 <= x < img.width,
        0 <= y < img.height,
    ensures
        0 <= img.pixel_off(x, y),
        img.pixel_off(x, y) + 4 <= img.pixels@.len(),
{
    let w = img.width as int;
    let h = img.height as int;
    assert(0 <= 4 * (y * w + x) && 4 * (y * w + x) + 4 <= 4 * w * h) by (nonlinear_arith)
        requires
            0 <= x < w,
            0 <= y < h,
    ;
}

/// Distinct pixel coordinates use distinct byte ranges.
pub proof fn lemma_pixel_off_distinct(img: Rgba8Image, x1: int, y1: int, x2: int, y2: int)
    requires
        0 <= x1 < img.width,
        0 <= y1 < img.height,
        0 <= x2 < img.width,
        0 <= y2 < img.height,
        !(x1 == x2 && y1 == y2),
    ensures
        img.pixel_off(x1, y1) + 4 <= img.pixel_off(x2, y2) || img.pixel_off(x2, y2) + 4
            <= img.pixel_off(x1, y1),
{
    let w = img.width as int;
    assert((y1 * w + x1) + 1 <= y2 * w + x2 || (y2 * w + x2) + 1 <= y1 * w + x1)
        by (nonlinear_arith)
        requires
            0 <= x1 < w,
            0 <= x2 < w,
            y1 >= 0,
            y2 >= 0,
            !(x1 == x2 && y1 == y2),
    ;
    assert(4 * ((y1 * w + x1) + 1) <= 4 * (y2 * w + x2) || 4 * ((y2 * w + x2) + 1) <= 4 * (y1 * w
        + x1)) by (nonlinear_arith)
        requires
            (y1 * w + x1) + 1 <= y2 * w + x2 || (y2 * w + x2) + 1 <= y1 * w + x1,
    ;
}

/// Reads the pixel at `(x, y)`.
pub fn get_pixel(img: &Rgba8Image, x: u32, y: u32) -> (p: (u8, u8, u8, u8))
    requires
        img.wf(),
        x < img.width,
        y < img.height,
    ensures
        p == img.pixel_at(x as int, y as int),
{
    proof {
        lemma_pixel_off_bounds(*img, x as int, y as int);
        let plen = img.pixels@.len() as int;
        assert((y as int) * (img.width as int) >= 0 && (y as int) * (img.width as int) <= (y as int)
            * (img.width as int) + (x as int)) by (nonlinear_arith)
            requires
                x >= 0,
                y >= 0,
                img.width >= 0,
        ;
    }
    let plen = img.pixels.len();
    let off: usize = 4 * ((y as usize) * (img.width as usize) + (x as usize));
    (img.pixels[off], img.pixels[off + 1], img.pixels[off + 2], img.pixels[off + 3])
}

/// Writes the pixel at `(x, y)`, leaving every other pixel unchanged.
pub fn set_pixel(img: &mut Rgba8Image, x: u32, y: u32, p: (u8, u8, u8, u8))
    requires
        old(img).wf(),
        x < old(img).width,
        y < old(img).height,
    ensures
        final(img).wf(),
        final(img).width == old(img).width,
        final(img).height == old(img).height,
        final(img).pixel_at(x as int, y as int) == p,
        forall|x2: int, y2: int|
            0 <= x2 < old(img).width && 0 <= y2 < old(img).height && !(x2 == x && y2 == y)
                ==> final(img).pixel_at(x2, y2) == old(img).pixel_at(x2, y2),
{
    proof {
        lemma_pixel_off_bounds(*img, x as int, y as int);
        let plen = img.pixels@.len() as int;
        assert((y as int) * (img.width as int) >= 0 && (y as int) * (img.width as int) <= (y as int)
            * (img.width as int) + (x as int)) by (nonlinear_arith)
            requires
                x >= 0,
                y >= 0,
                img.width >= 0,
        ;
    }
    let plen = img.pixels.len();
    let off: usize = 4 * ((y as usize) * (img.width as usize) + (x as usize));
    let (r, g, b, a) = p;
    img.pixels.set(off, r);
    img.pixels.set(off + 1, g);
    img.pixels.set(off + 2, b);
    img.pixels.set(off + 3, a);
    proof {
        assert forall|x2: int, y2: int|
            0 <= x2 < old(img).width && 0 <= y2 < old(img).height && !(x2 == x && y2
                == y) implies img.pixel_at(x2, y2) == old(img).pixel_at(x2, y2) by {
            lemma_pixel_off_distinct(*old(img), x2, y2, x as int, y as int);
            lemma_pixel_off_bounds(*old(img), x2, y2);
        }
    }
}

/// Copies `src` into `dst` with its top-left corner at `(fx, fy)`. Pixels
/// outside the copied rectangle keep their value.
pub fn blit(dst: &mut Rgba8Image, src: &Rgba8Image, fx: u32, fy: u32)
    requires
        old(dst).wf(),
        src.wf(),
        fx + src.width <= old(dst).width,
        fy + src.height <= old(dst).height,
    ensures
        final(dst).wf(),
        final(dst).width == old(dst).width,
        final(dst).height == old(dst).height,
        forall|dx: int, dy: int|
            0 <= dx < src.width && 0 <= dy < src.height ==> final(dst).pixel_at(
                fx + dx,
                fy + dy,
            ) == src.pixel_at(dx, dy),
        forall|x: int, y: int|
            0 <= x < old(dst).width && 0 <= y < old(dst).height && !(fx <= x < fx + src.width && fy
                <= y < fy + src.height) ==> final(dst).pixel_at(x, y) == old(dst).pixel_at(x, y),
{
    let sw = src.width;
    let sh = src.height;
    let mut dy: u32 = 0;
    while dy < sh
        invariant
            dy <= sh,
            sw == src.width,
            sh == src.height,
            src.wf(),
            fx + sw <= old(dst).width,
            fy + sh <= old(dst).height,
            dst.wf(),
            dst.width == old(dst).width,
            dst.height == old(dst).height,
            forall|dx2: int, dy2: int|
                0 <= dx2 < sw && 0 <= dy2 < dy ==> dst.pixel_at(fx + dx2, fy + dy2)
                    == src.pixel_at(dx2, dy2),
            forall|x: int, y: int|
                0 <= x < old(dst).width && 0 <= y < old(dst).height && !(fx <= x < fx + sw && fy
                    <= y < fy + sh) ==> dst.pixel_at(x, y) == old(dst).pixel_at(x, y),
        decreases sh - dy,
    {
        let mut dx: u32 = 0;
        while dx < sw
            invariant
                dx <= sw,
                dy < sh,
                sw == src.width,
                sh == src.height,
                src.wf(),
                fx + sw <= old(dst).width,
                fy + sh <= old(dst).height,
                dst.wf(),
                dst.width == old(dst).width,
                dst.height == old(dst).height,
                forall|dx2: int, dy2: int|
                    0 <= dx2 < sw && 0 <= dy2 < dy ==> dst.pixel_at(fx + dx2, fy + dy2)
                        == src.pixel_at(dx2, dy2),
                forall|dx2: int| 0 <= dx2 < dx ==> dst.pixel_at(fx + dx2, fy + dy) == src.pixel_at(
                    dx2,
                    dy as int,
                ),
                forall|x: int, y: int|
                    0 <= x < old(dst).width && 0 <= y < old(dst).height && !(fx <= x < fx + sw && fy
                        <= y < fy + sh) ==> dst.pixel_at(x, y) == old(dst).pixel_at(x, y),
            decreases sw - dx,
        {
            let p = get_pixel(src, dx, dy);
            set_pixel(dst, fx + dx, fy + dy, p);
            dx = dx + 1;
        }
        dy = dy + 1;
    }
}

} // verus!
