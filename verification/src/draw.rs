//! The pixel buffer that the board is drawn into.

use vstd::prelude::*;

verus! {

/// Width and height of the pixel buffer.
pub const PALLET_DIM: [usize; 2] = [200, 200];

/// Number of pixels in the buffer.
pub const PALLET_SIZE: usize = 40000;

/// Number of bytes in the buffer: three per pixel.
pub const PALLET_BYTES: usize = 120000;

/// Red, green and blue.
pub type Color = [u8; 3];

/// An RGB image of `PALLET_DIM` pixels, row by row.
pub struct PixelBuffer {
    pub pixels: [u8; PALLET_BYTES],
}

/// The shade of grey that a new buffer is filled with.
pub const BG_SHADE: u8 = 100;

/// Index of the first byte that `set_pixel(x, y, ..)` writes.
pub open spec fn pixel_offset(x: int, y: int) -> int {
    (200 * y + x) * 3 + 3
}

/// `set_pixel(x, y, ..)` stays inside the buffer and its arithmetic fits in `i32`.
pub open spec fn pixel_ok(x: int, y: int) -> bool {
    &&& i32::MIN <= 200 * y <= i32::MAX
    &&& 0 <= 200 * y + x <= 39998
}

/// Does the rectangle of `w` x `h` pixels at `(x, y)` hold a pixel whose
/// linear index `200 * py + px` is `lin`?
pub open spec fn rect_covers(x: int, y: int, w: int, h: int, lin: int) -> bool {
    exists|i: int, u: int| 0 <= i < w && 0 <= u < h && #[trigger] (200 * (y + u) + (x + i)) == lin
}

/// The byte at `j` after drawing the rectangle in `color` over `old`.
pub open spec fn rect_byte(old: Seq<u8>, x: int, y: int, w: int, h: int, color: Color, j: int) -> u8 {
    if j >= 3 && rect_covers(x, y, w, h, (j - 3) / 3) {
        color[(j - 3) % 3]
    } else {
        old[j]
    }
}

/// Every pixel of the rectangle is a valid `set_pixel` target (nothing to
/// check when the rectangle is empty).
pub open spec fn rect_ok(x: int, y: int, w: int, h: int) -> bool {
    w <= 0 || h <= 0 || {
        &&& x + w - 1 <= i32::MAX
        &&& y + h - 1 <= i32::MAX
        &&& i32::MIN <= 200 * y
        &&& 200 * (y + h - 1) <= i32::MAX
        &&& 0 <= 200 * y + x
        &&& 200 * (y + h - 1) + (x + w - 1) <= 39998
    }
}

impl PixelBuffer {
    /// A buffer filled with the background shade.
    pub fn new() -> (r: PixelBuffer)
        ensures
            forall|j: int| 0 <= j < PALLET_BYTES ==> #[trigger] r.pixels@[j] == BG_SHADE,
            r.pixels@.len() == PALLET_BYTES,
    {
        PixelBuffer { pixels: [BG_SHADE; PALLET_BYTES] }
    }

    /// Writes `color` to the three bytes at `pixel_offset(x, y)`.
    pub fn set_pixel(&mut self, x: i32, y: i32, color: Color)
        requires
            pixel_ok(x as int, y as int),
        ensures
            final(self).pixels@ == old(self).pixels@.update(pixel_offset(x as int, y as int), color[0])
                .update(pixel_offset(x as int, y as int) + 1, color[1])
                .update(pixel_offset(x as int, y as int) + 2, color[2]),
    {
        let offset = (((PALLET_DIM[1] as i32 * y) + x) * 3) as usize + 3;
        self.pixels[offset + 0] = color[0];
        self.pixels[offset + 1] = color[1];
        self.pixels[offset + 2] = color[2];
    }

    /// Paints the `w` x `h` pixels whose top left corner is `(x, y)`.
    pub fn set_rect(&mut self, x: i32, y: i32, w: i32, h: i32, color: Color)
        requires
            rect_ok(x as int, y as int, w as int, h as int),
        ensures
            final(self).pixels@.len() == PALLET_BYTES,
            forall|j: int|
                0 <= j < PALLET_BYTES ==> #[trigger] final(self).pixels@[j] == rect_byte(
                    old(self).pixels@,
                    x as int,
                    y as int,
                    w as int,
                    h as int,
                    color,
                    j,
                ),
    {
        let ghost old_px = self.pixels@;
        let mut i: i32 = 0;
        while i < w
            invariant
                0 <= i,
                w <= 0 ==> i == 0,
                i <= w || w <= 0,
                rect_ok(x as int, y as int, w as int, h as int),
                self.pixels@.len() == PALLET_BYTES,
                forall|j: int|
                    0 <= j < PALLET_BYTES ==> #[trigger] self.pixels@[j] == rect_byte(
                        old_px,
                        x as int,
                        y as int,
                        i as int,
                        h as int,
                        color,
                        j,
                    ),
            decreases w - i,
        {
            let mut u: i32 = 0;
            while u < h
                invariant
                    0 <= i < w,
                    0 <= u,
                    u <= h || h <= 0,
                    h <= 0 ==> u == 0,
                    rect_ok(x as int, y as int, w as int, h as int),
                    self.pixels@.len() == PALLET_BYTES,
                    forall|j: int|
                        0 <= j < PALLET_BYTES ==> #[trigger] self.pixels@[j] == (
                        if j >= 3 && (rect_covers(x as int, y as int, i as int, h as int, (j - 3) / 3)
                            || rect_covers(x as int + i, y as int, 1, u as int, (j - 3) / 3)) {
                            color[(j - 3) % 3]
                        } else {
                            old_px[j]
                        }),
                decreases h - u,
            {
                let ghost before = self.pixels@;
                self.set_pixel(i + x, u + y, color);
                proof {
                    let lin = 200 * (y + u) + (x + i);
                    assert forall|j: int| 0 <= j < PALLET_BYTES implies #[trigger] self.pixels@[j] == (
                        if j >= 3 && (rect_covers(x as int, y as int, i as int, h as int, (j - 3) / 3)
                            || rect_covers(x as int + i, y as int, 1, u + 1, (j - 3) / 3)) {
                            color[(j - 3) % 3]
                        } else {
                            old_px[j]
                        }) by {
                        if j >= 3 && (j - 3) / 3 == lin {
                            assert(200 * (y + u) + (x + i + 0) == lin);
                        } else if j >= 3 && rect_covers(x as int + i, y as int, 1, u + 1, (j - 3) / 3) {
                            let (i2, u2) = choose|i2: int, u2: int| 0 <= i2 < 1 && 0 <= u2 < u + 1 && #[trigger] (200 * (y + u2) + (x + i + i2)) == (j - 3) / 3;
                            assert(u2 != u);
                            assert(200 * (y + u2) + (x + i + i2) == (j - 3) / 3);
                        }
                    }
                }
                u = u + 1;
            }
            proof {
                assert forall|j: int| 0 <= j < PALLET_BYTES implies #[trigger] self.pixels@[j] == rect_byte(
                        old_px, x as int, y as int, i + 1, h as int, color, j) by {
                    if j >= 3 && rect_covers(x as int + i, y as int, 1, h as int, (j - 3) / 3) {
                        let (i2, u2) = choose|i2: int, u2: int| 0 <= i2 < 1 && 0 <= u2 < h && #[trigger] (200 * (y + u2) + (x + i + i2)) == (j - 3) / 3;
                        assert(200 * (y + u2) + (x + (i + i2)) == (j - 3) / 3);
                    }
                    if j >= 3 && rect_covers(x as int, y as int, i as int, h as int, (j - 3) / 3) {
                        let (i2, u2) = choose|i2: int, u2: int| 0 <= i2 < i && 0 <= u2 < h && #[trigger] (200 * (y + u2) + (x + i2)) == (j - 3) / 3;
                        assert(200 * (y + u2) + (x + i2) == (j - 3) / 3);
                    }
                    if j >= 3 && rect_covers(x as int, y as int, i + 1, h as int, (j - 3) / 3) {
                        let (i2, u2) = choose|i2: int, u2: int| 0 <= i2 < i + 1 && 0 <= u2 < h && #[trigger] (200 * (y + u2) + (x + i2)) == (j - 3) / 3;
                        if i2 == i {
                            assert(200 * (y + u2) + (x + i + 0) == (j - 3) / 3);
                        } else {
                            assert(200 * (y + u2) + (x + i2) == (j - 3) / 3);
                        }
                    }
                }
            }
            i = i + 1;
        }
    }
}

} // verus!

verus! {

/// Painting a rectangle leaves every byte outside it as it was, and
/// painting the same rectangle twice is painting it once.
pub proof fn law_rect_idempotent(old: Seq<u8>, x: int, y: int, w: int, h: int, color: Color, j: int)
    requires
        0 <= j < old.len(),
    ensures
        !(j >= 3 && rect_covers(x, y, w, h, (j - 3) / 3)) ==> rect_byte(old, x, y, w, h, color, j) == old[j],
        rect_byte(
            Seq::new(old.len(), |i: int| rect_byte(old, x, y, w, h, color, i)),
            x,
            y,
            w,
            h,
            color,
            j,
        ) == rect_byte(old, x, y, w, h, color, j),
{
}

/// Painting two rectangles in one colour gives the same image in either
/// order.
pub proof fn law_rects_commute(
    old: Seq<u8>,
    x1: int,
    y1: int,
    x2: int,
    y2: int,
    w: int,
    h: int,
    color: Color,
    j: int,
)
    requires
        0 <= j < old.len(),
    ensures
        rect_byte(Seq::new(old.len(), |i: int| rect_byte(old, x1, y1, w, h, color, i)), x2, y2, w, h, color, j)
            == rect_byte(Seq::new(old.len(), |i: int| rect_byte(old, x2, y2, w, h, color, i)), x1, y1, w, h, color, j),
{
}

} // verus!
