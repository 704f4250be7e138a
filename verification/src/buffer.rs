//! The fixed-size RGBA frame buffer and its drawing primitives.
//!
//! The buffer holds exactly `width * height * 4` bytes for the whole of its
//! life; drawing clips silently at the edges and never fails.

use vstd::prelude::*;

verus! {

/// An RGB color. The buffer's bytes are laid out RGBA; the rasterizer writes
/// the three color channels and leaves the alpha channel alone.
#[derive(Clone, Copy, PartialEq, Eq, Structural, Debug)]
pub struct Color {
    pub r: u8,
    pub g: u8,
    pub b: u8,
}

/// One pixel write request: a coordinate and the color to store there.
/// Coordinates may lie outside the buffer; such writes are discarded.
#[derive(Clone, Copy, PartialEq, Eq, Structural, Debug)]
pub struct Pixel {
    pub x: i32,
    pub y: i32,
    pub color: Color,
}

/// Byte offset of pixel (x, y) in a row-major RGBA buffer of the given width.
pub open spec fn px(width: int, x: int, y: int) -> int {
    4 * (y * width + x)
}

/// Whether (x, y) lies inside a `width` by `height` pixel grid.
pub open spec fn in_bounds(width: int, height: int, x: int, y: int) -> bool {
    0 <= x < width && 0 <= y < height
}

/// The three color bytes of pixel (x, y) in `s` hold color `c`.
pub open spec fn rgb_is(s: Seq<u8>, width: int, x: int, y: int, c: Color) -> bool {
    &&& s[px(width, x, y)] == c.r
    &&& s[px(width, x, y) + 1] == c.g
    &&& s[px(width, x, y) + 2] == c.b
}

/// The alpha byte of pixel (x, y) in `s` is `a`.
pub open spec fn alpha_is(s: Seq<u8>, width: int, x: int, y: int, a: u8) -> bool {
    s[px(width, x, y) + 3] == a
}

/// The byte offset of an in-bounds pixel is a multiple of four and leaves
/// room for all four channel bytes inside the buffer.
pub proof fn lemma_px_bound(width: int, height: int, x: int, y: int)
    requires
        in_bounds(width, height, x, y),
    ensures
        0 <= y * width,
        0 <= y * width + x,
        px(width, x, y) == 4 * (y * width + x),
        px(width, x, y) + 4 <= 4 * width * height,
{
    assert(0 <= y * width && 0 <= y * width + x
        && 4 * (y * width + x) + 4 <= 4 * width * height) by (nonlinear_arith)
        requires
            0 <= x < width,
            0 <= y < height,
    ;
}

/// Distinct in-bounds pixels occupy disjoint byte offsets.
pub proof fn lemma_px_injective(width: int, height: int, x1: int, y1: int, x2: int, y2: int)
    requires
        in_bounds(width, height, x1, y1),
        in_bounds(width, height, x2, y2),
        x1 != x2 || y1 != y2,
    ensures
        y1 * width + x1 != y2 * width + x2,
{
    assert(y1 * width + x1 != y2 * width + x2) by (nonlinear_arith)
        requires
            0 <= x1 < width,
            0 <= x2 < width,
            0 <= y1,
            0 <= y2,
            x1 != x2 || y1 != y2,
    ;
}

/// A fixed-size RGBA frame buffer.
pub struct FrameBuffer {
    /// Width in pixels. Never exceeds `i32::MAX`, so that every column is
    /// addressable by the draw target's `i32` coordinates.
    pub width: u32,
    /// Height in pixels. Never exceeds `i32::MAX`.
    pub height: u32,
    /// The RGBA byte store, row-major, four bytes per pixel.
    pub pixels: Vec<u8>,
}

impl View for FrameBuffer {
    type V = Seq<u8>;

    open spec fn view(&self) -> Seq<u8> {
        self.pixels@
    }
}

impl FrameBuffer {
    /// The buffer's invariant: the byte store holds exactly
    /// `width * height * 4` bytes, and both dimensions are addressable with
    /// `i32` pixel coordinates.
    pub open spec fn wf(&self) -> bool {
        &&& self.width <= 0x7fff_ffff
        &&& self.height <= 0x7fff_ffff
        &&& self.pixels@.len() == 4 * (self.width as int) * (self.height as int)
    }

    /// The buffer's length is pinned by the invariant: every clear and draw
    /// cycle leaves exactly `width * height * 4` bytes in place.
    pub proof fn lemma_length_invariant(&self)
        requires
            self.wf(),
        ensures
            self@.len() == 4 * (self.width as int) * (self.height as int),
            self.width <= 0x7fff_ffff,
            self.height <= 0x7fff_ffff,
    {
    }

    /// Decide the invariant at run time, for callers outside the verified
    /// world that must test it before drawing.
    pub fn invariant_holds(&self) -> (r: bool)
        ensures
            r == self.wf(),
    {
        proof {
            assert((self.width as int) * (self.height as int) * 4
                == 4 * (self.width as int) * (self.height as int)
                && (self.width as int) * (self.height as int) * 4
                    < 0x1_0000_0000_0000_0000_0000_0000_0000_0000) by (nonlinear_arith)
                requires
                    0 <= self.width < 0x1_0000_0000,
                    0 <= self.height < 0x1_0000_0000,
            ;
        }
        let target: u128 = (self.width as u128) * (self.height as u128) * 4;
        self.width <= 0x7fff_ffff && self.height <= 0x7fff_ffff
            && (self.pixels.len() as u128) == target
    }

    /// Allocate a `width` by `height` buffer, background-filled with opaque
    /// white bytes.
    pub fn new(width: u32, height: u32) -> (fb: FrameBuffer)
        requires
            width <= 0x7fff_ffff,
            height <= 0x7fff_ffff,
            4 * (width as int) * (height as int) <= usize::MAX as int,
        ensures
            fb.wf(),
            fb.width == width,
            fb.height == height,
            fb@.len() == 4 * (width as int) * (height as int),
            forall|i: int| 0 <= i < fb@.len() ==> fb@[i] == 255u8,
    {
        proof {
            assert((width as int) * (height as int) * 4 == 4 * (width as int) * (height as int)
                && 0 <= (width as int) * (height as int)) by (nonlinear_arith)
                requires
                    width >= 0,
                    height >= 0,
            ;
        }
        let len: usize = (width as usize) * (height as usize) * 4;
        FrameBuffer { width, height, pixels: vec![255u8; len] }
    }

    /// Write one pixel's color channels if (x, y) is in bounds; discard the
    /// write otherwise. The alpha byte is never touched.
    pub fn put_pixel(&mut self, x: i32, y: i32, color: Color)
        requires
            old(self).wf(),
        ensures
            final(self).wf(),
            final(self).width == old(self).width,
            final(self).height == old(self).height,
            in_bounds(old(self).width as int, old(self).height as int, x as int, y as int)
                ==> final(self)@ == old(self)@
                    .update(px(old(self).width as int, x as int, y as int), color.r)
                    .update(px(old(self).width as int, x as int, y as int) + 1, color.g)
                    .update(px(old(self).width as int, x as int, y as int) + 2, color.b),
            !in_bounds(old(self).width as int, old(self).height as int, x as int, y as int)
                ==> final(self)@ == old(self)@,
    {
        if x >= 0 && y >= 0 && (x as u32) < self.width && (y as u32) < self.height {
            proof {
                lemma_px_bound(
                    self.width as int,
                    self.height as int,
                    x as int,
                    y as int,
                );
            }
            let n: usize = self.pixels.len();
            let index: usize = ((y as usize) * (self.width as usize) + (x as usize)) * 4;
            self.pixels.set(index, color.r);
            self.pixels.set(index + 1, color.g);
            self.pixels.set(index + 2, color.b);
        }
    }

    /// Overwrite the whole buffer with a solid fill of `color` and opaque
    /// alpha, as done once at the start of every frame.
    pub fn clear(&mut self, color: Color)
        requires
            old(self).wf(),
        ensures
            final(self).wf(),
            final(self).width == old(self).width,
            final(self).height == old(self).height,
            final(self)@.len() == old(self)@.len(),
            forall|i: int| 0 <= i < final(self)@.len() ==> final(self)@[i] == (
                if i % 4 == 0 { color.r }
                else if i % 4 == 1 { color.g }
                else if i % 4 == 2 { color.b }
                else { 255u8 }),
            forall|x: int, y: int|
                in_bounds(old(self).width as int, old(self).height as int, x, y)
                    ==> rgb_is(final(self)@, old(self).width as int, x, y, color)
                        && alpha_is(final(self)@, old(self).width as int, x, y, 255),
    {
        let n: usize = self.pixels.len();
        let mut i: usize = 0;
        while i < n
            invariant
                i <= n,
                n == self.pixels@.len(),
                self.width == old(self).width,
                self.height == old(self).height,
                self.wf(),
                forall|j: int| 0 <= j < i ==> self.pixels@[j] == (
                    if j % 4 == 0 { color.r }
                    else if j % 4 == 1 { color.g }
                    else if j % 4 == 2 { color.b }
                    else { 255u8 }),
            decreases n - i,
        {
            let v: u8 = if i % 4 == 0 { color.r }
                else if i % 4 == 1 { color.g }
                else if i % 4 == 2 { color.b }
                else { 255 };
            self.pixels.set(i, v);
            i = i + 1;
        }
        proof {
            let w = self.width as int;
            let h = self.height as int;
            assert forall|x: int, y: int| in_bounds(w, h, x, y)
                implies rgb_is(self@, w, x, y, color) && alpha_is(self@, w, x, y, 255) by {
                lemma_px_bound(w, h, x, y);
                let t = y * w + x;
                assert((4 * t) % 4 == 0 && (4 * t + 1) % 4 == 1 && (4 * t + 2) % 4 == 2
                    && (4 * t + 3) % 4 == 3) by (nonlinear_arith)
                    requires
                        t >= 0,
                ;
            }
        }
    }
}

/// The buffer contents after one requested pixel write: the three color
/// bytes change if the coordinate is in bounds, nothing changes otherwise.
pub open spec fn write_pixel(s: Seq<u8>, width: int, height: int, p: Pixel) -> Seq<u8> {
    if in_bounds(width, height, p.x as int, p.y as int) {
        s.update(px(width, p.x as int, p.y as int), p.color.r)
            .update(px(width, p.x as int, p.y as int) + 1, p.color.g)
            .update(px(width, p.x as int, p.y as int) + 2, p.color.b)
    } else {
        s
    }
}

/// The buffer contents after a whole sequence of pixel writes, applied in
/// order.
pub open spec fn write_pixels(s: Seq<u8>, width: int, height: int, ps: Seq<Pixel>) -> Seq<u8>
    decreases ps.len(),
{
    if ps.len() == 0 {
        s
    } else {
        write_pixels(write_pixel(s, width, height, ps[0]), width, height, ps.drop_first())
    }
}

/// Appending one write to a batch applies it after the rest of the batch.
pub proof fn lemma_write_pixels_snoc(s: Seq<u8>, width: int, height: int, ps: Seq<Pixel>, p: Pixel)
    ensures
        write_pixels(s, width, height, ps.push(p))
            == write_pixel(write_pixels(s, width, height, ps), width, height, p),
    decreases ps.len(),
{
    if ps.len() == 0 {
        assert(ps.push(p)[0] == p);
        assert(ps.push(p).drop_first() =~= Seq::<Pixel>::empty());
        assert(write_pixels(s, width, height, ps.push(p))
            == write_pixels(write_pixel(s, width, height, p), width, height,
                Seq::<Pixel>::empty()));
        assert(write_pixels(write_pixel(s, width, height, p), width, height,
            Seq::<Pixel>::empty()) == write_pixel(s, width, height, p));
        assert(write_pixels(s, width, height, ps) == s);
    } else {
        assert(ps.push(p)[0] == ps[0]);
        assert(ps.push(p).drop_first() =~= ps.drop_first().push(p));
        lemma_write_pixels_snoc(
            write_pixel(s, width, height, ps[0]),
            width,
            height,
            ps.drop_first(),
            p,
        );
    }
}

/// A batch never moves a pixel it does not name: if no request in `ps` is
/// aimed at (x, y), all four of that pixel's bytes come through unchanged.
pub proof fn lemma_write_pixels_untouched(
    s: Seq<u8>,
    width: int,
    height: int,
    ps: Seq<Pixel>,
    x: int,
    y: int,
)
    requires
        4 * width * height <= s.len(),
        in_bounds(width, height, x, y),
        forall|k: int| 0 <= k < ps.len() ==> !(ps[k].x == x && ps[k].y == y),
    ensures
        write_pixels(s, width, height, ps)[px(width, x, y)] == s[px(width, x, y)],
        write_pixels(s, width, height, ps)[px(width, x, y) + 1] == s[px(width, x, y) + 1],
        write_pixels(s, width, height, ps)[px(width, x, y) + 2] == s[px(width, x, y) + 2],
        write_pixels(s, width, height, ps)[px(width, x, y) + 3] == s[px(width, x, y) + 3],
    decreases ps.len(),
{
    if ps.len() > 0 {
        let p = ps[0];
        let s1 = write_pixel(s, width, height, p);
        assert(!(p.x == x && p.y == y));
        if in_bounds(width, height, p.x as int, p.y as int) {
            lemma_px_bound(width, height, x, y);
            lemma_px_bound(width, height, p.x as int, p.y as int);
            lemma_px_injective(width, height, x, y, p.x as int, p.y as int);
        }
        assert(s1.len() == s.len());
        assert(write_pixels(s, width, height, ps)
            == write_pixels(s1, width, height, ps.drop_first()));
        assert(forall|k: int| 0 <= k < ps.drop_first().len()
            ==> ps.drop_first()[k] == ps[k + 1]);
        lemma_write_pixels_untouched(s1, width, height, ps.drop_first(), x, y);
    }
}

/// A batch write never touches the alpha channel of any pixel.
pub proof fn lemma_write_pixels_alpha(
    s: Seq<u8>,
    width: int,
    height: int,
    ps: Seq<Pixel>,
    x: int,
    y: int,
)
    requires
        4 * width * height <= s.len(),
        in_bounds(width, height, x, y),
    ensures
        write_pixels(s, width, height, ps)[px(width, x, y) + 3] == s[px(width, x, y) + 3],
    decreases ps.len(),
{
    if ps.len() > 0 {
        let p = ps[0];
        let s1 = write_pixel(s, width, height, p);
        if in_bounds(width, height, p.x as int, p.y as int) {
            lemma_px_bound(width, height, x, y);
            lemma_px_bound(width, height, p.x as int, p.y as int);
            if p.x as int != x || p.y as int != y {
                lemma_px_injective(width, height, x, y, p.x as int, p.y as int);
            }
        }
        assert(s1.len() == s.len());
        assert(write_pixels(s, width, height, ps)
            == write_pixels(s1, width, height, ps.drop_first()));
        lemma_write_pixels_alpha(s1, width, height, ps.drop_first(), x, y);
    }
}

impl FrameBuffer {
    /// Accept a batch of (coordinate, color) pairs: write each one that falls
    /// inside `[0, width) x [0, height)` and silently discard the rest. This
    /// operation never fails; clipping is by design, not an error.
    pub fn draw_iter(&mut self, pixels: &Vec<Pixel>)
        requires
            old(self).wf(),
        ensures
            final(self).wf(),
            final(self).width == old(self).width,
            final(self).height == old(self).height,
            final(self)@.len() == old(self)@.len(),
            final(self)@ == write_pixels(
                old(self)@,
                old(self).width as int,
                old(self).height as int,
                pixels@,
            ),
    {
        let ghost w = self.width as int;
        let ghost h = self.height as int;
        let mut k: usize = 0;
        while k < pixels.len()
            invariant
                k <= pixels@.len(),
                self.width == old(self).width,
                self.height == old(self).height,
                w == old(self).width as int,
                h == old(self).height as int,
                self.wf(),
                self@ == write_pixels(old(self)@, w, h, pixels@.take(k as int)),
            decreases pixels@.len() - k,
        {
            let p = pixels[k];
            proof {
                lemma_write_pixels_snoc(old(self)@, w, h, pixels@.take(k as int), p);
                assert(pixels@.take(k as int + 1) =~= pixels@.take(k as int).push(p));
            }
            self.put_pixel(p.x, p.y, p.color);
            k = k + 1;
        }
        proof {
            assert(pixels@.take(pixels@.len() as int) =~= pixels@);
        }
    }
}

/// Whether pixel (x, y) belongs to the filled disc of the given center and
/// radius: its squared distance to the center is at most the squared radius.
pub open spec fn covered(cx: int, cy: int, r: int, x: int, y: int) -> bool {
    (x - cx) * (x - cx) + (y - cy) * (y - cy) <= r * r
}

/// Every covered point lies inside the disc's bounding box.
pub proof fn lemma_covered_box(cx: int, cy: int, r: int, x: int, y: int)
    requires
        covered(cx, cy, r, x, y),
        r >= 0,
    ensures
        cx - r <= x <= cx + r,
        cy - r <= y <= cy + r,
{
    assert(cx - r <= x <= cx + r && cy - r <= y <= cy + r) by (nonlinear_arith)
        requires
            (x - cx) * (x - cx) + (y - cy) * (y - cy) <= r * r,
            r >= 0,
    ;
}

impl FrameBuffer {
    /// Rasterize a filled disc centered at (cx, cy): every covered pixel that
    /// falls inside the buffer gets `color`'s three channel bytes; covered
    /// pixels outside the buffer are silently discarded; no other byte moves
    /// and the alpha channel is never touched.
    #[verifier::loop_isolation(false)]
    pub fn draw_filled_circle(&mut self, cx: i32, cy: i32, radius: u32, color: Color)
        requires
            old(self).wf(),
        ensures
            final(self).wf(),
            final(self).width == old(self).width,
            final(self).height == old(self).height,
            final(self)@.len() == old(self)@.len(),
            forall|x: int, y: int|
                in_bounds(old(self).width as int, old(self).height as int, x, y)
                    && covered(cx as int, cy as int, radius as int, x, y)
                    ==> rgb_is(final(self)@, old(self).width as int, x, y, color),
            forall|x: int, y: int|
                in_bounds(old(self).width as int, old(self).height as int, x, y)
                    && !covered(cx as int, cy as int, radius as int, x, y)
                    ==> final(self)@[px(old(self).width as int, x, y)]
                            == old(self)@[px(old(self).width as int, x, y)]
                        && final(self)@[px(old(self).width as int, x, y) + 1]
                            == old(self)@[px(old(self).width as int, x, y) + 1]
                        && final(self)@[px(old(self).width as int, x, y) + 2]
                            == old(self)@[px(old(self).width as int, x, y) + 2],
            forall|x: int, y: int|
                in_bounds(old(self).width as int, old(self).height as int, x, y)
                    ==> final(self)@[px(old(self).width as int, x, y) + 3]
                            == old(self)@[px(old(self).width as int, x, y) + 3],
    {
        let ghost w = self.width as int;
        let ghost h = self.height as int;
        let ghost cxi = cx as int;
        let ghost cyi = cy as int;
        let ghost ri = radius as int;

        let cx64: i64 = cx as i64;
        let cy64: i64 = cy as i64;
        let r64: i64 = radius as i64;
        proof {
            assert(0 <= (r64 as int) * (r64 as int)
                && (r64 as int) * (r64 as int) <= 0x1_0000_0000_0000_0000) by (nonlinear_arith)
                requires
                    0 <= r64 < 0x1_0000_0000,
            ;
        }
        let r2: i128 = (r64 as i128) * (r64 as i128);

        let y_end: i64 = if cy64 + r64 + 1 < self.height as i64 {
            cy64 + r64 + 1
        } else {
            self.height as i64
        };
        let mut y: i64 = if cy64 - r64 > 0 { cy64 - r64 } else { 0 };

        proof {
            assert forall|xx: int, yy: int|
                in_bounds(w, h, xx, yy) && covered(cxi, cyi, ri, xx, yy) && yy < y as int
                implies rgb_is(self@, w, xx, yy, color) by {
                lemma_covered_box(cxi, cyi, ri, xx, yy);
            }
        }
        while y < y_end
            invariant
                0 <= y,
                cy64 - r64 <= y,
                self.wf(),
                self.width == old(self).width,
                self.height == old(self).height,
                forall|xx: int, yy: int|
                    in_bounds(w, h, xx, yy) && covered(cxi, cyi, ri, xx, yy) && yy < y as int
                        ==> rgb_is(self@, w, xx, yy, color),
                forall|xx: int, yy: int|
                    in_bounds(w, h, xx, yy) && !covered(cxi, cyi, ri, xx, yy)
                        ==> self@[px(w, xx, yy)] == old(self)@[px(w, xx, yy)]
                            && self@[px(w, xx, yy) + 1] == old(self)@[px(w, xx, yy) + 1]
                            && self@[px(w, xx, yy) + 2] == old(self)@[px(w, xx, yy) + 2],
                forall|xx: int, yy: int|
                    in_bounds(w, h, xx, yy)
                        ==> self@[px(w, xx, yy) + 3] == old(self)@[px(w, xx, yy) + 3],
            decreases y_end - y,
        {
            let x_end: i64 = if cx64 + r64 + 1 < self.width as i64 {
                cx64 + r64 + 1
            } else {
                self.width as i64
            };
            let mut x: i64 = if cx64 - r64 > 0 { cx64 - r64 } else { 0 };

            proof {
                assert forall|xx: int, yy: int|
                    in_bounds(w, h, xx, yy) && covered(cxi, cyi, ri, xx, yy)
                        && (yy < y as int || (yy == y as int && xx < x as int))
                    implies rgb_is(self@, w, xx, yy, color) by {
                    lemma_covered_box(cxi, cyi, ri, xx, yy);
                }
            }
            while x < x_end
                invariant
                    0 <= x,
                    cx64 - r64 <= x,
                    y < y_end,
                    self.wf(),
                    self.width == old(self).width,
                    self.height == old(self).height,
                    forall|xx: int, yy: int|
                        in_bounds(w, h, xx, yy) && covered(cxi, cyi, ri, xx, yy)
                            && (yy < y as int || (yy == y as int && xx < x as int))
                            ==> rgb_is(self@, w, xx, yy, color),
                    forall|xx: int, yy: int|
                        in_bounds(w, h, xx, yy) && !covered(cxi, cyi, ri, xx, yy)
                            ==> self@[px(w, xx, yy)] == old(self)@[px(w, xx, yy)]
                                && self@[px(w, xx, yy) + 1] == old(self)@[px(w, xx, yy) + 1]
                                && self@[px(w, xx, yy) + 2] == old(self)@[px(w, xx, yy) + 2],
                    forall|xx: int, yy: int|
                        in_bounds(w, h, xx, yy)
                            ==> self@[px(w, xx, yy) + 3] == old(self)@[px(w, xx, yy) + 3],
                decreases x_end - x,
            {
                let dx: i64 = x - cx64;
                let dy: i64 = y - cy64;
                proof {
                    assert(-0x2_0000_0000 <= dx as int <= 0x2_0000_0000);
                    assert(-0x2_0000_0000 <= dy as int <= 0x2_0000_0000);
                    assert(0 <= (dx as int) * (dx as int)
                        && (dx as int) * (dx as int) <= 0x4_0000_0000_0000_0000) by (nonlinear_arith)
                        requires
                            -0x2_0000_0000 <= dx as int <= 0x2_0000_0000,
                    ;
                    assert(0 <= (dy as int) * (dy as int)
                        && (dy as int) * (dy as int) <= 0x4_0000_0000_0000_0000) by (nonlinear_arith)
                        requires
                            -0x2_0000_0000 <= dy as int <= 0x2_0000_0000,
                    ;
                }
                let dist2: i128 = (dx as i128) * (dx as i128) + (dy as i128) * (dy as i128);
                if dist2 <= r2 {
                    self.put_pixel(x as i32, y as i32, color);
                    proof {
                        lemma_px_bound(w, h, x as int, y as int);
                        assert forall|xx: int, yy: int|
                            in_bounds(w, h, xx, yy) && covered(cxi, cyi, ri, xx, yy)
                                && (yy < y as int || (yy == y as int && xx < x as int + 1))
                            implies rgb_is(self@, w, xx, yy, color) by {
                            lemma_px_bound(w, h, xx, yy);
                            if xx != x as int || yy != y as int {
                                lemma_px_injective(w, h, xx, yy, x as int, y as int);
                            }
                        }
                        assert forall|xx: int, yy: int|
                            in_bounds(w, h, xx, yy) && !covered(cxi, cyi, ri, xx, yy)
                            implies self@[px(w, xx, yy)] == old(self)@[px(w, xx, yy)]
                                && self@[px(w, xx, yy) + 1] == old(self)@[px(w, xx, yy) + 1]
                                && self@[px(w, xx, yy) + 2] == old(self)@[px(w, xx, yy) + 2] by {
                            lemma_px_bound(w, h, xx, yy);
                            lemma_px_injective(w, h, xx, yy, x as int, y as int);
                        }
                        assert forall|xx: int, yy: int| in_bounds(w, h, xx, yy)
                            implies self@[px(w, xx, yy) + 3] == old(self)@[px(w, xx, yy) + 3] by {
                            lemma_px_bound(w, h, xx, yy);
                            if xx != x as int || yy != y as int {
                                lemma_px_injective(w, h, xx, yy, x as int, y as int);
                            }
                        }
                    }
                }
                x = x + 1;
            }
            proof {
                assert forall|xx: int, yy: int|
                    in_bounds(w, h, xx, yy) && covered(cxi, cyi, ri, xx, yy)
                        && yy < y as int + 1
                    implies rgb_is(self@, w, xx, yy, color) by {
                    lemma_covered_box(cxi, cyi, ri, xx, yy);
                }
            }
            y = y + 1;
        }
        proof {
            assert forall|xx: int, yy: int|
                in_bounds(w, h, xx, yy) && covered(cxi, cyi, ri, xx, yy)
                implies rgb_is(self@, w, xx, yy, color) by {
                lemma_covered_box(cxi, cyi, ri, xx, yy);
            }
        }
    }
}

} // verus!
