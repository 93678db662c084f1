use vstd::prelude::*;
use vstd::arithmetic::div_mod::{lemma_fundamental_div_mod, lemma_fundamental_div_mod_converse};

verus! {

/// Channel order of the display's 32-bit pixels, as stored in memory.
#[derive(Clone, Copy, Debug, PartialEq, Eq, Structural)]
pub enum PixelOrder {
    /// Bytes red, green, blue, reserved.
    Rgb,
    /// Bytes blue, green, red, reserved.
    Bgr,
}

/// The native 32-bit pixel value (read little-endian) for a red/green/blue triple.
pub open spec fn pack_spec(order: PixelOrder, r: u8, g: u8, b: u8) -> u32 {
    match order {
        PixelOrder::Rgb => (r as u32) | ((g as u32) << 8u32) | ((b as u32) << 16u32),
        PixelOrder::Bgr => (b as u32) | ((g as u32) << 8u32) | ((r as u32) << 16u32),
    }
}

/// The red/green/blue triple held by a native pixel value.
pub open spec fn unpack_spec(order: PixelOrder, p: u32) -> (u8, u8, u8) {
    let lo = (p & 0xffu32) as u8;
    let mid = ((p >> 8u32) & 0xffu32) as u8;
    let hi = ((p >> 16u32) & 0xffu32) as u8;
    match order {
        PixelOrder::Rgb => (lo, mid, hi),
        PixelOrder::Bgr => (hi, mid, lo),
    }
}

/// The four bytes one pixel occupies in the buffer.
pub open spec fn pixel_bytes(order: PixelOrder, r: u8, g: u8, b: u8) -> Seq<u8> {
    match order {
        PixelOrder::Rgb => seq![r, g, b, 0u8],
        PixelOrder::Bgr => seq![b, g, r, 0u8],
    }
}

/// The pixel (column, row) that byte `i` of a buffer `w` pixels wide belongs to.
pub open spec fn pixel_of(w: int, i: int) -> (int, int) {
    ((i / 4) % w, (i / 4) / w)
}

/// `s` with every byte of the pixels that `hit` selects set to `color`.
pub open spec fn paint(s: Seq<u8>, w: int, hit: spec_fn(int, int) -> bool, color: Seq<u8>) -> Seq<u8> {
    Seq::new(s.len(), |i: int| if hit(pixel_of(w, i).0, pixel_of(w, i).1) { color[i % 4] } else { s[i] })
}

/// `s` with pixel (x, y) set to `color`; a pixel outside the buffer changes nothing.
pub open spec fn put_spec(s: Seq<u8>, w: int, x: int, y: int, color: Seq<u8>) -> Seq<u8> {
    paint(s, w, |px: int, py: int| px == x && py == y, color)
}

/// A buffer of `len` bytes in which every pixel is `color`.
pub open spec fn fill_spec(len: nat, color: Seq<u8>) -> Seq<u8> {
    Seq::new(len, |i: int| color[i % 4])
}

/// What the compositor's buffer holds.
pub struct FrameModel {
    pub width: nat,
    pub height: nat,
    pub order: PixelOrder,
    /// Bytes per scanline of the device framebuffer.
    pub pitch: nat,
    pub bytes: Seq<u8>,
}

/// Off-screen pixel buffer in the device's channel order, with the device
/// scanline stride it is flushed to.
pub struct BackBuffer {
    width: usize,
    height: usize,
    buf: Vec<u8>,
    order: PixelOrder,
    dst_pitch: usize,
}

impl View for BackBuffer {
    type V = FrameModel;

    closed spec fn view(&self) -> FrameModel {
        FrameModel {
            width: self.width as nat,
            height: self.height as nat,
            order: self.order,
            pitch: self.dst_pitch as nat,
            bytes: self.buf@,
        }
    }
}

/// Byte `i` belongs to pixel (x, y) exactly when its pixel index is `y * w + x`.
proof fn lemma_pixel_index(w: int, x: int, y: int, i: int)
    requires
        0 <= x < w,
        0 <= y,
        0 <= i,
    ensures
        (i / 4 == y * w + x) <==> (pixel_of(w, i) == (x, y)),
{
    let q = i / 4;
    if q == y * w + x {
        lemma_fundamental_div_mod_converse(q, w, y, x);
    }
    if pixel_of(w, i) == (x, y) {
        lemma_fundamental_div_mod(q, w);
        assert(q == w * y + x);
        assert(w * y == y * w) by (nonlinear_arith);
    }
}

/// Pixel index `y * w + x` of an in-bounds pixel is below `w * h`.
proof fn lemma_pixel_in_range(w: int, h: int, x: int, y: int)
    requires
        0 <= x < w,
        0 <= y < h,
    ensures
        0 <= y * w + x < w * h,
{
    assert(0 <= y * w) by (nonlinear_arith)
        requires
            0 <= y,
            0 <= w,
    ;
    assert(y * w + w <= w * h) by (nonlinear_arith)
        requires
            y + 1 <= h,
            0 <= w,
    ;
}

/// Packing and then unpacking gives back the triple, in either channel order.
pub proof fn lemma_pack_round_trip(order: PixelOrder, r: u8, g: u8, b: u8)
    ensures
        unpack_spec(order, pack_spec(order, r, g, b)) == (r, g, b),
{
    let (x, y, z) = match order {
        PixelOrder::Rgb => (r, g, b),
        PixelOrder::Bgr => (b, g, r),
    };
    let p = (x as u32) | ((y as u32) << 8u32) | ((z as u32) << 16u32);
    assert((p & 0xffu32) as u8 == x && ((p >> 8u32) & 0xffu32) as u8 == y && ((p >> 16u32)
        & 0xffu32) as u8 == z) by (bit_vector)
        requires
            p == (x as u32) | ((y as u32) << 8u32) | ((z as u32) << 16u32),
    ;
}

impl PixelOrder {
    /// Packs a red/green/blue triple into this order's native pixel value.
    pub fn pack(self, r: u8, g: u8, b: u8) -> (p: u32)
        ensures
            p == pack_spec(self, r, g, b),
    {
        match self {
            PixelOrder::Rgb => BackBuffer::pack_rgb(r, g, b),
            PixelOrder::Bgr => BackBuffer::pack_bgr(r, g, b),
        }
    }

    /// Reads the red/green/blue triple out of a native pixel value.
    pub fn unpack(self, p: u32) -> (t: (u8, u8, u8))
        ensures
            t == unpack_spec(self, p),
    {
        let lo = (p & 0xffu32) as u8;
        let mid = ((p >> 8u32) & 0xffu32) as u8;
        let hi = ((p >> 16u32) & 0xffu32) as u8;
        match self {
            PixelOrder::Rgb => (lo, mid, hi),
            PixelOrder::Bgr => (hi, mid, lo),
        }
    }

    /// The little-endian bytes of the packed pixel.
    pub fn pixel_bytes(self, r: u8, g: u8, b: u8) -> (bytes: [u8; 4])
        ensures
            bytes@ == pixel_bytes(self, r, g, b),
    {
        let p = self.pack(r, g, b);
        let b0 = (p & 0xffu32) as u8;
        let b1 = ((p >> 8u32) & 0xffu32) as u8;
        let b2 = ((p >> 16u32) & 0xffu32) as u8;
        let b3 = (p >> 24u32) as u8;
        proof {
            lemma_pack_round_trip(self, r, g, b);
            let (x, y, z) = match self {
                PixelOrder::Rgb => (r, g, b),
                PixelOrder::Bgr => (b, g, r),
            };
            assert((p >> 24u32) == 0u32) by (bit_vector)
                requires
                    p == (x as u32) | ((y as u32) << 8u32) | ((z as u32) << 16u32),
            ;
        }
        let bytes = [b0, b1, b2, b3];
        assert(bytes@ =~= pixel_bytes(self, r, g, b));
        bytes
    }
}

impl BackBuffer {
    pub open spec fn wf(&self) -> bool {
        &&& self@.bytes.len() == self@.width * self@.height * 4
        &&& self@.width * self@.height * 4 <= usize::MAX
        &&& self@.pitch >= self@.width * 4
    }

    /// Native pixel value for device channel order red, green, blue.
    pub fn pack_rgb(r: u8, g: u8, b: u8) -> (p: u32)
        ensures
            p == pack_spec(PixelOrder::Rgb, r, g, b),
    {
        (r as u32) | ((g as u32) << 8u32) | ((b as u32) << 16u32)
    }

    /// Native pixel value for device channel order blue, green, red.
    pub fn pack_bgr(r: u8, g: u8, b: u8) -> (p: u32)
        ensures
            p == pack_spec(PixelOrder::Bgr, r, g, b),
    {
        (b as u32) | ((g as u32) << 8u32) | ((r as u32) << 16u32)
    }

    /// A black buffer of `width` x `height` pixels for a display with the
    /// given channel order and scanline stride in bytes.
    pub fn new(width: usize, height: usize, order: PixelOrder, dst_pitch: usize) -> (r: Self)
        requires
            width * height * 4 <= usize::MAX,
            dst_pitch >= width * 4,
        ensures
            r.wf(),
            r@.width == width,
            r@.height == height,
            r@.order == order,
            r@.pitch == dst_pitch,
            r@.bytes == Seq::new((width * height * 4) as nat, |i: int| 0u8),
    {
        let len = width * height * 4;
        let mut buf: Vec<u8> = Vec::new();
        let mut i: usize = 0;
        while i < len
            invariant
                i <= len,
                buf@ == Seq::new(i as nat, |k: int| 0u8),
            decreases len - i,
        {
            buf.push(0u8);
            i = i + 1;
            assert(buf@ =~= Seq::new(i as nat, |k: int| 0u8));
        }
        BackBuffer { width, height, buf, order, dst_pitch }
    }

    pub fn width(&self) -> (r: usize)
        ensures
            r == self@.width,
    {
        self.width
    }

    pub fn height(&self) -> (r: usize)
        ensures
            r == self@.height,
    {
        self.height
    }

    /// Bytes per scanline of the device framebuffer.
    pub fn pitch(&self) -> (r: usize)
        ensures
            r == self@.pitch,
    {
        self.dst_pitch
    }

    pub fn order(&self) -> (r: PixelOrder)
        ensures
            r == self@.order,
    {
        self.order
    }

    /// The buffer's bytes, row after row, four per pixel.
    pub fn bytes(&self) -> (r: &[u8])
        ensures
            r@ == self@.bytes,
    {
        self.buf.as_slice()
    }

    /// Writes the four bytes of pixel index `q`.
    fn store_pixel(&mut self, q: usize, color: [u8; 4])
        requires
            old(self).wf(),
            q < old(self)@.width * old(self)@.height,
        ensures
            final(self).wf(),
            final(self)@ == (FrameModel {
                bytes: Seq::new(
                    old(self)@.bytes.len(),
                    |i: int| if i / 4 == q { color@[i % 4] } else { old(self)@.bytes[i] },
                ),
                ..old(self)@
            }),
    {
        let p = q * 4;
        self.buf[p] = color[0];
        self.buf[p + 1] = color[1];
        self.buf[p + 2] = color[2];
        self.buf[p + 3] = color[3];
        assert(self.buf@ =~= Seq::new(
            old(self)@.bytes.len(),
            |i: int| if i / 4 == q { color@[i % 4] } else { old(self)@.bytes[i] },
        ));
    }

    /// Sets pixel (x, y); a pixel outside the buffer is ignored.
    pub fn put_pixel(&mut self, x: isize, y: isize, r: u8, g: u8, b: u8)
        requires
            old(self).wf(),
        ensures
            final(self).wf(),
            final(self)@ == (FrameModel {
                bytes: put_spec(
                    old(self)@.bytes,
                    old(self)@.width as int,
                    x as int,
                    y as int,
                    pixel_bytes(old(self)@.order, r, g, b),
                ),
                ..old(self)@
            }),
    {
        let ghost w = self.width as int;
        let ghost color = pixel_bytes(self.order, r, g, b);
        if x < 0 || y < 0 || x as usize >= self.width || y as usize >= self.height {
            assert forall|i: int| 0 <= i < self.buf@.len() implies !(pixel_of(w, i).0 == x
                && pixel_of(w, i).1 == y) by {
                self.lemma_pixel_of_in_bounds(i);
            }
            assert(self.buf@ =~= put_spec(self.buf@, w, x as int, y as int, color));
            return;
        }
        let (ux, uy) = (x as usize, y as usize);
        proof {
            lemma_pixel_in_range(w, self.height as int, ux as int, uy as int);
        }
        let q = uy * self.width + ux;
        let bytes = self.order.pixel_bytes(r, g, b);
        let ghost before = self.buf@;
        self.store_pixel(q, bytes);
        assert forall|i: int| 0 <= i < self.buf@.len() implies self.buf@[i] == put_spec(
            before,
            w,
            x as int,
            y as int,
            color,
        )[i] by {
            lemma_pixel_index(w, x as int, y as int, i);
        }
        assert(self.buf@ =~= put_spec(before, w, x as int, y as int, color));
    }

    /// Fills every pixel with the packed color.
    pub fn clear_rgb(&mut self, r: u8, g: u8, b: u8)
        requires
            old(self).wf(),
        ensures
            final(self).wf(),
            final(self)@ == (FrameModel {
                bytes: fill_spec(old(self)@.bytes.len(), pixel_bytes(old(self)@.order, r, g, b)),
                ..old(self)@
            }),
    {
        let bytes = self.order.pixel_bytes(r, g, b);
        let n = self.width * self.height;
        let ghost len = self.buf@.len();
        let mut q: usize = 0;
        while q < n
            invariant
                self.wf(),
                self@ == (FrameModel { bytes: self@.bytes, ..old(self)@ }),
                n == self@.width * self@.height,
                len == self@.bytes.len(),
                q <= n,
                bytes@ == pixel_bytes(self@.order, r, g, b),
                forall|i: int| 0 <= i < 4 * q ==> self.buf@[i] == bytes@[i % 4],
            decreases n - q,
        {
            let ghost before = self.buf@;
            self.store_pixel(q, bytes);
            assert forall|i: int| 0 <= i < 4 * (q + 1) implies self.buf@[i] == bytes@[i % 4] by {
                if i < 4 * q {
                    assert(i / 4 < q);
                } else {
                    assert(i / 4 == q);
                }
            }
            q = q + 1;
        }
        assert(self.buf@ =~= fill_spec(len, bytes@));
    }

    /// Fills every pixel, taking the triple in blue, green, red order.
    pub fn clear_bgr(&mut self, r: u8, g: u8, b: u8)
        requires
            old(self).wf(),
        ensures
            final(self).wf(),
            final(self)@ == (FrameModel {
                bytes: fill_spec(old(self)@.bytes.len(), pixel_bytes(old(self)@.order, b, g, r)),
                ..old(self)@
            }),
    {
        self.clear_rgb(b, g, r)
    }

    /// Draws the line from (x0, y0) to (x1, y1) with Bresenham's walk, both
    /// end points included, ignoring the points outside the buffer.
    pub fn draw_line(&mut self, x0: isize, y0: isize, x1: isize, y1: isize, r: u8, g: u8, b: u8)
        requires
            old(self).wf(),
        ensures
            final(self).wf(),
            final(self)@ == (FrameModel {
                bytes: line_spec(
                    old(self)@.bytes,
                    old(self)@.width as int,
                    x0 as int,
                    y0 as int,
                    x1 as int,
                    y1 as int,
                    pixel_bytes(old(self)@.order, r, g, b),
                ),
                ..old(self)@
            }),
    {
        let ghost w = self.width as int;
        let ghost color = pixel_bytes(self.order, r, g, b);
        let ghost orig = self.buf@;
        let ghost gx0 = x0 as int;
        let ghost gy0 = y0 as int;
        let ghost gx1 = x1 as int;
        let ghost gy1 = y1 as int;
        let ghost total: nat = (abs(gx1 - gx0) + abs(gy1 - gy0)) as nat;
        let dx: i128 = if x1 as i128 >= x0 as i128 { x1 as i128 - x0 as i128 } else { x0 as i128 - x1 as i128 };
        let dy: i128 = -(if y1 as i128 >= y0 as i128 { y1 as i128 - y0 as i128 } else { y0 as i128 - y1 as i128 });
        let sx: isize = if x0 < x1 { 1 } else { -1 };
        let sy: isize = if y0 < y1 { 1 } else { -1 };
        let mut err: i128 = dx + dy;
        let mut x: isize = x0;
        let mut y: isize = y0;
        let ghost mut k: nat = 0;
        loop
            invariant_except_break
                self@.bytes == paint(
                    orig,
                    w,
                    |px: int, py: int| walked_before(gx0, gy0, gx1, gy1, k, px, py),
                    color,
                ),
            invariant
                self.wf(),
                self@ == (FrameModel { bytes: self@.bytes, ..old(self)@ }),
                w == self@.width,
                color == pixel_bytes(self@.order, r, g, b),
                orig == old(self)@.bytes,
                gx0 == x0 as int,
                gy0 == y0 as int,
                gx1 == x1 as int,
                gy1 == y1 as int,
                total == abs(gx1 - gx0) + abs(gy1 - gy0),
                dx == abs(gx1 - gx0),
                dy == -abs(gy1 - gy0),
                sx == (if gx0 < gx1 { 1int } else { -1int }),
                sy == (if gy0 < gy1 { 1int } else { -1int }),
                (x as int, y as int, err as int) == line_state(gx0, gy0, gx1, gy1, k),
                k <= total,
                forall|j: nat| j < k ==> !(#[trigger] line_state(gx0, gy0, gx1, gy1, j).0 == gx1
                    && line_state(gx0, gy0, gx1, gy1, j).1 == gy1),
            ensures
                self@.bytes == line_spec(orig, w, gx0, gy0, gx1, gy1, color),
            decreases total - k,
        {
            proof {
                lemma_line_state(gx0, gy0, gx1, gy1, k);
            }
            let ghost before = self.buf@;
            self.put_pixel(x, y, r, g, b);
            proof {
                assert forall|px: int, py: int|
                    walked_before(gx0, gy0, gx1, gy1, (k + 1) as nat, px, py) == (walked_before(
                        gx0,
                        gy0,
                        gx1,
                        gy1,
                        k,
                        px,
                        py,
                    ) || (px == x && py == y)) by {
                    if walked_before(gx0, gy0, gx1, gy1, (k + 1) as nat, px, py) {
                        let j = choose|j: nat|
                            j < k + 1 && #[trigger] line_state(gx0, gy0, gx1, gy1, j).0 == px
                                && line_state(gx0, gy0, gx1, gy1, j).1 == py;
                        if j < k {
                            assert(walked_before(gx0, gy0, gx1, gy1, k, px, py));
                        }
                    }
                    if walked_before(gx0, gy0, gx1, gy1, k, px, py) {
                        let j = choose|j: nat|
                            j < k && #[trigger] line_state(gx0, gy0, gx1, gy1, j).0 == px
                                && line_state(gx0, gy0, gx1, gy1, j).1 == py;
                        assert(j < k + 1);
                    }
                    if px == x && py == y {
                        assert(line_state(gx0, gy0, gx1, gy1, k).0 == px);
                    }
                }
                assert(self.buf@ =~= paint(
                    orig,
                    w,
                    |px: int, py: int| walked_before(gx0, gy0, gx1, gy1, (k + 1) as nat, px, py),
                    color,
                ));
            }
            if x == x1 && y == y1 {
                proof {
                    assert(line_state(gx0, gy0, gx1, gy1, k).0 == gx1);
                    assert(line_state(gx0, gy0, gx1, gy1, k).1 == gy1);
                    assert((abs(gx1 - gx0) + abs(gy1 - gy0) + 1) as nat == total + 1);
                    assert forall|px: int, py: int|
                        walked_before(gx0, gy0, gx1, gy1, (k + 1) as nat, px, py) == on_line(
                            gx0,
                            gy0,
                            gx1,
                            gy1,
                            px,
                            py,
                        ) by {
                        if on_line(gx0, gy0, gx1, gy1, px, py) {
                            let j = choose|j: nat|
                                j < total + 1 && #[trigger] line_state(gx0, gy0, gx1, gy1, j).0
                                    == px && line_state(gx0, gy0, gx1, gy1, j).1 == py;
                            if j > k {
                                lemma_line_state_stays(gx0, gy0, gx1, gy1, k, j);
                                assert(line_state(gx0, gy0, gx1, gy1, k).0 == px);
                            }
                        }
                        if walked_before(gx0, gy0, gx1, gy1, (k + 1) as nat, px, py) {
                            let j = choose|j: nat|
                                j < k + 1 && #[trigger] line_state(gx0, gy0, gx1, gy1, j).0
                                    == px && line_state(gx0, gy0, gx1, gy1, j).1 == py;
                            assert(j < total + 1);
                        }
                    }
                    assert(self.buf@ =~= line_spec(orig, w, gx0, gy0, gx1, gy1, color));
                }
                break;
            }
            proof {
                lemma_line_state(gx0, gy0, gx1, gy1, (k + 1) as nat);
            }
            let e2 = 2 * err;
            if e2 >= dy {
                err = err + dy;
                x = x + sx;
            }
            if e2 <= dx {
                err = err + dx;
                y = y + sy;
            }
            proof {
                k = k + 1;
                lemma_line_state(gx0, gy0, gx1, gy1, k);
                if k > total {
                    lemma_line_state(gx0, gy0, gx1, gy1, total);
                    assert(false);
                }
            }
        }
    }

    /// Draws the outline of a triangle as its three edges.
    pub fn draw_triangle_wire(
        &mut self,
        x0: isize,
        y0: isize,
        x1: isize,
        y1: isize,
        x2: isize,
        y2: isize,
        r: u8,
        g: u8,
        b: u8,
    )
        requires
            old(self).wf(),
        ensures
            final(self).wf(),
            final(self)@ == (FrameModel {
                bytes: triangle_spec(
                    old(self)@.bytes,
                    old(self)@.width as int,
                    x0 as int,
                    y0 as int,
                    x1 as int,
                    y1 as int,
                    x2 as int,
                    y2 as int,
                    pixel_bytes(old(self)@.order, r, g, b),
                ),
                ..old(self)@
            }),
    {
        self.draw_line(x0, y0, x1, y1, r, g, b);
        self.draw_line(x1, y1, x2, y2, r, g, b);
        self.draw_line(x2, y2, x0, y0, r, g, b);
    }

    /// Copies the RGBA image `rgba` (`w` x `h` pixels) into the buffer with its
    /// top-left corner at (dst_x, dst_y), clipped to the buffer; pixels with
    /// alpha 0 are transparent, the others are packed in the buffer's order.
    pub fn blit_rgba(&mut self, rgba: &[u8], w: usize, h: usize, dst_x: usize, dst_y: usize)
        requires
            old(self).wf(),
            w * h * 4 <= rgba@.len(),
        ensures
            final(self).wf(),
            final(self)@ == (FrameModel {
                bytes: blit_spec(
                    old(self)@.bytes,
                    old(self)@.width as int,
                    old(self)@.order,
                    rgba@,
                    w as int,
                    h as int,
                    dst_x as int,
                    dst_y as int,
                ),
                ..old(self)@
            }),
    {
        let ghost orig = self.buf@;
        let ghost bw = self.width as int;
        let ghost src = rgba@;
        let src_len = rgba.len();
        let room_x = if dst_x < self.width { self.width - dst_x } else { 0 };
        let room_y = if dst_y < self.height { self.height - dst_y } else { 0 };
        let cw = if w < room_x { w } else { room_x };
        let ch = if h < room_y { h } else { room_y };
        let mut row: usize = 0;
        while row < ch
            invariant
                self.wf(),
                self@ == (FrameModel { bytes: self@.bytes, ..old(self)@ }),
                orig == old(self)@.bytes,
                bw == self@.width,
                src == rgba@,
                w * h * 4 <= src.len(),
                cw <= w,
                ch <= h,
                cw == 0 || dst_x + cw <= bw,
                ch == 0 || dst_y + ch <= self@.height,
                row <= ch,
                self@.bytes.len() == orig.len(),
                src.len() == src_len,
                forall|i: int|
                    0 <= i < orig.len() ==> #[trigger] self@.bytes[i] == (if 0 <= pixel_of(bw, i).1
                        - dst_y < row && 0 <= pixel_of(bw, i).0 - dst_x < cw {
                        blit_spec(orig, bw, self@.order, src, w as int, h as int, dst_x as int, dst_y as int)[i]
                    } else {
                        orig[i]
                    }),
            decreases ch - row,
        {
            let mut col: usize = 0;
            while col < cw
                invariant
                    self.wf(),
                    self@ == (FrameModel { bytes: self@.bytes, ..old(self)@ }),
                    orig == old(self)@.bytes,
                    bw == self@.width,
                    src == rgba@,
                    w * h * 4 <= src.len(),
                    cw <= w,
                    ch <= h,
                    col < cw ==> dst_x + cw <= bw,
                    dst_y + ch <= self@.height,
                    row < ch,
                    self@.bytes.len() == orig.len(),
                    src.len() == src_len,
                    col <= cw,
                    forall|i: int|
                        0 <= i < orig.len() ==> #[trigger] self@.bytes[i] == (if (0 <= pixel_of(
                            bw,
                            i,
                        ).1 - dst_y < row && 0 <= pixel_of(bw, i).0 - dst_x < cw) || (pixel_of(
                            bw,
                            i,
                        ).1 - dst_y == row && 0 <= pixel_of(bw, i).0 - dst_x < col) {
                            blit_spec(orig, bw, self@.order, src, w as int, h as int, dst_x as int, dst_y as int)[i]
                        } else {
                            orig[i]
                        }),
                decreases cw - col,
            {
                proof {
                    lemma_pixel_in_range(w as int, h as int, col as int, row as int);
                    lemma_pixel_in_range(
                        bw,
                        self@.height as int,
                        (dst_x + col) as int,
                        (dst_y + row) as int,
                    );
                }
                let o = (row * w + col) * 4;
                let q = (dst_y + row) * self.width + dst_x + col;
                let alpha = rgba[o + 3];
                let ghost before = self.buf@;
                if alpha != 0 {
                    let bytes = self.order.pixel_bytes(rgba[o], rgba[o + 1], rgba[o + 2]);
                    self.store_pixel(q, bytes);
                }
                proof {
                    assert forall|i: int| 0 <= i < orig.len() implies #[trigger] self@.bytes[i] == (if (0
                        <= pixel_of(bw, i).1 - dst_y < row && 0 <= pixel_of(bw, i).0 - dst_x < cw) || (
                    pixel_of(bw, i).1 - dst_y == row && 0 <= pixel_of(bw, i).0 - dst_x < col + 1) {
                        blit_spec(orig, bw, self@.order, src, w as int, h as int, dst_x as int, dst_y as int)[i]
                    } else {
                        orig[i]
                    }) by {
                        lemma_pixel_index(bw, (dst_x + col) as int, (dst_y + row) as int, i);
                        assert((dst_y + row) as int * bw + (dst_x + col) as int == q);
                    }
                }
                col = col + 1;
            }
            row = row + 1;
        }
        proof {
            assert forall|i: int| 0 <= i < orig.len() implies self@.bytes[i] == blit_spec(
                orig,
                bw,
                self@.order,
                src,
                w as int,
                h as int,
                dst_x as int,
                dst_y as int,
            )[i] by {
                self.lemma_pixel_of_in_bounds(i);
            }
            assert(self@.bytes =~= blit_spec(
                orig,
                bw,
                self@.order,
                src,
                w as int,
                h as int,
                dst_x as int,
                dst_y as int,
            ));
        }
    }

    /// Copies the buffer to a device framebuffer whose scanlines are the
    /// stride apart: in one piece when a buffer row is exactly one stride,
    /// row by row otherwise. Bytes of `dst` outside the image are kept.
    pub fn flush_into(&self, dst: &mut [u8])
        requires
            self.wf(),
            self@.height == 0 || (self@.height - 1) * self@.pitch + self@.width * 4 <= old(
                dst,
            )@.len(),
        ensures
            final(dst)@ == flush_spec(
                old(dst)@,
                self@.bytes,
                (self@.width * 4) as int,
                self@.height as int,
                self@.pitch as int,
            ),
    {
        let ghost orig = dst@;
        let dst_len = dst.len();
        let row_bytes = self.width * 4;
        let pitch = self.dst_pitch;
        let h = self.height;
        assert(self@.bytes.len() == h * row_bytes) by (nonlinear_arith)
            requires
                self@.bytes.len() == self@.width * self@.height * 4,
                row_bytes == self@.width * 4,
                h == self@.height,
        ;
        if row_bytes == pitch {
            let n = h * row_bytes;
            proof {
                if h > 0 {
                    assert((h - 1) * pitch + row_bytes == h * row_bytes) by (nonlinear_arith)
                        requires
                            row_bytes == pitch,
                    ;
                }
            }
            let mut j: usize = 0;
            while j < n
                invariant
                    self.wf(),
                    n == self@.bytes.len(),
                    n <= orig.len(),
                    dst@.len() == orig.len(),
                    j <= n,
                    forall|t: int|
                        0 <= t < orig.len() ==> #[trigger] dst@[t] == (if t < j {
                            self@.bytes[t]
                        } else {
                            orig[t]
                        }),
                decreases n - j,
            {
                dst[j] = self.buf[j];
                j = j + 1;
            }
            proof {
                assert forall|t: int| 0 <= t < orig.len() implies dst@[t] == flush_spec(
                    orig,
                    self@.bytes,
                    row_bytes as int,
                    h as int,
                    pitch as int,
                )[t] by {
                    if row_bytes > 0 {
                        lemma_fundamental_div_mod(t, pitch as int);
                        let y = t / pitch as int;
                        let c = t % pitch as int;
                        if t < n {
                            assert(y < h) by (nonlinear_arith)
                                requires
                                    t == pitch * y + c,
                                    0 <= c,
                                    t < h * pitch,
                                    pitch > 0,
                            ;
                        } else {
                            assert(y >= h) by (nonlinear_arith)
                                requires
                                    t == pitch * y + c,
                                    c < pitch,
                                    t >= h * pitch,
                                    pitch > 0,
                            ;
                        }
                        assert(y * row_bytes + c == t) by (nonlinear_arith)
                            requires
                                t == pitch * y + c,
                                row_bytes == pitch,
                        ;
                    }
                }
                assert(dst@ =~= flush_spec(orig, self@.bytes, row_bytes as int, h as int, pitch as int));
            }
        } else {
            let mut y: usize = 0;
            while y < h
                invariant
                    self.wf(),
                    row_bytes == self@.width * 4,
                    pitch == self@.pitch,
                    h == self@.height,
                    h == 0 || (h - 1) * pitch + row_bytes <= orig.len(),
                    dst@.len() == orig.len(),
                    orig.len() == dst_len,
                    self@.bytes.len() == h * row_bytes,
                    y <= h,
                    forall|t: int|
                        0 <= t < orig.len() ==> #[trigger] dst@[t] == (if copied_before(
                            t,
                            pitch as int,
                            row_bytes as int,
                            y as int,
                            0,
                        ) {
                            self@.bytes[(t / pitch as int) * row_bytes + t % pitch as int]
                        } else {
                            orig[t]
                        }),
                decreases h - y,
            {
                let mut c: usize = 0;
                proof {
                    assert(y * pitch + row_bytes <= orig.len()) by (nonlinear_arith)
                        requires
                            y + 1 <= h,
                            (h - 1) * pitch + row_bytes <= orig.len(),
                            0 <= pitch,
                    ;
                    assert(y * row_bytes + row_bytes <= h * row_bytes) by (nonlinear_arith)
                        requires
                            y + 1 <= h,
                            0 <= row_bytes,
                    ;
                }
                while c < row_bytes
                    invariant
                        self.wf(),
                        row_bytes == self@.width * 4,
                        pitch == self@.pitch,
                        h == self@.height,
                        y < h,
                        y * pitch + row_bytes <= orig.len(),
                        y * row_bytes + row_bytes <= h * row_bytes,
                        dst@.len() == orig.len(),
                        orig.len() == dst_len,
                        self@.bytes.len() == h * row_bytes,
                        c <= row_bytes,
                        forall|t: int|
                            0 <= t < orig.len() ==> #[trigger] dst@[t] == (if copied_before(
                                t,
                                pitch as int,
                                row_bytes as int,
                                y as int,
                                c as int,
                            ) {
                                self@.bytes[(t / pitch as int) * row_bytes + t % pitch as int]
                            } else {
                                orig[t]
                            }),
                    decreases row_bytes - c,
                {
                    let ghost before = dst@;
                    dst[y * pitch + c] = self.buf[y * row_bytes + c];
                    proof {
                        assert forall|t: int| 0 <= t < orig.len() implies #[trigger] dst@[t] == (if copied_before(
                            t,
                            pitch as int,
                            row_bytes as int,
                            y as int,
                            (c + 1) as int,
                        ) {
                            self@.bytes[(t / pitch as int) * row_bytes + t % pitch as int]
                        } else {
                            orig[t]
                        }) by {
                            lemma_fundamental_div_mod_converse(
                                (y * pitch + c) as int,
                                pitch as int,
                                y as int,
                                c as int,
                            );
                            lemma_fundamental_div_mod(t, pitch as int);
                            if t != y * pitch + c {
                                if t / pitch as int == y && t % pitch as int == c {
                                    assert(t == pitch * y + c);
                                    assert(pitch * y == y * pitch) by (nonlinear_arith);
                                }
                                assert(dst@[t] == before[t]);
                            }
                        }
                    }
                    c = c + 1;
                }
                y = y + 1;
            }
            proof {
                assert(dst@ =~= flush_spec(orig, self@.bytes, row_bytes as int, h as int, pitch as int));
            }
        }
    }

    /// Draws the closed polygon `pts` in all nine tiles of the 3 x 3
    /// neighbourhood of a toroidal `sw` x `sh` world, so that a shape across
    /// an edge shows on both sides.
    pub fn draw_polygon_wrapped(
        &mut self,
        pts: &[(isize, isize)],
        sw: usize,
        sh: usize,
        r: u8,
        g: u8,
        b: u8,
    )
        requires
            old(self).wf(),
            sw <= isize::MAX,
            sh <= isize::MAX,
            forall|k: int|
                0 <= k < pts@.len() ==> isize::MIN + sw <= #[trigger] pts@[k].0 <= isize::MAX - sw
                    && isize::MIN + sh <= pts@[k].1 <= isize::MAX - sh,
        ensures
            final(self).wf(),
            final(self)@ == (FrameModel {
                bytes: lines_spec(
                    old(self)@.bytes,
                    old(self)@.width as int,
                    wrapped_edges(pts@, sw as int, sh as int),
                    pixel_bytes(old(self)@.order, r, g, b),
                ),
                ..old(self)@
            }),
    {
        let ghost w = self.width as int;
        let ghost color = pixel_bytes(self.order, r, g, b);
        let ghost orig = self.buf@;
        let ghost edges = wrapped_edges(pts@, sw as int, sh as int);
        let n = pts.len();
        let sw_i = sw as isize;
        let sh_i = sh as isize;
        let mut t: usize = 0;
        while t < 9
            invariant
                self.wf(),
                self@ == (FrameModel { bytes: self@.bytes, ..old(self)@ }),
                w == self@.width,
                color == pixel_bytes(self@.order, r, g, b),
                orig == old(self)@.bytes,
                edges == wrapped_edges(pts@, sw as int, sh as int),
                n == pts@.len(),
                sw_i == sw,
                sh_i == sh,
                sw <= isize::MAX,
                sh <= isize::MAX,
                forall|k: int|
                    0 <= k < pts@.len() ==> isize::MIN + sw <= #[trigger] pts@[k].0 <= isize::MAX - sw
                        && isize::MIN + sh <= pts@[k].1 <= isize::MAX - sh,
                t <= 9,
                self@.bytes == lines_spec(orig, w, edges.take(t * n), color),
            decreases 9 - t,
        {
            let ox: isize = if t % 3 == 0 { -sw_i } else if t % 3 == 1 { 0 } else { sw_i };
            let oy: isize = if t / 3 == 0 { -sh_i } else if t / 3 == 1 { 0 } else { sh_i };
            assert(tile_offset(sw as int, sh as int, t as int) == (ox as int, oy as int)) by {
                let (a, c) = (t % 3 - 1, t / 3 - 1);
                assert(a == -1 || a == 0 || a == 1);
                assert(c == -1 || c == 0 || c == 1);
                assert(a * sw == (if a == -1 { -sw } else if a == 0 { 0 } else { sw as int })) by (nonlinear_arith)
                    requires a == -1 || a == 0 || a == 1;
                assert(c * sh == (if c == -1 { -sh } else if c == 0 { 0 } else { sh as int })) by (nonlinear_arith)
                    requires c == -1 || c == 0 || c == 1;
            }
            let mut i: usize = 0;
            while i < n
                invariant
                    self.wf(),
                    self@ == (FrameModel { bytes: self@.bytes, ..old(self)@ }),
                    w == self@.width,
                    color == pixel_bytes(self@.order, r, g, b),
                    orig == old(self)@.bytes,
                    edges == wrapped_edges(pts@, sw as int, sh as int),
                    n == pts@.len(),
                    tile_offset(sw as int, sh as int, t as int) == (ox as int, oy as int),
                    -sw <= ox <= sw,
                    -sh <= oy <= sh,
                    forall|k: int|
                        0 <= k < pts@.len() ==> isize::MIN + sw <= #[trigger] pts@[k].0 <= isize::MAX
                            - sw && isize::MIN + sh <= pts@[k].1 <= isize::MAX - sh,
                    t < 9,
                    i <= n,
                    self@.bytes == lines_spec(orig, w, edges.take(t * n + i), color),
                decreases n - i,
            {
                let j = if i + 1 == n { 0 } else { i + 1 };
                let (ax, ay) = pts[i];
                let (bx, by) = pts[j];
                let ghost k = t * n + i;
                proof {
                    lemma_fundamental_div_mod_converse(k, n as int, t as int, i as int);
                    if i + 1 < n {
                        vstd::arithmetic::div_mod::lemma_small_mod((i + 1) as nat, n as nat);
                    } else {
                        vstd::arithmetic::div_mod::lemma_mod_self_0(n as int);
                    }
                    assert(k < 9 * n) by (nonlinear_arith)
                        requires
                            k == t * n + i,
                            t + 1 <= 9,
                            i < n,
                    ;
                    assert(edges.take(k + 1).drop_last() =~= edges.take(k));
                    assert(edges.take(k + 1).last() == edges[k]);
                    assert(edges[k] == (ax + ox, ay + oy, bx + ox, by + oy));
                }
                self.draw_line(ax + ox, ay + oy, bx + ox, by + oy, r, g, b);
                i = i + 1;
            }
            proof {
                assert(t * n + n == (t + 1) * n) by (nonlinear_arith);
            }
            t = t + 1;
        }
        proof {
            assert(edges.take(9 * n) =~= edges);
        }
    }

    /// Every byte of the buffer lies in a pixel inside it.
    proof fn lemma_pixel_of_in_bounds(&self, i: int)
        requires
            self.wf(),
            0 <= i < self@.bytes.len(),
        ensures
            0 <= pixel_of(self@.width as int, i).0 < self@.width,
            0 <= pixel_of(self@.width as int, i).1 < self@.height,
    {
        let w = self@.width as int;
        let h = self@.height as int;
        let q = i / 4;
        assert(q < w * h);
        assert(w > 0) by (nonlinear_arith)
            requires
                0 <= q < w * h,
                0 <= h,
        ;
        lemma_fundamental_div_mod(q, w);
        assert(q / w < h) by (nonlinear_arith)
            requires
                q < w * h,
                q == w * (q / w) + q % w,
                0 <= q % w,
                w > 0,
        ;
    }
}


/// Bresenham walk from (x0, y0) toward (x1, y1): the point and error term
/// after `k` steps. Once the end point is reached the walk stays there.
pub open spec fn line_state(x0: int, y0: int, x1: int, y1: int, k: nat) -> (int, int, int)
    decreases k,
{
    let dx = abs(x1 - x0);
    let dy = -abs(y1 - y0);
    if k == 0 {
        (x0, y0, dx + dy)
    } else {
        let (x, y, err) = line_state(x0, y0, x1, y1, (k - 1) as nat);
        if x == x1 && y == y1 {
            (x, y, err)
        } else {
            let e2 = 2 * err;
            let sx = if x0 < x1 { 1int } else { -1int };
            let sy = if y0 < y1 { 1int } else { -1int };
            let nx = if e2 >= dy { x + sx } else { x };
            let ey = if e2 >= dy { err + dy } else { err };
            let ny = if e2 <= dx { y + sy } else { y };
            let ne = if e2 <= dx { ey + dx } else { ey };
            (nx, ny, ne)
        }
    }
}

/// (px, py) is one of the first `n` points of the walk.
pub open spec fn walked_before(x0: int, y0: int, x1: int, y1: int, n: nat, px: int, py: int) -> bool {
    exists|k: nat|
        k < n && #[trigger] line_state(x0, y0, x1, y1, k).0 == px && line_state(
            x0,
            y0,
            x1,
            y1,
            k,
        ).1 == py
}

/// (px, py) is a point of the line from (x0, y0) to (x1, y1); the walk
/// reaches its end within |x1 - x0| + |y1 - y0| steps.
pub open spec fn on_line(x0: int, y0: int, x1: int, y1: int, px: int, py: int) -> bool {
    walked_before(x0, y0, x1, y1, (abs(x1 - x0) + abs(y1 - y0) + 1) as nat, px, py)
}

/// `s` with the line from (x0, y0) to (x1, y1) drawn in `color`, clipped to the buffer.
pub open spec fn line_spec(
    s: Seq<u8>,
    w: int,
    x0: int,
    y0: int,
    x1: int,
    y1: int,
    color: Seq<u8>,
) -> Seq<u8> {
    paint(s, w, |px: int, py: int| on_line(x0, y0, x1, y1, px, py), color)
}

/// `s` with the outline of the triangle drawn edge by edge.
pub open spec fn triangle_spec(
    s: Seq<u8>,
    w: int,
    x0: int,
    y0: int,
    x1: int,
    y1: int,
    x2: int,
    y2: int,
    color: Seq<u8>,
) -> Seq<u8> {
    line_spec(
        line_spec(line_spec(s, w, x0, y0, x1, y1, color), w, x1, y1, x2, y2, color),
        w,
        x2,
        y2,
        x0,
        y0,
        color,
    )
}

pub open spec fn abs(v: int) -> int {
    if v < 0 {
        -v
    } else {
        v
    }
}

/// What holds after `k` steps of the walk: with `a` steps taken along x and
/// `b` along y, neither passes its end, the error term is
/// `dx * (1 + b) - dy * (1 + a)` and stays within `[-2 dy, 2 dx]`, and every
/// step before the end moves the point.
proof fn lemma_line_state(x0: int, y0: int, x1: int, y1: int, k: nat)
    ensures
        ({
            let (x, y, err) = line_state(x0, y0, x1, y1, k);
            let dx = abs(x1 - x0);
            let dy = abs(y1 - y0);
            let a = if x0 < x1 { x - x0 } else { x0 - x };
            let b = if y0 < y1 { y - y0 } else { y0 - y };
            &&& 0 <= a <= dx
            &&& 0 <= b <= dy
            &&& (x == x1 <==> a == dx)
            &&& (y == y1 <==> b == dy)
            &&& err == dx * (1 + b) - dy * (1 + a)
            &&& -2 * dy <= err <= 2 * dx
            &&& (a + b >= k || (x == x1 && y == y1))
        }),
    decreases k,
{
    let dx = abs(x1 - x0);
    let dy = abs(y1 - y0);
    if k == 0 {
        assert(dx * (1 + 0) - dy * (1 + 0) == dx - dy) by (nonlinear_arith);
    } else {
        lemma_line_state(x0, y0, x1, y1, (k - 1) as nat);
        let (x, y, err) = line_state(x0, y0, x1, y1, (k - 1) as nat);
        if !(x == x1 && y == y1) {
            let a = if x0 < x1 { x - x0 } else { x0 - x };
            let b = if y0 < y1 { y - y0 } else { y0 - y };
            let e2 = 2 * err;
            let stepx = e2 >= -dy;
            let stepy = e2 <= dx;
            if stepx && a == dx {
                assert(b + 1 <= dy);
                assert(false) by (nonlinear_arith)
                    requires
                        err == dx * (1 + b) - dy * (1 + a),
                        a == dx,
                        b + 1 <= dy,
                        2 * err >= -dy,
                        0 <= b,
                        0 <= dx,
                ;
            }
            if stepy && b == dy {
                assert(a + 1 <= dx);
                assert(false) by (nonlinear_arith)
                    requires
                        err == dx * (1 + b) - dy * (1 + a),
                        b == dy,
                        a + 1 <= dx,
                        2 * err <= dx,
                        0 <= a,
                        0 <= dy,
                ;
            }
            let a2 = if stepx { a + 1 } else { a };
            let b2 = if stepy { b + 1 } else { b };
            assert(dx * (1 + b2) - dy * (1 + a2) == dx * (1 + b) - dy * (1 + a) + (if stepy {
                dx
            } else {
                0
            }) - (if stepx {
                dy
            } else {
                0
            })) by (nonlinear_arith)
                requires
                    a2 == (if stepx {
                        a + 1
                    } else {
                        a
                    }),
                    b2 == (if stepy {
                        b + 1
                    } else {
                        b
                    }),
            ;
        }
    }
}

/// After the walk reaches its end it stays there.
proof fn lemma_line_state_stays(x0: int, y0: int, x1: int, y1: int, k: nat, m: nat)
    requires
        k <= m,
        line_state(x0, y0, x1, y1, k).0 == x1,
        line_state(x0, y0, x1, y1, k).1 == y1,
    ensures
        line_state(x0, y0, x1, y1, m) == line_state(x0, y0, x1, y1, k),
    decreases m - k,
{
    if k < m {
        lemma_line_state_stays(x0, y0, x1, y1, k, (m - 1) as nat);
    }
}


/// `s` with the RGBA image `src` (`w` x `h` pixels, rows of `4 * w` bytes)
/// copied in at (dx, dy): pixels with alpha 0 are skipped, the others are
/// packed in `order`; what falls outside the buffer is dropped.
pub open spec fn blit_spec(
    s: Seq<u8>,
    bw: int,
    order: PixelOrder,
    src: Seq<u8>,
    w: int,
    h: int,
    dx: int,
    dy: int,
) -> Seq<u8> {
    Seq::new(
        s.len(),
        |i: int|
            {
                let sx = pixel_of(bw, i).0 - dx;
                let sy = pixel_of(bw, i).1 - dy;
                let o = (sy * w + sx) * 4;
                if 0 <= sx < w && 0 <= sy < h && src[o + 3] != 0 {
                    pixel_bytes(order, src[o], src[o + 1], src[o + 2])[i % 4]
                } else {
                    s[i]
                }
            },
    )
}

/// The device framebuffer `d` after copying `h` rows of `row_bytes` bytes
/// from `src` to scanlines `pitch` bytes apart.
pub open spec fn flush_spec(d: Seq<u8>, src: Seq<u8>, row_bytes: int, h: int, pitch: int) -> Seq<u8> {
    Seq::new(
        d.len(),
        |j: int|
            if row_bytes > 0 && j / pitch < h && j % pitch < row_bytes {
                src[(j / pitch) * row_bytes + j % pitch]
            } else {
                d[j]
            },
    )
}

/// Blitting an image in which every pixel has alpha 0 leaves the buffer
/// byte for byte as it was.
pub proof fn lemma_blit_transparent(
    s: Seq<u8>,
    bw: int,
    order: PixelOrder,
    src: Seq<u8>,
    w: int,
    h: int,
    dx: int,
    dy: int,
)
    requires
        0 <= w,
        0 <= h,
        w * h * 4 <= src.len(),
        forall|k: int| 0 <= k < w * h ==> #[trigger] src[4 * k + 3] == 0,
    ensures
        blit_spec(s, bw, order, src, w, h, dx, dy) == s,
{
    assert forall|i: int| 0 <= i < s.len() implies blit_spec(s, bw, order, src, w, h, dx, dy)[i]
        == s[i] by {
        let sx = pixel_of(bw, i).0 - dx;
        let sy = pixel_of(bw, i).1 - dy;
        if 0 <= sx < w && 0 <= sy < h {
            lemma_pixel_in_range(w, h, sx, sy);
            let k = sy * w + sx;
            assert(src[4 * k + 3] == 0);
            assert((sy * w + sx) * 4 + 3 == 4 * k + 3);
        }
    }
    assert(blit_spec(s, bw, order, src, w, h, dx, dy) =~= s);
}

/// Byte `t` of the framebuffer lies in a row before `y`, or in row `y`
/// before column `c`, and within the image's row length.
spec fn copied_before(t: int, pitch: int, row_bytes: int, y: int, c: int) -> bool {
    row_bytes > 0 && ((t / pitch < y && t % pitch < row_bytes) || (t / pitch == y && t % pitch < c))
}


/// Offset of tile `t` (0 to 8) of the 3 x 3 neighbourhood of a `sw` x `sh`
/// world, row by row from the top left.
pub open spec fn tile_offset(sw: int, sh: int, t: int) -> (int, int) {
    ((t % 3 - 1) * sw, (t / 3 - 1) * sh)
}

/// Edge `i` of the closed polygon `pts`, shifted by (ox, oy), as
/// (x0, y0, x1, y1).
pub open spec fn polygon_edge(pts: Seq<(isize, isize)>, i: int, ox: int, oy: int) -> (
    int,
    int,
    int,
    int,
) {
    let j = (i + 1) % (pts.len() as int);
    (pts[i].0 + ox, pts[i].1 + oy, pts[j].0 + ox, pts[j].1 + oy)
}

/// The edges of the polygon on each of the nine tiles, tile by tile.
pub open spec fn wrapped_edges(pts: Seq<(isize, isize)>, sw: int, sh: int) -> Seq<(int, int, int, int)> {
    Seq::new(
        9 * pts.len(),
        |k: int|
            polygon_edge(
                pts,
                k % (pts.len() as int),
                tile_offset(sw, sh, k / (pts.len() as int)).0,
                tile_offset(sw, sh, k / (pts.len() as int)).1,
            ),
    )
}

/// `s` with the lines `segs` drawn in order.
pub open spec fn lines_spec(s: Seq<u8>, w: int, segs: Seq<(int, int, int, int)>, color: Seq<u8>) -> Seq<
    u8,
>
    decreases segs.len(),
{
    if segs.len() == 0 {
        s
    } else {
        let e = segs.last();
        line_spec(lines_spec(s, w, segs.drop_last(), color), w, e.0, e.1, e.2, e.3, color)
    }
}

} // verus!
