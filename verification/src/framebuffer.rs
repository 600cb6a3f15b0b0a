use crate::colors::Color;
use crate::colors::unpack_hex;
use vstd::prelude::*;

verus! {

/// The physical row that stores logical row `y`: with `flip` set the surface
/// presents a bottom-left origin while rows are stored top-down, so logical
/// row `y` lives at physical row `h - 1 - y`.
pub open spec fn phys_row(flip: bool, h: int, y: int) -> int {
    if flip {
        h - 1 - y
    } else {
        y
    }
}

/// The buffer index that stores logical coordinate `(x, y)`.
pub open spec fn cell_index(w: int, h: int, flip: bool, x: int, y: int) -> int {
    phys_row(flip, h, y) * w + x
}

/// One bounds-checked pixel write into a row-major buffer of `w * h` packed
/// pixels: out-of-bounds coordinates leave the buffer unchanged.
pub open spec fn put_pixel(
    buf: Seq<u32>,
    w: int,
    h: int,
    flip: bool,
    x: int,
    y: int,
    pix: u32,
) -> Seq<u32> {
    if 0 <= x < w && 0 <= y < h {
        buf.update(cell_index(w, h, flip, x, y), pix)
    } else {
        buf
    }
}

/// A pixel write lands exactly at the cell that a later lookup of the same
/// logical coordinate reads, and disturbs no other logical coordinate: the
/// vertical-flip remapping is consistent between writing and reading.
pub proof fn lemma_put_pixel_reads_back(
    buf: Seq<u32>,
    w: int,
    h: int,
    flip: bool,
    x: int,
    y: int,
    pix: u32,
)
    requires
        buf.len() == w * h,
        w >= 1,
        h >= 1,
        0 <= x < w,
        0 <= y < h,
    ensures
        put_pixel(buf, w, h, flip, x, y, pix).len() == buf.len(),
        put_pixel(buf, w, h, flip, x, y, pix)[cell_index(w, h, flip, x, y)] == pix,
        forall|px: int, py: int|
            0 <= px < w && 0 <= py < h && (px != x || py != y) ==> put_pixel(
                buf,
                w,
                h,
                flip,
                x,
                y,
                pix,
            )[#[trigger] cell_index(w, h, flip, px, py)] == buf[cell_index(w, h, flip, px, py)],
{
    let r = phys_row(flip, h, y);
    assert(0 <= r < h);
    assert(r * w + x < w * h && r * w >= 0) by (nonlinear_arith)
        requires
            0 <= r <= h - 1 && 0 <= x < w && w >= 1,
    ;
    assert forall|px: int, py: int|
        0 <= px < w && 0 <= py < h && (px != x || py != y) implies put_pixel(
        buf,
        w,
        h,
        flip,
        x,
        y,
        pix,
    )[#[trigger] cell_index(w, h, flip, px, py)] == buf[cell_index(w, h, flip, px, py)] by {
        let rp = phys_row(flip, h, py);
        assert(0 <= rp < h);
        assert(rp * w + px < w * h && rp * w >= 0) by (nonlinear_arith)
            requires
                0 <= rp <= h - 1 && 0 <= px < w && w >= 1,
        ;
        if py != y {
            assert(rp != r);
            assert(rp * w + px != r * w + x) by (nonlinear_arith)
                requires
                    rp != r && 0 <= px < w && 0 <= x < w && w >= 1,
            ;
        } else {
            assert(rp == r && px != x);
        }
    }
}

/// A pixel surface: a dense row-major grid of packed 24-bit colors together
/// with a background color, a current drawing color, and a fixed vertical
/// flip convention.
pub struct Framebuffer {
    pub width: usize,
    pub height: usize,
    pub buffer: Vec<u32>,
    pub background_color: Color,
    pub current_color: Color,
    pub flip_y: bool,
}

impl Framebuffer {
    /// The surface invariant: positive dimensions and a buffer of exactly
    /// `width * height` cells.
    pub open spec fn wf(self) -> bool {
        &&& self.buffer@.len() == self.width * self.height

    &&& self.width >= 1
    &&& self.height >= 1
    }

    /// The packed pixel value stored for logical coordinate `(x, y)`.
    pub open spec fn pixel_at(self, x: int, y: int) -> u32 {
        self.buffer@[cell_index(self.width as int, self.height as int, self.flip_y, x, y)]
    }

    pub fn new(width: usize, height: usize, flip_y: bool) -> (fb: Framebuffer)
        requires
            width >= 1,
            height >= 1,
            width * height <= usize::MAX,
        ensures
            fb.wf(),
            fb.width == width,
            fb.height == height,
            fb.flip_y == flip_y,
            fb.background_color == unpack_hex(0x000000),
            fb.current_color == unpack_hex(0xFFFFFF),
            forall|i: int|
                0 <= i < fb.buffer@.len() ==> fb.buffer@[i] == fb.background_color.spec_to_hex(),
    {
        let background_color = Color::from_hex(0x000000);
        let current_color = Color::from_hex(0xFFFFFF);
        let bg = background_color.to_hex();
        let n = width * height;
        let mut buffer: Vec<u32> = Vec::new();
        while buffer.len() < n
            invariant
                buffer@.len() <= n,
                forall|i: int| 0 <= i < buffer@.len() ==> buffer@[i] == bg,
            decreases n - buffer@.len(),
        {
            buffer.push(bg);
        }
        Framebuffer { width, height, buffer, background_color, current_color, flip_y }
    }

    /// Resets every cell to the current background color.
    pub fn clear(&mut self)
        requires
            old(self).wf(),
        ensures
            final(self).wf(),
            final(self).width == old(self).width,
            final(self).height == old(self).height,
            final(self).flip_y == old(self).flip_y,
            final(self).background_color == old(self).background_color,
            final(self).current_color == old(self).current_color,
            final(self).buffer@.len() == old(self).buffer@.len(),
            forall|i: int|
                0 <= i < final(self).buffer@.len() ==> final(self).buffer@[i] == old(
                    self,
                ).background_color.spec_to_hex(),
    {
        let bg = self.background_color.to_hex();
        let n = self.buffer.len();
        let mut i: usize = 0;
        while i < n
            invariant
                n == self.buffer@.len(),
                i <= n,
                self.width == old(self).width,
                self.height == old(self).height,
                self.flip_y == old(self).flip_y,
                self.background_color == old(self).background_color,
                self.current_color == old(self).current_color,
                bg == old(self).background_color.spec_to_hex(),
                forall|k: int| 0 <= k < i ==> self.buffer@[k] == bg,
            decreases n - i,
        {
            self.buffer[i] = bg;
            i = i + 1;
        }
    }

    /// Writes the current color at `(x, y)` when the coordinate is in bounds;
    /// an out-of-bounds coordinate is a silent no-op and changes nothing.
    pub fn point(&mut self, x: usize, y: usize)
        requires
            old(self).wf(),
        ensures
            final(self).wf(),
            final(self).width == old(self).width,
            final(self).height == old(self).height,
            final(self).flip_y == old(self).flip_y,
            final(self).background_color == old(self).background_color,
            final(self).current_color == old(self).current_color,
            final(self).buffer@ == put_pixel(
                old(self).buffer@,
                old(self).width as int,
                old(self).height as int,
                old(self).flip_y,
                x as int,
                y as int,
                old(self).current_color.spec_to_hex(),
            ),
    {
        if x < self.width && y < self.height {
            let row = if self.flip_y {
                self.height - y - 1
            } else {
                y
            };
            let n = self.buffer.len();
            proof {
                assert((row as int) * (self.width as int) + (x as int) < (self.width as int)
                    * (self.height as int)) by (nonlinear_arith)
                    requires
                        (row as int) <= (self.height as int) - 1 && (x as int) < (
                        self.width as int) && (self.width as int) >= 1,
                ;
                assert(n == self.width * self.height);
            }
            let index = row * self.width + x;
            let pix = self.current_color.to_hex();
            self.buffer[index] = pix;
        }
    }

    /// Reads the stored color at `(x, y)`, or `None` out of bounds.
    pub fn get_color_at(&self, x: usize, y: usize) -> (c: Option<Color>)
        requires
            self.wf(),
        ensures
            x < self.width && y < self.height ==> c == Some(
                unpack_hex(self.pixel_at(x as int, y as int)),
            ),
            !(x < self.width && y < self.height) ==> c is None,
    {
        if x < self.width && y < self.height {
            let row = if self.flip_y {
                self.height - y - 1
            } else {
                y
            };
            let n = self.buffer.len();
            proof {
                assert((row as int) * (self.width as int) + (x as int) < (self.width as int)
                    * (self.height as int)) by (nonlinear_arith)
                    requires
                        (row as int) <= (self.height as int) - 1 && (x as int) < (
                        self.width as int) && (self.width as int) >= 1,
                ;
                assert(n == self.width * self.height);
            }
            let index = row * self.width + x;
            Some(Color::from_hex(self.buffer[index]))
        } else {
            None
        }
    }

    pub fn set_background_color(&mut self, color: u32)
        ensures
            final(self).background_color == unpack_hex(color),
            final(self).width == old(self).width,
            final(self).height == old(self).height,
            final(self).flip_y == old(self).flip_y,
            final(self).current_color == old(self).current_color,
            final(self).buffer@ == old(self).buffer@,
    {
        self.background_color = Color::from_hex(color);
    }

    /// Serializes the surface as the bytes of a complete bitmap file.
    pub fn render_buffer(&self) -> (out: Vec<u8>)
        requires
            self.wf(),
            54 + crate::bmp::row_size_of(self.width as int) * (self.height as int)
                <= 0xFFFF_FFFF,
        ensures
            out@ == crate::bmp::bmp_bytes(self.buffer@, self.width as int, self.height as int),
    {
        crate::bmp::encode(&self.buffer, self.width, self.height)
    }

    pub fn set_current_color(&mut self, color: u32)
        ensures
            final(self).current_color == unpack_hex(color),
            final(self).width == old(self).width,
            final(self).height == old(self).height,
            final(self).flip_y == old(self).flip_y,
            final(self).background_color == old(self).background_color,
            final(self).buffer@ == old(self).buffer@,
    {
        self.current_color = Color::from_hex(color);
    }
}

} // verus!
