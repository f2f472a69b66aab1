use vstd::prelude::*;

use crate::color::blend_channel;
use crate::color::lemma_blend_channel_opaque;
use crate::color::Color;

verus! {

/// Row-major index of the cell at `(x, y)` in a grid `w` cells wide.
pub open spec fn cell_index(w: int, x: int, y: int) -> int {
    y * w + x
}

/// Whether `(x, y)` lies inside a `w` by `h` grid.
pub open spec fn cell_in_bounds(w: int, h: int, x: int, y: int) -> bool {
    0 <= x < w && 0 <= y < h
}

/// The grid contents after writing `v` at `(x, y)`: the one cell is replaced
/// by the buffer's write semantics, and an out-of-bounds write changes
/// nothing.
pub open spec fn written<T: Copy, B: GraphicBuffer<T>>(
    s: Seq<T>,
    w: int,
    h: int,
    x: int,
    y: int,
    v: T,
) -> Seq<T> {
    if cell_in_bounds(w, h, x, y) {
        s.update(cell_index(w, x, y), B::spec_put(s[cell_index(w, x, y)], v))
    } else {
        s
    }
}

/// The capability shared by all drawable buffers: fixed dimensions,
/// bounds-checked point access, and a buffer-specific write semantics.
pub trait GraphicBuffer<T: Copy>: Sized {
    /// The buffer's internal invariant.
    spec fn wf(&self) -> bool;

    /// The fixed width, in cells.
    spec fn spec_width(&self) -> int;

    /// The fixed height, in cells.
    spec fn spec_height(&self) -> int;

    /// The stored cells, row-major, top to bottom then left to right.
    spec fn cells(&self) -> Seq<T>;

    /// The value a cell holds after `v` is written over its current value
    /// `cur`.
    spec fn spec_put(cur: T, v: T) -> T;

    /// A well-formed buffer's cell count matches its dimensions, which fit
    /// in `u32`.
    proof fn lemma_wf(&self)
        requires
            self.wf(),
        ensures
            self.cells().len() == self.spec_width() * self.spec_height(),
            0 <= self.spec_width() <= u32::MAX,
            0 <= self.spec_height() <= u32::MAX,
    ;

    fn width(&self) -> (r: u32)
        requires
            self.wf(),
        ensures
            r == self.spec_width(),
    ;

    fn height(&self) -> (r: u32)
        requires
            self.wf(),
        ensures
            r == self.spec_height(),
    ;

    /// Returns the stored cell, or nothing if `(x, y)` is out of bounds.
    fn get_point(&self, x: i64, y: i64) -> (r: Option<T>)
        requires
            self.wf(),
        ensures
            cell_in_bounds(self.spec_width(), self.spec_height(), x as int, y as int) ==> r
                == Some(self.cells()[cell_index(self.spec_width(), x as int, y as int)]),
            !cell_in_bounds(self.spec_width(), self.spec_height(), x as int, y as int) ==> r
                is None,
    ;

    /// Writes `value` at `(x, y)` subject to the buffer's write semantics;
    /// an out-of-bounds write is silently discarded.
    fn put_point(&mut self, x: i64, y: i64, value: T)
        requires
            old(self).wf(),
        ensures
            final(self).wf(),
            final(self).spec_width() == old(self).spec_width(),
            final(self).spec_height() == old(self).spec_height(),
            cell_in_bounds(old(self).spec_width(), old(self).spec_height(), x as int, y as int)
                ==> final(self).cells() == old(self).cells().update(
                cell_index(old(self).spec_width(), x as int, y as int),
                Self::spec_put(
                    old(self).cells()[cell_index(old(self).spec_width(), x as int, y as int)],
                    value,
                ),
            ),
            !cell_in_bounds(old(self).spec_width(), old(self).spec_height(), x as int, y as int)
                ==> final(self).cells() == old(self).cells(),
    ;
}

/// An in-bounds cell has a row-major index below the cell count.
pub proof fn lemma_cell_index_bounds(w: int, h: int, x: int, y: int)
    requires
        cell_in_bounds(w, h, x, y),
    ensures
        0 <= y * w,
        y * w + x < w * h,
{
    assert(0 <= y * w && y * w + x < w * h) by (nonlinear_arith)
        requires
            0 <= x < w,
            0 <= y < h,
    ;
}

/// Two in-bounds cells share a row-major index exactly when they are the
/// same cell.
pub proof fn lemma_cell_index_injective(w: int, h: int, x1: int, y1: int, x2: int, y2: int)
    requires
        cell_in_bounds(w, h, x1, y1),
        cell_in_bounds(w, h, x2, y2),
    ensures
        cell_index(w, x1, y1) == cell_index(w, x2, y2) <==> (x1 == x2 && y1 == y2),
{
    assert((y1 * w + x1 == y2 * w + x2) <==> (x1 == x2 && y1 == y2)) by (nonlinear_arith)
        requires
            0 <= x1 < w,
            0 <= x2 < w,
            0 <= y1 < h,
            0 <= y2 < h,
    ;
}

/// The index facts needed to reason about one write at `(a, b)`: every
/// in-bounds cell's index lies below the cell count, and coincides with the
/// written cell's index exactly for the written cell itself.
pub proof fn lemma_write_index_facts(w: int, h: int, a: int, b: int)
    ensures
        forall|i: int, j: int|
            cell_in_bounds(w, h, i, j) ==> 0 <= #[trigger] cell_index(w, i, j) < w * h,
        forall|i: int, j: int|
            cell_in_bounds(w, h, i, j) && cell_in_bounds(w, h, a, b) ==> ((#[trigger] cell_index(
                w,
                i,
                j,
            ) == cell_index(w, a, b)) <==> (i == a && j == b)),
{
    assert forall|i: int, j: int| cell_in_bounds(w, h, i, j) implies 0 <= #[trigger] cell_index(
        w,
        i,
        j,
    ) < w * h by {
        lemma_cell_index_bounds(w, h, i, j);
    }
    assert forall|i: int, j: int|
        cell_in_bounds(w, h, i, j) && cell_in_bounds(w, h, a, b) implies ((#[trigger] cell_index(
        w,
        i,
        j,
    ) == cell_index(w, a, b)) <==> (i == a && j == b)) by {
        lemma_cell_index_injective(w, h, i, j, a, b);
    }
}

/// A graphical buffer containing pixel colors, three bytes per pixel.
pub struct FrameBuffer {
    pixels: Vec<u8>,
    width: u32,
    height: u32,
}

impl FrameBuffer {
    /// Creates a new FrameBuffer with a black background
    pub fn new(width: u32, height: u32) -> (r: FrameBuffer)
        requires
            width * height * 3 <= u32::MAX,
        ensures
            r.wf(),
            r.spec_width() == width,
            r.spec_height() == height,
            r.cells() == Seq::new(
                (width * height) as nat,
                |k: int| Color { r: 0, g: 0, b: 0, alpha: 255 },
            ),
    {
        let len: usize = (width as usize) * (height as usize) * 3;
        let mut pixels: Vec<u8> = Vec::new();
        let mut i: usize = 0;
        while i < len
            invariant
                i <= len,
                pixels@.len() == i,
                forall|j: int| 0 <= j < i ==> pixels@[j] == 0u8,
            decreases len - i,
        {
            pixels.push(0);
            i = i + 1;
        }
        let r = FrameBuffer { pixels, width, height };
        proof {
            assert(r.cells() =~= Seq::new(
                (width * height) as nat,
                |k: int| Color { r: 0, g: 0, b: 0, alpha: 255 },
            ));
        }
        r
    }

    /// Renders the buffer as a binary PPM stream: the ASCII header followed
    /// by the raw RGB bytes, row-major, top to bottom, left to right.
    pub fn ppm_bytes(&self) -> (r: Vec<u8>)
        requires
            self.wf(),
        ensures
            r@ == crate::ppm::ppm_stream(self.spec_width(), self.spec_height(), self.cells()),
    {
        let mut out: Vec<u8> = Vec::new();
        out.push(80);
        out.push(54);
        out.push(10);
        let mut wd = crate::ppm::u32_decimal(self.width);
        out.append(&mut wd);
        out.push(32);
        let mut hd = crate::ppm::u32_decimal(self.height);
        out.append(&mut hd);
        out.push(10);
        out.push(50);
        out.push(53);
        out.push(53);
        out.push(10);
        proof {
            assert(out@ =~= crate::ppm::ppm_header(self.spec_width(), self.spec_height()));
        }
        let ghost header = out@;
        let mut i: usize = 0;
        let n = self.pixels.len();
        while i < n
            invariant
                n == self.pixels@.len(),
                i <= n,
                out@ == header + self.pixels@.subrange(0, i as int),
            decreases n - i,
        {
            let byte = self.pixels[i];
            out.push(byte);
            proof {
                assert(out@ =~= header + self.pixels@.subrange(0, i + 1));
            }
            i = i + 1;
        }
        proof {
            assert(self.pixels@.subrange(0, n as int) =~= self.pixels@);
            crate::ppm::lemma_rgb_bytes_spec(self.cells());
            assert forall|k: int|
                0 <= k < self.pixels@.len() implies crate::ppm::rgb_bytes(self.cells())[k]
                == self.pixels@[k] by {
                let q = k / 3;
                vstd::arithmetic::div_mod::lemma_fundamental_div_mod(k, 3);
                assert(crate::ppm::rgb_bytes(self.cells())[3 * q] == self.cells()[q].r);
                if k % 3 == 1 {
                    assert(crate::ppm::rgb_bytes(self.cells())[3 * q + 1] == self.cells()[q].g);
                } else if k % 3 == 2 {
                    assert(crate::ppm::rgb_bytes(self.cells())[3 * q + 2] == self.cells()[q].b);
                }
            }
            assert(crate::ppm::rgb_bytes(self.cells()) =~= self.pixels@);
        }
        out
    }

    /// Dumps the framebuffer as a binary PPM image
    pub fn write<W: std::io::Write>(&self, output: &mut W) -> Result<(), std::io::Error>
        requires
            self.wf(),
    {
        let bytes = self.ppm_bytes();
        crate::ppm::write_all(output, &bytes)
    }
}

impl GraphicBuffer<Color> for FrameBuffer {
    closed spec fn wf(&self) -> bool {
        &&& self.pixels@.len() == self.width * self.height * 3
        &&& self.width * self.height * 3 <= u32::MAX
    }

    closed spec fn spec_width(&self) -> int {
        self.width as int
    }

    closed spec fn spec_height(&self) -> int {
        self.height as int
    }

    closed spec fn cells(&self) -> Seq<Color> {
        Seq::new(
            (self.width * self.height) as nat,
            |k: int| Color {
                r: self.pixels@[3 * k],
                g: self.pixels@[3 * k + 1],
                b: self.pixels@[3 * k + 2],
                alpha: 255,
            },
        )
    }

    /// A fully transparent write keeps the current color; any other write
    /// composites the written color over the current one and stores an
    /// opaque result.
    open spec fn spec_put(cur: Color, v: Color) -> Color {
        if v.alpha == 0 {
            cur
        } else {
            Color {
                r: blend_channel(cur.r, v.r, v.alpha) as u8,
                g: blend_channel(cur.g, v.g, v.alpha) as u8,
                b: blend_channel(cur.b, v.b, v.alpha) as u8,
                alpha: 255,
            }
        }
    }

    proof fn lemma_wf(&self) {
    }

    fn width(&self) -> (r: u32) {
        self.width
    }

    fn height(&self) -> (r: u32) {
        self.height
    }

    fn get_point(&self, x: i64, y: i64) -> (r: Option<Color>) {
        if x < 0 || x >= self.width as i64 {
            None
        } else if y < 0 || y >= self.height as i64 {
            None
        } else {
            proof {
                lemma_cell_index_bounds(
                    self.spec_width(),
                    self.spec_height(),
                    x as int,
                    y as int,
                );
            }
            let offset = ((y * (self.width as i64) * 3) + (x * 3)) as usize;
            Some(
                Color::rgb(self.pixels[offset], self.pixels[offset + 1], self.pixels[offset + 2]),
            )
        }
    }

    fn put_point(&mut self, x: i64, y: i64, color: Color) {
        if x < 0 || x >= self.width as i64 {
            return ;
        } else if y < 0 || y >= self.height as i64 {
            return ;
        } else if color.alpha == 0 {
            proof {
                lemma_cell_index_bounds(
                    old(self).spec_width(),
                    old(self).spec_height(),
                    x as int,
                    y as int,
                );
                let k = cell_index(old(self).spec_width(), x as int, y as int);
                assert(old(self).cells().update(
                    k,
                    Self::spec_put(old(self).cells()[k], color),
                ) =~= old(self).cells());
            }
            return ;
        }
        proof {
            lemma_cell_index_bounds(self.spec_width(), self.spec_height(), x as int, y as int);
            assert(0 <= y * (self.width as int) * 3 + x * 3 < self.width * self.height * 3);
        }
        let offset = ((y * (self.width as i64) * 3) + (x * 3)) as usize;
        let ghost k = cell_index(old(self).spec_width(), x as int, y as int);
        let ghost target = old(self).cells().update(
            k,
            Self::spec_put(old(self).cells()[k], color),
        );
        proof {
            assert(offset == 3 * k);
        }
        if color.alpha == 255 {
            self.pixels.set(offset, color.r);
            self.pixels.set(offset + 1, color.g);
            self.pixels.set(offset + 2, color.b);
            proof {
                lemma_blend_channel_opaque(old(self).cells()[k].r, color.r);
                lemma_blend_channel_opaque(old(self).cells()[k].g, color.g);
                lemma_blend_channel_opaque(old(self).cells()[k].b, color.b);
            }
        } else {
            let cur = Color::rgb(self.pixels[offset], self.pixels[offset + 1], self.pixels[offset + 2]);
            let mixed = cur.blend(color);
            self.pixels.set(offset, mixed.r);
            self.pixels.set(offset + 1, mixed.g);
            self.pixels.set(offset + 2, mixed.b);
            proof {
                assert(cur == old(self).cells()[k]);
            }
        }
        proof {
            assert forall|i: int| 0 <= i < self.cells().len() implies self.cells()[i] == target[i] by {
                if i != k {
                    assert(self.pixels@[3 * i] == old(self).pixels@[3 * i]);
                    assert(self.pixels@[3 * i + 1] == old(self).pixels@[3 * i + 1]);
                    assert(self.pixels@[3 * i + 2] == old(self).pixels@[3 * i + 2]);
                }
            }
            assert(self.cells() =~= target);
        }
    }
}

/// An opaque write replaces the stored color outright: writing a color with
/// full alpha makes the cell hold exactly that color, whatever it held
/// before.
pub proof fn lemma_put_opaque(cur: Color, c: Color)
    requires
        c.alpha == 255,
    ensures
        FrameBuffer::spec_put(cur, c) == c,
{
    lemma_blend_channel_opaque(cur.r, c.r);
    lemma_blend_channel_opaque(cur.g, c.g);
    lemma_blend_channel_opaque(cur.b, c.b);
}

/// After an opaque write at an in-bounds cell, that cell reads back exactly
/// the written color.
pub proof fn lemma_opaque_put_then_get(s: Seq<Color>, w: int, h: int, x: int, y: int, c: Color)
    requires
        s.len() == w * h,
        cell_in_bounds(w, h, x, y),
        c.alpha == 255,
    ensures
        written::<Color, FrameBuffer>(s, w, h, x, y, c)[cell_index(w, x, y)] == c,
{
    lemma_cell_index_bounds(w, h, x, y);
    lemma_put_opaque(s[cell_index(w, x, y)], c);
}

/// A fully transparent write leaves the whole grid unchanged, at any
/// coordinate and from any starting contents.
pub proof fn lemma_transparent_put_unchanged(s: Seq<Color>, w: int, h: int, x: int, y: int, c: Color)
    requires
        s.len() == w * h,
        c.alpha == 0,
    ensures
        written::<Color, FrameBuffer>(s, w, h, x, y, c) == s,
{
    if cell_in_bounds(w, h, x, y) {
        lemma_cell_index_bounds(w, h, x, y);
        let k = cell_index(w, x, y);
        assert(s.update(k, FrameBuffer::spec_put(s[k], c)) =~= s);
    }
}

/// A masking buffer containing simple one-byte values, one byte per cell.
pub struct StencilBuffer {
    pixels: Vec<u8>,
    width: u32,
    height: u32,
}

impl StencilBuffer {
    /// Creates a new StencilBuffer with a 0 background
    pub fn new(width: u32, height: u32) -> (r: StencilBuffer)
        requires
            width * height <= u32::MAX,
        ensures
            r.wf(),
            r.spec_width() == width,
            r.spec_height() == height,
            r.cells() == Seq::new((width * height) as nat, |k: int| 0u8),
    {
        let len: usize = (width as usize) * (height as usize);
        let mut pixels: Vec<u8> = Vec::new();
        let mut i: usize = 0;
        while i < len
            invariant
                i <= len,
                pixels@.len() == i,
                forall|j: int| 0 <= j < i ==> pixels@[j] == 0u8,
            decreases len - i,
        {
            pixels.push(0);
            i = i + 1;
        }
        let r = StencilBuffer { pixels, width, height };
        proof {
            assert(r.cells() =~= Seq::new((width * height) as nat, |k: int| 0u8));
        }
        r
    }
}

impl GraphicBuffer<u8> for StencilBuffer {
    closed spec fn wf(&self) -> bool {
        &&& self.pixels@.len() == self.width * self.height
        &&& self.width * self.height <= u32::MAX
    }

    closed spec fn spec_width(&self) -> int {
        self.width as int
    }

    closed spec fn spec_height(&self) -> int {
        self.height as int
    }

    closed spec fn cells(&self) -> Seq<u8> {
        self.pixels@
    }

    /// A stencil write overwrites the cell unconditionally.
    open spec fn spec_put(cur: u8, v: u8) -> u8 {
        v
    }

    proof fn lemma_wf(&self) {
    }

    fn width(&self) -> (r: u32) {
        self.width
    }

    fn height(&self) -> (r: u32) {
        self.height
    }

    fn get_point(&self, x: i64, y: i64) -> (r: Option<u8>) {
        if x < 0 || x >= self.width as i64 {
            None
        } else if y < 0 || y >= self.height as i64 {
            None
        } else {
            proof {
                lemma_cell_index_bounds(
                    self.spec_width(),
                    self.spec_height(),
                    x as int,
                    y as int,
                );
            }
            let offset = ((y * (self.width as i64)) + x) as usize;
            Some(self.pixels[offset])
        }
    }

    fn put_point(&mut self, x: i64, y: i64, color: u8) {
        if x < 0 || x >= self.width as i64 {
            return ;
        } else if y < 0 || y >= self.height as i64 {
            return ;
        }
        proof {
            lemma_cell_index_bounds(self.spec_width(), self.spec_height(), x as int, y as int);
        }
        let offset = ((y * (self.width as i64)) + x) as usize;
        self.pixels.set(offset, color);
    }
}

} // verus!
