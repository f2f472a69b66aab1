use vstd::math::abs;
use vstd::prelude::*;

use crate::buffer::cell_in_bounds;
use crate::buffer::cell_index;
use crate::buffer::written;
use crate::buffer::GraphicBuffer;
use crate::raster::line_points;
use crate::raster::painted;
use crate::raster::sign;
use crate::raster::vspan_points;
use crate::raster::hspan_points;
use crate::raster::walk_points;
use crate::raster::lemma_painted_cons;
use crate::raster::circle_points;
use crate::raster::circle_steps;
use crate::raster::fill_circle_points;
use crate::raster::sq;
use crate::raster::lemma_circle_points_cons;
use crate::raster::lemma_painted_four;
use crate::raster::lemma_painted_concat;
use crate::raster::lemma_sq_succ;
use crate::raster::lemma_circle_error_bounds;
use crate::raster::lemma_circle_rely_capped;

verus! {

/// Whether `(i, j)` lies inside the rectangle with top-left corner `(x, y)`,
/// width `rw` and height `rh`.
pub open spec fn in_rect(x: int, y: int, rw: int, rh: int, i: int, j: int) -> bool {
    x <= i < x + rw && y <= j < y + rh
}

/// Whether `(i, j)` lies on the border of the rectangle with top-left corner
/// `(x, y)`, width `rw` and height `rh`: its top and bottom rows, and the
/// left and right columns of the rows between them.
pub open spec fn on_rect_border(x: int, y: int, rw: int, rh: int, i: int, j: int) -> bool {
    in_rect(x, y, rw, rh, i, j) && (j == y || j == y + rh - 1 || i == x || i == x + rw - 1)
}

/// Performs drawing operations on an underlying graphical buffer.
pub struct Canvas<Element: Copy, Buffer: GraphicBuffer<Element>> {
    buffer: Buffer,
    fill: Element,
    stroke: Element,
}

impl<Element: Copy, Buffer: GraphicBuffer<Element>> Canvas<Element, Buffer> {
    /// The wrapped buffer.
    pub closed spec fn spec_buffer(&self) -> Buffer {
        self.buffer
    }

    /// The current fill value.
    pub closed spec fn spec_fill(&self) -> Element {
        self.fill
    }

    /// The current stroke value.
    pub closed spec fn spec_stroke(&self) -> Element {
        self.stroke
    }

    /// The canvas invariant: its buffer is well formed.
    pub open spec fn wf(&self) -> bool {
        self.spec_buffer().wf()
    }

    /// The width of the underlying buffer.
    pub open spec fn spec_width(&self) -> int {
        self.spec_buffer().spec_width()
    }

    /// The height of the underlying buffer.
    pub open spec fn spec_height(&self) -> int {
        self.spec_buffer().spec_height()
    }

    /// The cells of the underlying buffer, row-major.
    pub open spec fn cells(&self) -> Seq<Element> {
        self.spec_buffer().cells()
    }

    /// Initializes a canvas on top of the given buffer with the given fill and
    /// stroke values
    pub fn new(buffer: Buffer, fill: Element, stroke: Element) -> (r: Canvas<Element, Buffer>)
        requires
            buffer.wf(),
        ensures
            r.wf(),
            r.spec_buffer() == buffer,
            r.spec_fill() == fill,
            r.spec_stroke() == stroke,
    {
        Canvas { buffer, fill, stroke }
    }

    /// Gets the underlying buffer for the canvas
    pub fn buffer(&mut self) -> (r: &mut Buffer)
        ensures
            *r == old(self).spec_buffer(),
            final(self).spec_buffer() == *final(r),
            final(self).spec_fill() == old(self).spec_fill(),
            final(self).spec_stroke() == old(self).spec_stroke(),
    {
        &mut self.buffer
    }

    /// Gets the width of the underlying buffer
    pub fn width(&self) -> (r: u32)
        requires
            self.wf(),
        ensures
            r == self.spec_width(),
    {
        self.buffer.width()
    }

    /// Gets the height of the underlying buffer
    pub fn height(&self) -> (r: u32)
        requires
            self.wf(),
        ensures
            r == self.spec_height(),
    {
        self.buffer.height()
    }

    /// Gets the given point from the underlying buffer
    pub fn get_point(&self, x: i64, y: i64) -> (r: Option<Element>)
        requires
            self.wf(),
        ensures
            cell_in_bounds(self.spec_width(), self.spec_height(), x as int, y as int) ==> r
                == Some(self.cells()[cell_index(self.spec_width(), x as int, y as int)]),
            !cell_in_bounds(self.spec_width(), self.spec_height(), x as int, y as int) ==> r
                is None,
    {
        self.buffer.get_point(x, y)
    }

    /// Puts the given value at the given point of the underlying buffer
    pub fn put_point(&mut self, x: i64, y: i64, color: Element)
        requires
            old(self).wf(),
        ensures
            final(self).wf(),
            final(self).spec_width() == old(self).spec_width(),
            final(self).spec_height() == old(self).spec_height(),
            final(self).spec_fill() == old(self).spec_fill(),
            final(self).spec_stroke() == old(self).spec_stroke(),
            cell_in_bounds(old(self).spec_width(), old(self).spec_height(), x as int, y as int)
                ==> final(self).cells() == old(self).cells().update(
                cell_index(old(self).spec_width(), x as int, y as int),
                Buffer::spec_put(
                    old(self).cells()[cell_index(old(self).spec_width(), x as int, y as int)],
                    color,
                ),
            ),
            !cell_in_bounds(old(self).spec_width(), old(self).spec_height(), x as int, y as int)
                ==> final(self).cells() == old(self).cells(),
    {
        self.buffer.put_point(x, y, color)
    }

    /// Whether `after` is a value the masked cell may hold: some possible
    /// result `v` of the mask function on the two corresponding cells was
    /// written over `before` by this buffer's write semantics.
    pub open spec fn mask_cell_ok<MaskElement, F: Fn(Element, MaskElement) -> Element>(
        func: F,
        before: Element,
        m: MaskElement,
        after: Element,
    ) -> bool {
        exists|v: Element|
            call_ensures(func, (before, m), v) && after == Buffer::spec_put(before, v)
    }

    /// Applies a mask function from the other buffer onto this canvas's
    /// buffer: when the two buffers have the same dimensions, every cell
    /// takes one write of the mask function applied to the two corresponding
    /// cells; when the dimensions differ, the call leaves this canvas's
    /// buffer unchanged.
    pub fn mask<MaskElement: Copy, MaskBuffer: GraphicBuffer<MaskElement>, F: Fn(
        Element,
        MaskElement,
    ) -> Element>(&mut self, other: &Canvas<MaskElement, MaskBuffer>, func: F)
        requires
            old(self).wf(),
            other.wf(),
            forall|i: int, j: int|
                cell_in_bounds(old(self).spec_width(), old(self).spec_height(), i, j) && old(
                    self,
                ).spec_width() == other.spec_width() && old(self).spec_height()
                    == other.spec_height() ==> call_requires(
                    func,
                    (
                        old(self).cells()[#[trigger] cell_index(old(self).spec_width(), i, j)],
                        other.cells()[cell_index(other.spec_width(), i, j)],
                    ),
                ),
        ensures
            final(self).wf(),
            final(self).spec_width() == old(self).spec_width(),
            final(self).spec_height() == old(self).spec_height(),
            final(self).spec_fill() == old(self).spec_fill(),
            final(self).spec_stroke() == old(self).spec_stroke(),
            final(self).cells().len() == old(self).cells().len(),
            old(self).spec_width() != other.spec_width() || old(self).spec_height()
                != other.spec_height() ==> final(self).cells() == old(self).cells(),
            old(self).spec_width() == other.spec_width() && old(self).spec_height()
                == other.spec_height() ==> forall|i: int, j: int|
                cell_in_bounds(old(self).spec_width(), old(self).spec_height(), i, j)
                    ==> Self::mask_cell_ok(
                    func,
                    old(self).cells()[#[trigger] cell_index(old(self).spec_width(), i, j)],
                    other.cells()[cell_index(old(self).spec_width(), i, j)],
                    final(self).cells()[cell_index(old(self).spec_width(), i, j)],
                ),
    {
        let ghost w = old(self).spec_width();
        let ghost h = old(self).spec_height();
        if self.buffer.width() != other.width() {
            return ;
        }
        if self.buffer.height() != other.height() {
            return ;
        }
        proof {
            self.buffer.lemma_wf();
        }
        let width = self.buffer.width();
        let height = self.buffer.height();
        let mut py: u32 = 0;
        while py < height
            invariant
                self.wf(),
                other.wf(),
                self.spec_width() == w,
                self.spec_height() == h,
                other.spec_width() == w,
                other.spec_height() == h,
                width == w,
                height == h,
                self.spec_fill() == old(self).spec_fill(),
                self.spec_stroke() == old(self).spec_stroke(),
                self.cells().len() == old(self).cells().len(),
                self.cells().len() == w * h,
                py <= height,
                forall|i: int, j: int|
                    cell_in_bounds(w, h, i, j) ==> call_requires(
                        func,
                        (
                            old(self).cells()[#[trigger] cell_index(w, i, j)],
                            other.cells()[cell_index(w, i, j)],
                        ),
                    ),
                forall|i: int, j: int|
                    cell_in_bounds(w, h, i, j) && j < py ==> Self::mask_cell_ok(
                        func,
                        old(self).cells()[#[trigger] cell_index(w, i, j)],
                        other.cells()[cell_index(w, i, j)],
                        self.cells()[cell_index(w, i, j)],
                    ),
                forall|i: int, j: int|
                    cell_in_bounds(w, h, i, j) && j >= py ==> self.cells()[#[trigger] cell_index(
                        w,
                        i,
                        j,
                    )] == old(self).cells()[cell_index(w, i, j)],
            decreases height - py,
        {
            let mut px: u32 = 0;
            while px < width
                invariant
                    self.wf(),
                    other.wf(),
                    self.spec_width() == w,
                    self.spec_height() == h,
                    other.spec_width() == w,
                    other.spec_height() == h,
                    width == w,
                    height == h,
                    self.spec_fill() == old(self).spec_fill(),
                    self.spec_stroke() == old(self).spec_stroke(),
                    self.cells().len() == old(self).cells().len(),
                    self.cells().len() == w * h,
                    py < height,
                    px <= width,
                    forall|i: int, j: int|
                        cell_in_bounds(w, h, i, j) ==> call_requires(
                            func,
                            (
                                old(self).cells()[#[trigger] cell_index(w, i, j)],
                                other.cells()[cell_index(w, i, j)],
                            ),
                        ),
                    forall|i: int, j: int|
                        cell_in_bounds(w, h, i, j) && (j < py || (j == py && i < px))
                            ==> Self::mask_cell_ok(
                            func,
                            old(self).cells()[#[trigger] cell_index(w, i, j)],
                            other.cells()[cell_index(w, i, j)],
                            self.cells()[cell_index(w, i, j)],
                        ),
                    forall|i: int, j: int|
                        cell_in_bounds(w, h, i, j) && !(j < py || (j == py && i < px))
                            ==> self.cells()[#[trigger] cell_index(w, i, j)] == old(
                            self,
                        ).cells()[cell_index(w, i, j)],
                decreases width - px,
            {
                let got = self.buffer.get_point(px as i64, py as i64);
                let mask_value = other.get_point(px as i64, py as i64);
                proof {
                    crate::buffer::lemma_write_index_facts(w, h, px as int, py as int);
                }
                if let (Some(src), Some(m)) = (got, mask_value) {
                    let ghost k0 = cell_index(w, px as int, py as int);
                    let dest = func(src, m);
                    self.buffer.put_point(px as i64, py as i64, dest);
                    proof {
                        assert(call_ensures(
                            func,
                            (old(self).cells()[k0], other.cells()[k0]),
                            dest,
                        ) && self.cells()[k0] == Buffer::spec_put(old(self).cells()[k0], dest));
                        assert(Self::mask_cell_ok(
                            func,
                            old(self).cells()[k0],
                            other.cells()[k0],
                            self.cells()[k0],
                        ));
                    }
                }
                px = px + 1;
            }
            py = py + 1;
        }
    }

    /// Sets the current fill value
    pub fn set_fill(&mut self, fill: Element)
        ensures
            final(self).spec_buffer() == old(self).spec_buffer(),
            final(self).spec_fill() == fill,
            final(self).spec_stroke() == old(self).spec_stroke(),
    {
        self.fill = fill;
    }

    /// Sets the current stroke value
    pub fn set_stroke(&mut self, stroke: Element)
        ensures
            final(self).spec_buffer() == old(self).spec_buffer(),
            final(self).spec_fill() == old(self).spec_fill(),
            final(self).spec_stroke() == stroke,
    {
        self.stroke = stroke;
    }

    /// Draws a single pixel at the given point using the current fill
    pub fn fill_point(&mut self, x: i64, y: i64)
        requires
            old(self).wf(),
        ensures
            final(self).wf(),
            final(self).spec_width() == old(self).spec_width(),
            final(self).spec_height() == old(self).spec_height(),
            final(self).spec_fill() == old(self).spec_fill(),
            final(self).spec_stroke() == old(self).spec_stroke(),
            cell_in_bounds(old(self).spec_width(), old(self).spec_height(), x as int, y as int)
                ==> final(self).cells() == old(self).cells().update(
                cell_index(old(self).spec_width(), x as int, y as int),
                Buffer::spec_put(
                    old(self).cells()[cell_index(old(self).spec_width(), x as int, y as int)],
                    old(self).spec_fill(),
                ),
            ),
            !cell_in_bounds(old(self).spec_width(), old(self).spec_height(), x as int, y as int)
                ==> final(self).cells() == old(self).cells(),
    {
        self.buffer.put_point(x, y, self.fill);
    }

    /// Draws a single pixel at the given point using the current stroke
    pub fn stroke_point(&mut self, x: i64, y: i64)
        requires
            old(self).wf(),
        ensures
            final(self).wf(),
            final(self).spec_width() == old(self).spec_width(),
            final(self).spec_height() == old(self).spec_height(),
            final(self).spec_fill() == old(self).spec_fill(),
            final(self).spec_stroke() == old(self).spec_stroke(),
            cell_in_bounds(old(self).spec_width(), old(self).spec_height(), x as int, y as int)
                ==> final(self).cells() == old(self).cells().update(
                cell_index(old(self).spec_width(), x as int, y as int),
                Buffer::spec_put(
                    old(self).cells()[cell_index(old(self).spec_width(), x as int, y as int)],
                    old(self).spec_stroke(),
                ),
            ),
            !cell_in_bounds(old(self).spec_width(), old(self).spec_height(), x as int, y as int)
                ==> final(self).cells() == old(self).cells(),
    {
        self.buffer.put_point(x, y, self.stroke);
    }

    /// Fills the given region of the buffer with the current fill value:
    /// every in-bounds cell of the rectangle takes one write of the fill
    /// value, and every other cell is untouched.
    pub fn fill_rect(&mut self, x: i64, y: i64, width: i64, height: i64)
        requires
            old(self).wf(),
            i64::MIN <= x + width <= i64::MAX,
            i64::MIN <= y + height <= i64::MAX,
        ensures
            final(self).wf(),
            final(self).spec_width() == old(self).spec_width(),
            final(self).spec_height() == old(self).spec_height(),
            final(self).spec_fill() == old(self).spec_fill(),
            final(self).spec_stroke() == old(self).spec_stroke(),
            final(self).cells().len() == old(self).cells().len(),
            forall|i: int, j: int|
                cell_in_bounds(old(self).spec_width(), old(self).spec_height(), i, j)
                    && in_rect(x as int, y as int, width as int, height as int, i, j)
                    ==> final(self).cells()[#[trigger] cell_index(old(self).spec_width(), i, j)]
                    == Buffer::spec_put(
                    old(self).cells()[cell_index(old(self).spec_width(), i, j)],
                    old(self).spec_fill(),
                ),
            forall|i: int, j: int|
                cell_in_bounds(old(self).spec_width(), old(self).spec_height(), i, j)
                    && !in_rect(x as int, y as int, width as int, height as int, i, j)
                    ==> final(self).cells()[#[trigger] cell_index(old(self).spec_width(), i, j)]
                    == old(self).cells()[cell_index(old(self).spec_width(), i, j)],
    {
        let ghost w = old(self).spec_width();
        let ghost h = old(self).spec_height();
        proof {
            self.buffer.lemma_wf();
        }
        let mut py: i64 = y;
        while py < y + height
            invariant
                self.wf(),
                self.spec_width() == w,
                self.spec_height() == h,
                self.spec_fill() == old(self).spec_fill(),
                self.spec_stroke() == old(self).spec_stroke(),
                self.cells().len() == old(self).cells().len(),
                self.cells().len() == w * h,
                i64::MIN <= x + width <= i64::MAX,
                i64::MIN <= y + height <= i64::MAX,
                y <= py,
                height >= 0 ==> py <= y + height,
                forall|i: int, j: int|
                    cell_in_bounds(w, h, i, j) && in_rect(
                        x as int,
                        y as int,
                        width as int,
                        height as int,
                        i,
                        j,
                    ) && j < py ==> self.cells()[#[trigger] cell_index(w, i, j)]
                        == Buffer::spec_put(
                        old(self).cells()[cell_index(w, i, j)],
                        old(self).spec_fill(),
                    ),
                forall|i: int, j: int|
                    cell_in_bounds(w, h, i, j) && !(in_rect(
                        x as int,
                        y as int,
                        width as int,
                        height as int,
                        i,
                        j,
                    ) && j < py) ==> self.cells()[#[trigger] cell_index(w, i, j)]
                        == old(self).cells()[cell_index(w, i, j)],
            decreases y + height - py,
        {
            let mut px: i64 = x;
            while px < x + width
                invariant
                    self.wf(),
                    self.spec_width() == w,
                    self.spec_height() == h,
                    self.spec_fill() == old(self).spec_fill(),
                    self.spec_stroke() == old(self).spec_stroke(),
                    self.cells().len() == old(self).cells().len(),
                    self.cells().len() == w * h,
                    i64::MIN <= x + width <= i64::MAX,
                    i64::MIN <= y + height <= i64::MAX,
                    y <= py < y + height,
                    x <= px,
                    width >= 0 ==> px <= x + width,
                    forall|i: int, j: int|
                        cell_in_bounds(w, h, i, j) && in_rect(
                            x as int,
                            y as int,
                            width as int,
                            height as int,
                            i,
                            j,
                        ) && (j < py || (j == py && i < px)) ==> self.cells()[#[trigger] cell_index(
                            w,
                            i,
                            j,
                        )] == Buffer::spec_put(
                            old(self).cells()[cell_index(w, i, j)],
                            old(self).spec_fill(),
                        ),
                    forall|i: int, j: int|
                        cell_in_bounds(w, h, i, j) && !(in_rect(
                            x as int,
                            y as int,
                            width as int,
                            height as int,
                            i,
                            j,
                        ) && (j < py || (j == py && i < px))) ==> self.cells()[
                            #[trigger] cell_index(w, i, j)] == old(self).cells()[cell_index(
                            w,
                            i,
                            j,
                        )],
                decreases x + width - px,
            {
                self.fill_point(px, py);
                proof {
                    crate::buffer::lemma_write_index_facts(w, h, px as int, py as int);
                }
                px = px + 1;
            }
            py = py + 1;
        }
    }

    /// Fills the entire buffer using the currently assigned fill value:
    /// every cell takes one write of the fill value.
    pub fn fill(&mut self)
        requires
            old(self).wf(),
        ensures
            final(self).wf(),
            final(self).spec_width() == old(self).spec_width(),
            final(self).spec_height() == old(self).spec_height(),
            final(self).spec_fill() == old(self).spec_fill(),
            final(self).spec_stroke() == old(self).spec_stroke(),
            final(self).cells().len() == old(self).cells().len(),
            forall|i: int, j: int|
                cell_in_bounds(old(self).spec_width(), old(self).spec_height(), i, j)
                    ==> final(self).cells()[#[trigger] cell_index(old(self).spec_width(), i, j)]
                    == Buffer::spec_put(
                    old(self).cells()[cell_index(old(self).spec_width(), i, j)],
                    old(self).spec_fill(),
                ),
    {
        let width = self.buffer.width();
        let height = self.buffer.height();
        self.fill_rect(0, 0, width as i64, height as i64);
    }

    /// Draws a border around the given region of the buffer with the current
    /// stroke value: every in-bounds border cell of the rectangle takes one
    /// write of the stroke value, and every other cell is untouched.
    pub fn stroke_rect(&mut self, x: i64, y: i64, width: i64, height: i64)
        requires
            old(self).wf(),
            i64::MIN <= x + width <= i64::MAX,
            i64::MIN <= y + height <= i64::MAX,
        ensures
            final(self).wf(),
            final(self).spec_width() == old(self).spec_width(),
            final(self).spec_height() == old(self).spec_height(),
            final(self).spec_fill() == old(self).spec_fill(),
            final(self).spec_stroke() == old(self).spec_stroke(),
            final(self).cells().len() == old(self).cells().len(),
            forall|i: int, j: int|
                cell_in_bounds(old(self).spec_width(), old(self).spec_height(), i, j)
                    && on_rect_border(x as int, y as int, width as int, height as int, i, j)
                    ==> final(self).cells()[#[trigger] cell_index(old(self).spec_width(), i, j)]
                    == Buffer::spec_put(
                    old(self).cells()[cell_index(old(self).spec_width(), i, j)],
                    old(self).spec_stroke(),
                ),
            forall|i: int, j: int|
                cell_in_bounds(old(self).spec_width(), old(self).spec_height(), i, j)
                    && !on_rect_border(x as int, y as int, width as int, height as int, i, j)
                    ==> final(self).cells()[#[trigger] cell_index(old(self).spec_width(), i, j)]
                    == old(self).cells()[cell_index(old(self).spec_width(), i, j)],
    {
        let ghost w = old(self).spec_width();
        let ghost h = old(self).spec_height();
        proof {
            self.buffer.lemma_wf();
        }
        let mut py: i64 = y;
        while py < y + height
            invariant
                self.wf(),
                self.spec_width() == w,
                self.spec_height() == h,
                self.spec_fill() == old(self).spec_fill(),
                self.spec_stroke() == old(self).spec_stroke(),
                self.cells().len() == old(self).cells().len(),
                self.cells().len() == w * h,
                i64::MIN <= x + width <= i64::MAX,
                i64::MIN <= y + height <= i64::MAX,
                y <= py,
                height >= 0 ==> py <= y + height,
                forall|i: int, j: int|
                    cell_in_bounds(w, h, i, j) && on_rect_border(
                        x as int,
                        y as int,
                        width as int,
                        height as int,
                        i,
                        j,
                    ) && j < py ==> self.cells()[#[trigger] cell_index(w, i, j)]
                        == Buffer::spec_put(
                        old(self).cells()[cell_index(w, i, j)],
                        old(self).spec_stroke(),
                    ),
                forall|i: int, j: int|
                    cell_in_bounds(w, h, i, j) && !(on_rect_border(
                        x as int,
                        y as int,
                        width as int,
                        height as int,
                        i,
                        j,
                    ) && j < py) ==> self.cells()[#[trigger] cell_index(w, i, j)]
                        == old(self).cells()[cell_index(w, i, j)],
            decreases y + height - py,
        {
            if py == y || py == y + height - 1 {
                let mut px: i64 = x;
                while px < x + width
                    invariant
                        self.wf(),
                        self.spec_width() == w,
                        self.spec_height() == h,
                        self.spec_fill() == old(self).spec_fill(),
                        self.spec_stroke() == old(self).spec_stroke(),
                        self.cells().len() == old(self).cells().len(),
                        self.cells().len() == w * h,
                        i64::MIN <= x + width <= i64::MAX,
                        i64::MIN <= y + height <= i64::MAX,
                        y <= py < y + height,
                        py == y || py == y + height - 1,
                        x <= px,
                        width >= 0 ==> px <= x + width,
                        forall|i: int, j: int|
                            cell_in_bounds(w, h, i, j) && on_rect_border(
                                x as int,
                                y as int,
                                width as int,
                                height as int,
                                i,
                                j,
                            ) && (j < py || (j == py && i < px)) ==> self.cells()[
                                #[trigger] cell_index(w, i, j)] == Buffer::spec_put(
                                old(self).cells()[cell_index(w, i, j)],
                                old(self).spec_stroke(),
                            ),
                        forall|i: int, j: int|
                            cell_in_bounds(w, h, i, j) && !(on_rect_border(
                                x as int,
                                y as int,
                                width as int,
                                height as int,
                                i,
                                j,
                            ) && (j < py || (j == py && i < px))) ==> self.cells()[
                                #[trigger] cell_index(w, i, j)] == old(self).cells()[cell_index(
                                w,
                                i,
                                j,
                            )],
                    decreases x + width - px,
                {
                    self.stroke_point(px, py);
                    proof {
                        crate::buffer::lemma_write_index_facts(w, h, px as int, py as int);
                    }
                    px = px + 1;
                }
            } else if width > 0 {
                self.stroke_point(x, py);
                proof {
                    crate::buffer::lemma_write_index_facts(w, h, x as int, py as int);
                }
                if width > 1 {
                    self.stroke_point(x + width - 1, py);
                    proof {
                        crate::buffer::lemma_write_index_facts(
                            w,
                            h,
                            x + width - 1,
                            py as int,
                        );
                    }
                }
            }
            py = py + 1;
        }
    }

    /// Draws a straight line between the two points, writing `value` at each
    /// plotted point, in plot order.
    fn draw_line(&mut self, x: i64, y: i64, x2: i64, y2: i64, value: Element)
        requires
            old(self).wf(),
            x != x2 && y != y2 ==> -0x1000_0000_0000_0000 <= x2 - x <= 0x1000_0000_0000_0000
                && -0x1000_0000_0000_0000 <= y2 - y <= 0x1000_0000_0000_0000,
        ensures
            final(self).wf(),
            final(self).spec_width() == old(self).spec_width(),
            final(self).spec_height() == old(self).spec_height(),
            final(self).spec_fill() == old(self).spec_fill(),
            final(self).spec_stroke() == old(self).spec_stroke(),
            final(self).cells().len() == old(self).cells().len(),
            final(self).cells() == painted::<Element, Buffer>(
                old(self).cells(),
                old(self).spec_width(),
                old(self).spec_height(),
                line_points(x as int, y as int, x2 as int, y2 as int),
                value,
            ),
    {
        let ghost w = old(self).spec_width();
        let ghost h = old(self).spec_height();
        let ghost target = painted::<Element, Buffer>(
            old(self).cells(),
            w,
            h,
            line_points(x as int, y as int, x2 as int, y2 as int),
            value,
        );
        proof {
            self.buffer.lemma_wf();
        }
        if x == x2 {
            let mut py: i64 = y;
            while py < y2
                invariant
                    self.wf(),
                    self.spec_width() == w,
                    self.spec_height() == h,
                    self.spec_fill() == old(self).spec_fill(),
                    self.spec_stroke() == old(self).spec_stroke(),
                    self.cells().len() == w * h,
                    y <= py,
                    y < y2 ==> py <= y2,
                    painted::<Element, Buffer>(
                        self.cells(),
                        w,
                        h,
                        vspan_points(x as int, py as int, y2 as int),
                        value,
                    ) == target,
                decreases y2 - py,
            {
                let ghost before = self.cells();
                self.put_point(x, py, value);
                proof {
                    crate::buffer::lemma_write_index_facts(w, h, x as int, py as int);
                    assert(self.cells() == written::<Element, Buffer>(
                        before,
                        w,
                        h,
                        x as int,
                        py as int,
                        value,
                    ));
                    lemma_painted_cons::<Element, Buffer>(
                        before,
                        w,
                        h,
                        (x as int, py as int),
                        vspan_points(x as int, py + 1, y2 as int),
                        value,
                    );
                }
                py = py + 1;
            }
            return ;
        } else if y == y2 {
            let mut px: i64 = x;
            while px < x2
                invariant
                    self.wf(),
                    self.spec_width() == w,
                    self.spec_height() == h,
                    self.spec_fill() == old(self).spec_fill(),
                    self.spec_stroke() == old(self).spec_stroke(),
                    self.cells().len() == w * h,
                    x <= px,
                    x < x2 ==> px <= x2,
                    x != x2,
                    painted::<Element, Buffer>(
                        self.cells(),
                        w,
                        h,
                        hspan_points(px as int, x2 as int, y as int),
                        value,
                    ) == target,
                decreases x2 - px,
            {
                let ghost before = self.cells();
                self.put_point(px, y, value);
                proof {
                    crate::buffer::lemma_write_index_facts(w, h, px as int, y as int);
                    assert(self.cells() == written::<Element, Buffer>(
                        before,
                        w,
                        h,
                        px as int,
                        y as int,
                        value,
                    ));
                    lemma_painted_cons::<Element, Buffer>(
                        before,
                        w,
                        h,
                        (px as int, y as int),
                        hspan_points(px + 1, x2 as int, y as int),
                        value,
                    );
                }
                px = px + 1;
            }
            return ;
        }
        let deltax: i64 = if x2 > x {
            x2 - x
        } else {
            x - x2
        };
        let stepx: i64 = if x2 > x {
            1
        } else {
            -1
        };
        let deltay: i64 = if y2 > y {
            -(y2 - y)
        } else {
            -(y - y2)
        };
        let stepy: i64 = if y2 > y {
            1
        } else {
            -1
        };
        let mut error: i64 = deltax + deltay;
        let mut px: i64 = x;
        let mut py: i64 = y;
        loop
            invariant_except_break
                self.wf(),
                self.spec_width() == w,
                self.spec_height() == h,
                self.spec_fill() == old(self).spec_fill(),
                self.spec_stroke() == old(self).spec_stroke(),
                self.cells().len() == w * h,
                x != x2,
                y != y2,
                deltax == abs(x2 - x),
                deltay == -abs(y2 - y),
                0 < deltax <= 0x1000_0000_0000_0000,
                -0x1000_0000_0000_0000 <= deltay < 0,
                x <= px <= x2 || x2 <= px <= x,
                y <= py <= y2 || y2 <= py <= y,
                px != x2 ==> sign(x2 - px) == stepx,
                py != y2 ==> sign(y2 - py) == stepy,
                stepx == sign(x2 - x),
                stepy == sign(y2 - y),
                2 * deltay <= error <= 2 * deltax,
                painted::<Element, Buffer>(
                    self.cells(),
                    w,
                    h,
                    walk_points(
                        px as int,
                        py as int,
                        x2 as int,
                        y2 as int,
                        deltax as int,
                        deltay as int,
                        error as int,
                    ),
                    value,
                ) == target,
            ensures
                self.wf(),
                self.spec_width() == w,
                self.spec_height() == h,
                self.spec_fill() == old(self).spec_fill(),
                self.spec_stroke() == old(self).spec_stroke(),
                self.cells().len() == w * h,
                self.cells() == target,
            decreases abs(x2 - px) + abs(y2 - py),
        {
            let ghost px0 = px as int;
            let ghost py0 = py as int;
            let ghost err0 = error as int;
            let ghost trace = walk_points(
                px0,
                py0,
                x2 as int,
                y2 as int,
                deltax as int,
                deltay as int,
                err0,
            );
            let ghost before = self.cells();
            self.put_point(px, py, value);
            proof {
                crate::buffer::lemma_write_index_facts(w, h, px0, py0);
                assert(self.cells() == written::<Element, Buffer>(before, w, h, px0, py0, value));
            }
            let next_error = 2 * error;
            if next_error >= deltay {
                if px == x2 {
                    proof {
                        assert(trace == seq![(px0, py0)]);
                        lemma_painted_cons::<Element, Buffer>(
                            before,
                            w,
                            h,
                            (px0, py0),
                            Seq::empty(),
                            value,
                        );
                        assert(seq![(px0, py0)] + Seq::<(int, int)>::empty() =~= trace);
                    }
                    break ;
                }
                error = error + deltay;
                px = px + stepx;
            }
            if next_error <= deltax {
                if py == y2 {
                    proof {
                        assert(trace == seq![(px0, py0)]);
                        lemma_painted_cons::<Element, Buffer>(
                            before,
                            w,
                            h,
                            (px0, py0),
                            Seq::empty(),
                            value,
                        );
                        assert(seq![(px0, py0)] + Seq::<(int, int)>::empty() =~= trace);
                    }
                    break ;
                }
                error = error + deltax;
                py = py + stepy;
            }
            proof {
                let rest = walk_points(
                    px as int,
                    py as int,
                    x2 as int,
                    y2 as int,
                    deltax as int,
                    deltay as int,
                    error as int,
                );
                assert(trace == seq![(px0, py0)] + rest);
                lemma_painted_cons::<Element, Buffer>(before, w, h, (px0, py0), rest, value);
            }
        }
    }

    /// Draws a straight line between the two points using the current stroke
    /// value
    pub fn stroke_line(&mut self, x: i64, y: i64, x2: i64, y2: i64)
        requires
            old(self).wf(),
            x != x2 && y != y2 ==> -0x1000_0000_0000_0000 <= x2 - x <= 0x1000_0000_0000_0000
                && -0x1000_0000_0000_0000 <= y2 - y <= 0x1000_0000_0000_0000,
        ensures
            final(self).wf(),
            final(self).spec_width() == old(self).spec_width(),
            final(self).spec_height() == old(self).spec_height(),
            final(self).spec_fill() == old(self).spec_fill(),
            final(self).spec_stroke() == old(self).spec_stroke(),
            final(self).cells().len() == old(self).cells().len(),
            final(self).cells() == painted::<Element, Buffer>(
                old(self).cells(),
                old(self).spec_width(),
                old(self).spec_height(),
                line_points(x as int, y as int, x2 as int, y2 as int),
                old(self).spec_stroke(),
            ),
    {
        let value = self.stroke;
        self.draw_line(x, y, x2, y2, value);
    }

    /// Draws a straight line between the two points using the current fill
    /// value
    pub fn fill_line(&mut self, x: i64, y: i64, x2: i64, y2: i64)
        requires
            old(self).wf(),
            x != x2 && y != y2 ==> -0x1000_0000_0000_0000 <= x2 - x <= 0x1000_0000_0000_0000
                && -0x1000_0000_0000_0000 <= y2 - y <= 0x1000_0000_0000_0000,
        ensures
            final(self).wf(),
            final(self).spec_width() == old(self).spec_width(),
            final(self).spec_height() == old(self).spec_height(),
            final(self).spec_fill() == old(self).spec_fill(),
            final(self).spec_stroke() == old(self).spec_stroke(),
            final(self).cells().len() == old(self).cells().len(),
            final(self).cells() == painted::<Element, Buffer>(
                old(self).cells(),
                old(self).spec_width(),
                old(self).spec_height(),
                line_points(x as int, y as int, x2 as int, y2 as int),
                old(self).spec_fill(),
            ),
    {
        let value = self.fill;
        self.draw_line(x, y, x2, y2, value);
    }

    /// Draws a circle's perimeter around the given point using the current
    /// stroke value, mirroring each midpoint-walk offset into all four
    /// quadrants.
    pub fn stroke_circle(&mut self, x: i64, y: i64, r: i64)
        requires
            old(self).wf(),
            -0x2000_0000 <= r <= 0x2000_0000,
            -0x4000_0000_0000_0000 <= x <= 0x4000_0000_0000_0000,
            -0x4000_0000_0000_0000 <= y <= 0x4000_0000_0000_0000,
        ensures
            final(self).wf(),
            final(self).spec_width() == old(self).spec_width(),
            final(self).spec_height() == old(self).spec_height(),
            final(self).spec_fill() == old(self).spec_fill(),
            final(self).spec_stroke() == old(self).spec_stroke(),
            final(self).cells().len() == old(self).cells().len(),
            final(self).cells() == painted::<Element, Buffer>(
                old(self).cells(),
                old(self).spec_width(),
                old(self).spec_height(),
                circle_points(x as int, y as int, circle_steps(-r as int, 0, -2 * r + 2)),
                old(self).spec_stroke(),
            ),
    {
        let ghost w = old(self).spec_width();
        let ghost h = old(self).spec_height();
        let ghost target = painted::<Element, Buffer>(
            old(self).cells(),
            w,
            h,
            circle_points(x as int, y as int, circle_steps(-r as int, 0, -2 * r + 2)),
            old(self).spec_stroke(),
        );
        proof {
            self.buffer.lemma_wf();
        }
        let mut error: i64 = -2 * r + 2;
        let mut relx: i64 = -r;
        let mut rely: i64 = 0;
        proof {
            assert(sq(1 - r) + sq(1) - sq(r as int) == -2 * r + 2) by (nonlinear_arith);
        }
        while relx <= 0
            invariant
                self.wf(),
                self.spec_width() == w,
                self.spec_height() == h,
                self.spec_fill() == old(self).spec_fill(),
                self.spec_stroke() == old(self).spec_stroke(),
                self.cells().len() == w * h,
                -0x2000_0000 <= r <= 0x2000_0000,
                -0x4000_0000_0000_0000 <= x <= 0x4000_0000_0000_0000,
                -0x4000_0000_0000_0000 <= y <= 0x4000_0000_0000_0000,
                r >= 0 ==> -r <= relx <= 1,
                r < 0 ==> relx == -r,
                0 <= rely,
                r >= 0 ==> rely <= r + 1,
                error == sq(relx + 1) + sq(rely + 1) - sq(r as int),
                painted::<Element, Buffer>(
                    self.cells(),
                    w,
                    h,
                    circle_points(
                        x as int,
                        y as int,
                        circle_steps(relx as int, rely as int, error as int),
                    ),
                    old(self).spec_stroke(),
                ) == target,
            decreases
                    1 - relx,
                    (if error >= 1 {
                        0int
                    } else {
                        1 - error
                    }),
        {
            let ghost relx0 = relx as int;
            let ghost rely0 = rely as int;
            let ghost err0 = error as int;
            let ghost steps0 = circle_steps(relx0, rely0, err0);
            let ghost c0 = self.cells();
            proof {
                lemma_circle_error_bounds(relx0, rely0, r as int, err0);
            }
            self.stroke_point(x + relx, y + rely);
            let ghost c1 = self.cells();
            self.stroke_point(x - relx, y + rely);
            let ghost c2 = self.cells();
            self.stroke_point(x + relx, y - rely);
            let ghost c3 = self.cells();
            self.stroke_point(x - relx, y - rely);
            proof {
                crate::buffer::lemma_write_index_facts(w, h, x + relx0, y + rely0);
                crate::buffer::lemma_write_index_facts(w, h, x - relx0, y + rely0);
                crate::buffer::lemma_write_index_facts(w, h, x + relx0, y - rely0);
                crate::buffer::lemma_write_index_facts(w, h, x - relx0, y - rely0);
                assert(c1 == written::<Element, Buffer>(
                    c0,
                    w,
                    h,
                    x + relx0,
                    y + rely0,
                    old(self).spec_stroke(),
                ));
                assert(c2 == written::<Element, Buffer>(
                    c1,
                    w,
                    h,
                    x - relx0,
                    y + rely0,
                    old(self).spec_stroke(),
                ));
                assert(c3 == written::<Element, Buffer>(
                    c2,
                    w,
                    h,
                    x + relx0,
                    y - rely0,
                    old(self).spec_stroke(),
                ));
                assert(self.cells() == written::<Element, Buffer>(
                    c3,
                    w,
                    h,
                    x - relx0,
                    y - rely0,
                    old(self).spec_stroke(),
                ));
            }
            let next_error = 2 * error;
            if next_error >= 2 * relx + 1 {
                relx = relx + 1;
                error = error + 2 * relx + 1;
                proof {
                    lemma_sq_succ(relx0 + 1);
                }
            }
            if next_error <= 2 * rely + 1 {
                proof {
                    if rely0 == r + 1 {
                        lemma_circle_rely_capped(relx0, rely0, r as int, err0);
                        assert(false);
                    }
                }
                rely = rely + 1;
                error = error + 2 * rely + 1;
                proof {
                    lemma_sq_succ(rely0 + 1);
                }
            }
            proof {
                let rest = circle_steps(relx as int, rely as int, error as int);
                assert(steps0 == seq![(relx0, rely0)] + rest);
                lemma_circle_points_cons(x as int, y as int, (relx0, rely0), rest);
                let p1 = (x + relx0, y + rely0);
                let p2 = (x - relx0, y + rely0);
                let p3 = (x + relx0, y - rely0);
                let p4 = (x - relx0, y - rely0);
                lemma_painted_four::<Element, Buffer>(
                    c0,
                    w,
                    h,
                    p1,
                    p2,
                    p3,
                    p4,
                    old(self).spec_stroke(),
                );
                lemma_painted_concat::<Element, Buffer>(
                    c0,
                    w,
                    h,
                    seq![p1, p2, p3, p4],
                    circle_points(x as int, y as int, rest),
                    old(self).spec_stroke(),
                );
            }
        }
    }

    /// Fills a circle around the given point using the current fill value:
    /// whenever the midpoint walk moves down a scanline, the two horizontal
    /// spans between the mirrored extents are filled.
    pub fn fill_circle(&mut self, x: i64, y: i64, r: i64)
        requires
            old(self).wf(),
            -0x2000_0000 <= r <= 0x2000_0000,
            -0x4000_0000_0000_0000 <= x <= 0x4000_0000_0000_0000,
            -0x4000_0000_0000_0000 <= y <= 0x4000_0000_0000_0000,
        ensures
            final(self).wf(),
            final(self).spec_width() == old(self).spec_width(),
            final(self).spec_height() == old(self).spec_height(),
            final(self).spec_fill() == old(self).spec_fill(),
            final(self).spec_stroke() == old(self).spec_stroke(),
            final(self).cells().len() == old(self).cells().len(),
            final(self).cells() == painted::<Element, Buffer>(
                old(self).cells(),
                old(self).spec_width(),
                old(self).spec_height(),
                fill_circle_points(x as int, y as int, -r as int, 0, -2 * r + 2),
                old(self).spec_fill(),
            ),
    {
        let ghost w = old(self).spec_width();
        let ghost h = old(self).spec_height();
        let ghost target = painted::<Element, Buffer>(
            old(self).cells(),
            w,
            h,
            fill_circle_points(x as int, y as int, -r as int, 0, -2 * r + 2),
            old(self).spec_fill(),
        );
        proof {
            self.buffer.lemma_wf();
        }
        let mut error: i64 = -2 * r + 2;
        let mut relx: i64 = -r;
        let mut rely: i64 = 0;
        proof {
            assert(sq(1 - r) + sq(1) - sq(r as int) == -2 * r + 2) by (nonlinear_arith);
        }
        while relx <= 0
            invariant
                self.wf(),
                self.spec_width() == w,
                self.spec_height() == h,
                self.spec_fill() == old(self).spec_fill(),
                self.spec_stroke() == old(self).spec_stroke(),
                self.cells().len() == w * h,
                -0x2000_0000 <= r <= 0x2000_0000,
                -0x4000_0000_0000_0000 <= x <= 0x4000_0000_0000_0000,
                -0x4000_0000_0000_0000 <= y <= 0x4000_0000_0000_0000,
                r >= 0 ==> -r <= relx <= 1,
                r < 0 ==> relx == -r,
                0 <= rely,
                r >= 0 ==> rely <= r + 1,
                error == sq(relx + 1) + sq(rely + 1) - sq(r as int),
                painted::<Element, Buffer>(
                    self.cells(),
                    w,
                    h,
                    fill_circle_points(x as int, y as int, relx as int, rely as int, error as int),
                    old(self).spec_fill(),
                ) == target,
            decreases
                    1 - relx,
                    (if error >= 1 {
                        0int
                    } else {
                        1 - error
                    }),
        {
            let ghost relx0 = relx as int;
            let ghost rely0 = rely as int;
            let ghost err0 = error as int;
            let ghost trace0 = fill_circle_points(x as int, y as int, relx0, rely0, err0);
            let ghost c0 = self.cells();
            proof {
                lemma_circle_error_bounds(relx0, rely0, r as int, err0);
            }
            let next_error = 2 * error;
            if next_error >= 2 * relx + 1 {
                relx = relx + 1;
                error = error + 2 * relx + 1;
                proof {
                    lemma_sq_succ(relx0 + 1);
                }
            }
            if next_error <= 2 * rely + 1 {
                proof {
                    if rely0 == r + 1 {
                        lemma_circle_rely_capped(relx0, rely0, r as int, err0);
                        assert(false);
                    }
                }
                let ghost span_top = line_points(
                    x + relx as int,
                    y + rely0,
                    x - relx as int,
                    y + rely0,
                );
                let ghost span_bottom = line_points(
                    x + relx as int,
                    y - rely0,
                    x - relx as int,
                    y - rely0,
                );
                self.fill_line(x + relx, y + rely, x - relx, y + rely);
                let ghost c1 = self.cells();
                self.fill_line(x + relx, y - rely, x - relx, y - rely);
                proof {
                    let rest = fill_circle_points(
                        x as int,
                        y as int,
                        relx as int,
                        rely0 + 1,
                        error + 2 * (rely0 + 1) + 1,
                    );
                    assert(trace0 == span_top + span_bottom + rest);
                    lemma_painted_concat::<Element, Buffer>(
                        c0,
                        w,
                        h,
                        span_top + span_bottom,
                        rest,
                        old(self).spec_fill(),
                    );
                    lemma_painted_concat::<Element, Buffer>(
                        c0,
                        w,
                        h,
                        span_top,
                        span_bottom,
                        old(self).spec_fill(),
                    );
                }
                rely = rely + 1;
                error = error + 2 * rely + 1;
                proof {
                    lemma_sq_succ(rely0 + 1);
                }
            }
        }
    }
}

} // verus!
