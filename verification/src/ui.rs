use vstd::prelude::*;
use crate::geometry::{Vec2, Bounds};
use crate::canvas::{Canvas, lemma_canvas_domain};
use crate::font::Font;
use crate::paint::{paint, touch, only, nothing, lemma_paint_step, lemma_paint_same, lemma_paint_nothing};

verus! {

/// A drawing surface: a canvas, the font to write with, and the rectangle
/// of the canvas that drawing is confined to. Coordinates given to the
/// drawing methods are relative to the rectangle's top-left corner.
pub struct Ui<'f> {
    pub canvas: Canvas,
    pub font: &'f Font,
    pub bounds: Bounds,
}

impl<'f> Ui<'f> {
    pub open spec fn well_formed(&self) -> bool {
        self.canvas.well_formed()
    }

    /// The pixels of the canvas.
    pub open spec fn pixels(&self) -> Map<(int, int), bool> {
        self.canvas@
    }

    /// The absolute position of the relative point `(x, y)`.
    pub open spec fn origin(&self) -> (int, int) {
        (self.bounds.min.x as int, self.bounds.min.y as int)
    }

    /// Whether a relative point stays within `u32` once made absolute.
    pub open spec fn reachable(&self, x: int, y: int) -> bool {
        self.bounds.min.x + x <= u32::MAX && self.bounds.min.y + y <= u32::MAX
    }

    /// A surface over the whole canvas. Its bounds run from `(0, 0)` to
    /// `(width, height)`, both included, so they hold one column and one row
    /// past the canvas; pixels drawn there are dropped by the canvas (see
    /// `Canvas::set_pixel`).
    pub fn new(canvas: Canvas, font: &'f Font) -> (r: Ui<'f>)
        ensures
            r.canvas == canvas,
            r.font == font,
            r.bounds.min.x == 0 && r.bounds.min.y == 0,
            r.bounds.max.x == canvas.columns() && r.bounds.max.y == canvas.rows(),
    {
        let (width, height) = (canvas.width(), canvas.height());
        Ui {
            canvas,
            font,
            bounds: Bounds { min: Vec2::new(0, 0), max: Vec2::new(width, height) },
        }
    }

    /// Sets the pixel at the relative point `(x, y)` if that point lies
    /// within the bounds and on the canvas; a point within the bounds but
    /// off the canvas (such as column `width` of a surface from `Ui::new`)
    /// is dropped, where an SSD1306 display buffer would put it in column 0
    /// of the next band of eight rows.
    pub fn set_pixel(&mut self, x: u32, y: u32, value: bool)
        requires
            old(self).well_formed(),
            old(self).reachable(x as int, y as int),
        ensures
            final(self).well_formed(),
            final(self).bounds == old(self).bounds,
            final(self).font == old(self).font,
            final(self).canvas.columns() == old(self).canvas.columns(),
            final(self).canvas.rows() == old(self).canvas.rows(),
            final(self).pixels() == touch(
                old(self).pixels(),
                old(self).bounds,
                (old(self).origin().0 + x, old(self).origin().1 + y),
                value,
            ),
    {
        plot(&mut self.canvas, self.bounds, x, y, value);
    }

    /// Moves the top-left corner of the bounds by `px`.
    pub fn space(&mut self, px: Vec2)
        requires
            old(self).bounds.min.x + px.x <= u32::MAX,
            old(self).bounds.min.y + px.y <= u32::MAX,
        ensures
            final(self).bounds.min.x == old(self).bounds.min.x + px.x,
            final(self).bounds.min.y == old(self).bounds.min.y + px.y,
            final(self).bounds.max == old(self).bounds.max,
            final(self).canvas == old(self).canvas,
            final(self).font == old(self).font,
    {
        self.bounds.min.add_assign(px);
    }

    /// Moves the top edge of the bounds down by `px`.
    pub fn space_y(&mut self, px: u32)
        requires
            old(self).bounds.min.y + px <= u32::MAX,
        ensures
            final(self).bounds.min.x == old(self).bounds.min.x,
            final(self).bounds.min.y == old(self).bounds.min.y + px,
            final(self).bounds.max == old(self).bounds.max,
            final(self).canvas == old(self).canvas,
            final(self).font == old(self).font,
    {
        self.bounds.min.y = self.bounds.min.y + px;
    }
}


/// The outline that `Ui::frame` draws for `b`: the edges of `b` without the
/// four corner pixels, plus the pixel diagonally inside each corner.
pub open spec fn outline(b: Bounds) -> spec_fn(int, int) -> Option<bool> {
    |i: int, j: int|
        if on_outline(b, i, j) {
            Some(true)
        } else {
            None
        }
}

pub open spec fn on_outline(b: Bounds, i: int, j: int) -> bool {
    let (x0, y0, x1, y1) = (b.min.x as int, b.min.y as int, b.max.x as int, b.max.y as int);
    ||| (j == y0 || j == y1) && x0 + 1 <= i <= x1 - 1
    ||| (i == x0 || i == x1) && y0 + 1 <= j <= y1 - 1
    ||| (i == x0 + 1 || i == x1 - 1) && (j == y0 + 1 || j == y1 - 1)
}

/// The part of the outline drawn before the horizontal edges reach column
/// `xs`, the vertical edges reach row `ys` and the first `k` of the inner
/// corner pixels are set.
pub open spec fn outline_part(b: Bounds, xs: int, ys: int, k: int) -> spec_fn(int, int) -> Option<bool> {
    let (x0, y0, x1, y1) = (b.min.x as int, b.min.y as int, b.max.x as int, b.max.y as int);
    only(
        outline(b),
        |i: int, j: int|
            {
                ||| (j == y0 || j == y1) && x0 + 1 <= i < xs
                ||| (i == x0 || i == x1) && y0 + 1 <= j < ys
                ||| k >= 1 && i == x0 + 1 && j == y0 + 1
                ||| k >= 2 && i == x0 + 1 && j == y1 - 1
                ||| k >= 3 && i == x1 - 1 && j == y0 + 1
                ||| k >= 4 && i == x1 - 1 && j == y1 - 1
            },
    )
}

/// The dashed line `Ui::draw_line_horizontal` draws: every other pixel on,
/// starting with an off pixel at `(x, y)`.
pub open spec fn dashed_line(x: int, y: int, width: int) -> spec_fn(int, int) -> Option<bool> {
    |i: int, j: int|
        if j == y && x <= i < x + width {
            Some((i - x) % 2 == 1)
        } else {
            None
        }
}

/// The bar `Ui::draw_progress_vertical` draws in bounds `w` wide and `h`
/// high: the bottom `height` rows (at most all `h + 1`), checkered, with the
/// topmost row of a bar of exactly `height` rows solid.
pub open spec fn progress_bar(w: int, h: int, height: int) -> spec_fn(int, int) -> Option<bool> {
    |i: int, j: int|
        if 0 <= i <= w && 0 <= j <= h && h - j < height {
            Some(
                if h - j + 1 == height {
                    true
                } else {
                    i % 2 == j % 2
                },
            )
        } else {
            None
        }
}

/// The outline of a rectangle is closed and the same on every side: it
/// lights the whole top and bottom edges but their end pixels, the whole
/// left and right edges but their end pixels, and the four pixels diagonally
/// inside the corners, but not the corners themselves (of a rectangle at
/// least three pixels wide and high); it is symmetric left to right and top
/// to bottom, and everything it covers is lit.
pub proof fn lemma_outline_shape(b: Bounds, i: int, j: int)
    ensures
        outline(b)(i, j) is Some ==> outline(b)(i, j) == Some(true),
        outline(b)(i, j) == outline(b)(b.min.x + b.max.x - i, j),
        outline(b)(i, j) == outline(b)(i, b.min.y + b.max.y - j),
        b.min.x < i < b.max.x ==> outline(b)(i, b.min.y as int) == Some(true) && outline(b)(
            i,
            b.max.y as int,
        ) == Some(true),
        b.min.y < j < b.max.y ==> outline(b)(b.min.x as int, j) == Some(true) && outline(b)(
            b.max.x as int,
            j,
        ) == Some(true),
        outline(b)(b.min.x + 1, b.min.y + 1) == Some(true),
        outline(b)(b.max.x - 1, b.max.y - 1) == Some(true),
        b.min.x + 2 <= b.max.x && b.min.y + 2 <= b.max.y ==> outline(b)(b.min.x as int, b.min.y as int)
            is None,
{
}

/// The power bar in bounds `w` wide and `h` high, of `height` rows: the
/// rows from the bottom up to the bar's top row are drawn and nothing above;
/// a bar that ends inside the bounds has its top row solid over the whole
/// width, whatever its height, and every other row of the bar is checkered;
/// nothing outside the bounds is drawn.
pub proof fn lemma_progress_bar_shape(w: int, h: int, height: int, i: int, j: int)
    ensures
        0 <= i <= w && 1 <= height <= h + 1 ==> progress_bar(w, h, height)(i, h + 1 - height)
            == Some(true),
        0 <= i <= w && 0 <= j <= h && h + 1 - height < j ==> progress_bar(w, h, height)(i, j)
            == Some(i % 2 == j % 2),
        j < h + 1 - height ==> progress_bar(w, h, height)(i, j) is None,
        !(0 <= i <= w && 0 <= j <= h) ==> progress_bar(w, h, height)(i, j) is None,
{
}

/// The dashed line covers exactly the `width` pixels of row `y` from column
/// `x` on; its first pixel is off and each pixel differs from the one
/// before it.
pub proof fn lemma_dashed_line_shape(x: int, y: int, width: int, i: int, j: int)
    ensures
        dashed_line(x, y, width)(i, j) is Some <==> (j == y && x <= i < x + width),
        width >= 1 ==> dashed_line(x, y, width)(x, y) == Some(false),
        x <= i && i + 1 < x + width ==> dashed_line(x, y, width)(i + 1, y)->0 == !dashed_line(
            x,
            y,
            width,
        )(i, y)->0,
{
}

pub(crate) proof fn lemma_low_bit(v: u64)
    ensures
        (v & 1) == v % 2,
{
    assert((v & 1) == v % 2) by (bit_vector);
}

impl<'f> Ui<'f> {
    /// Draws the frame of `bounds` (relative to the current bounds), with
    /// `ui` drawing inside it first: `ui` runs on this surface with the
    /// bounds moved one pixel inwards from `bounds`, the bounds are then
    /// restored and the outline of `bounds` is drawn.
    pub fn frame<F: FnOnce(&mut Ui<'f>)>(&mut self, bounds: Bounds, ui: F)
        requires
            old(self).well_formed(),
            bounds.can_contract(1),
            old(self).reachable(bounds.min.x + 1, bounds.min.y + 1),
            old(self).reachable(bounds.max.x - 1, bounds.max.y - 1),
            bounds.min.x + 1 <= bounds.max.x - 1 ==> old(self).reachable(0, bounds.max.y as int),
            bounds.min.y + 1 <= bounds.max.y - 1 ==> old(self).reachable(bounds.max.x as int, 0),
            forall|u: &mut Ui<'f>|
                #![trigger call_requires(ui, (u,))]
                u.well_formed() && u.bounds == bounds.contracted(1) && u.font == old(self).font
                    && u.canvas.columns() == old(self).canvas.columns() && u.canvas.rows() == old(
                    self,
                ).canvas.rows() ==> call_requires(ui, (u,)),
            forall|u: &mut Ui<'f>|
                #![trigger call_ensures(ui, (u,), ())]
                u.well_formed() && call_ensures(ui, (u,), ()) ==> final(u).well_formed(),
        ensures
            final(self).well_formed(),
            final(self).bounds == old(self).bounds,
            exists|u: &mut Ui<'f>|
                #![trigger call_ensures(ui, (u,), ())]
                {
                    &&& u.canvas == old(self).canvas
                    &&& u.font == old(self).font
                    &&& u.bounds == bounds.contracted(1)
                    &&& call_ensures(ui, (u,), ())
                    &&& final(self).font == final(u).font
                    &&& final(self).canvas.columns() == final(u).canvas.columns()
                    &&& final(self).canvas.rows() == final(u).canvas.rows()
                    &&& final(self).pixels() == paint(
                        final(u).pixels(),
                        old(self).bounds,
                        old(self).origin(),
                        outline(bounds),
                    )
                },
    {
        let old_bounds = self.bounds;
        self.bounds = bounds.contract(1);
        ui(self);
        self.bounds = old_bounds;
        self.draw_outline(bounds);
    }

    /// Draws the outline of `bounds` (see `outline`).
    pub(crate) fn draw_outline(&mut self, bounds: Bounds)
        requires
            old(self).well_formed(),
            bounds.can_contract(1),
            old(self).reachable(bounds.min.x + 1, bounds.min.y + 1),
            old(self).reachable(bounds.max.x - 1, bounds.max.y - 1),
            bounds.min.x + 1 <= bounds.max.x - 1 ==> old(self).reachable(0, bounds.max.y as int),
            bounds.min.y + 1 <= bounds.max.y - 1 ==> old(self).reachable(bounds.max.x as int, 0),
        ensures
            final(self).well_formed(),
            final(self).bounds == old(self).bounds,
            final(self).font == old(self).font,
            final(self).canvas.columns() == old(self).canvas.columns(),
            final(self).canvas.rows() == old(self).canvas.rows(),
            final(self).pixels() == paint(old(self).pixels(), old(self).bounds, old(self).origin(), outline(bounds)),
    {
        outline_on(&mut self.canvas, self.bounds, bounds);
    }

    /// Draws a vertical bar `height` rows tall from the bottom of the
    /// bounds, filling its whole width (the width is only taken, and so
    /// only needs `min.x <= max.x`, when at least one row is drawn).
    pub fn draw_progress_vertical(&mut self, height: u32)
        requires
            old(self).well_formed(),
            old(self).bounds.min.y <= old(self).bounds.max.y,
            height > 0 ==> old(self).bounds.min.x <= old(self).bounds.max.x,
        ensures
            final(self).well_formed(),
            final(self).bounds == old(self).bounds,
            final(self).font == old(self).font,
            final(self).canvas.columns() == old(self).canvas.columns(),
            final(self).canvas.rows() == old(self).canvas.rows(),
            final(self).pixels() == paint(
                old(self).pixels(),
                old(self).bounds,
                old(self).origin(),
                progress_bar(
                    old(self).bounds.max.x - old(self).bounds.min.x,
                    old(self).bounds.max.y - old(self).bounds.min.y,
                    height as int,
                ),
            ),
    {
        let ghost w: int = self.bounds.max.x - self.bounds.min.x;
        let h = self.bounds.height();
        let ghost start = self.pixels();
        let ghost clip = self.bounds;
        let ghost org = self.origin();
        let ghost full = progress_bar(w, h as int, height as int);
        proof {
            lemma_paint_same(start, clip, org, nothing(), only(full, |a: int, b: int| h - b < 0));
            lemma_paint_nothing(start, clip, org);
        }
        let mut i: u64 = 0;
        while i < height as u64 && i <= h as u64
            invariant
                self.well_formed(),
                self.bounds == clip,
                org == self.origin(),
                self.font == old(self).font,
                self.canvas.columns() == old(self).canvas.columns(),
                self.canvas.rows() == old(self).canvas.rows(),
                clip.min.y <= clip.max.y,
                height > 0 ==> clip.min.x <= clip.max.x,
                w == clip.max.x - clip.min.x,
                h == clip.max.y - clip.min.y,
                full == progress_bar(w, h as int, height as int),
                i <= height,
                i <= h + 1,
                self.pixels() == paint(start, clip, org, only(full, |a: int, b: int| h - b < i)),
            decreases h + 1 - i,
        {
            let y = h - i as u32;
            let solid = i + 1 == height as u64;
            let width = self.bounds.width();
            let mut x: u64 = 0;
            while x <= width as u64
                invariant
                    self.well_formed(),
                    self.bounds == clip,
                    org == self.origin(),
                    self.font == old(self).font,
                    self.canvas.columns() == old(self).canvas.columns(),
                    self.canvas.rows() == old(self).canvas.rows(),
                    clip.min.y <= clip.max.y,
                height > 0 ==> clip.min.x <= clip.max.x,
                    w == clip.max.x - clip.min.x,
                    h == clip.max.y - clip.min.y,
                    full == progress_bar(w, h as int, height as int),
                    i < height,
                    i <= h,
                    y == h - i,
                    solid == (i + 1 == height),
                    width == w,
                    x <= w + 1,
                    self.pixels() == paint(
                        start,
                        clip,
                        org,
                        only(full, |a: int, b: int| h - b < i || (b == y && a < x)),
                    ),
                decreases w + 1 - x,
            {
                let value = if solid {
                    true
                } else {
                    x as u32 & 1 == y & 1
                };
                proof {
                    lemma_low_bit(x);
                    lemma_low_bit(y as u64);
                    assert((x as u32 & 1) == (x & 1)) by (bit_vector)
                        requires
                            x <= u32::MAX,
                    ;
                    assert((y & 1) == (y as u64 & 1)) by (bit_vector);
                }
                self.set_pixel(x as u32, y, value);
                proof {
                    lemma_paint_step(
                        start,
                        clip,
                        org,
                        only(full, |a: int, b: int| h - b < i || (b == y && a < x)),
                        only(full, |a: int, b: int| h - b < i || (b == y && a < x + 1)),
                        x as int,
                        y as int,
                        value,
                    );
                }
                x = x + 1;
            }
            proof {
                lemma_paint_same(
                    start,
                    clip,
                    org,
                    only(full, |a: int, b: int| h - b < i || (b == y && a < x)),
                    only(full, |a: int, b: int| h - b < i + 1),
                );
            }
            i = i + 1;
        }
        proof {
            lemma_paint_same(start, clip, org, only(full, |a: int, b: int| h - b < i), full);
        }
    }

    /// Draws a dashed horizontal line `width` pixels long from `(x, y)`.
    pub fn draw_line_horizontal(&mut self, pos: (u32, u32), width: u32)
        requires
            old(self).well_formed(),
            width == 0 || old(self).reachable(pos.0 + width - 1, pos.1 as int),
        ensures
            final(self).well_formed(),
            final(self).bounds == old(self).bounds,
            final(self).font == old(self).font,
            final(self).canvas.columns() == old(self).canvas.columns(),
            final(self).canvas.rows() == old(self).canvas.rows(),
            final(self).pixels() == paint(
                old(self).pixels(),
                old(self).bounds,
                old(self).origin(),
                dashed_line(pos.0 as int, pos.1 as int, width as int),
            ),
    {
        let (x, y) = pos;
        let ghost start = self.pixels();
        let ghost clip = self.bounds;
        let ghost org = self.origin();
        let ghost full = dashed_line(x as int, y as int, width as int);
        proof {
            lemma_paint_same(start, clip, org, nothing(), only(full, |a: int, b: int| a < x));
            lemma_paint_nothing(start, clip, org);
        }
        let mut i: u32 = 0;
        while i < width
            invariant
                self.well_formed(),
                self.bounds == clip,
                org == self.origin(),
                self.font == old(self).font,
                self.canvas.columns() == old(self).canvas.columns(),
                self.canvas.rows() == old(self).canvas.rows(),
                full == dashed_line(x as int, y as int, width as int),
                width == 0 || self.reachable(x + width - 1, y as int),
                i <= width,
                self.pixels() == paint(start, clip, org, only(full, |a: int, b: int| a < x + i)),
            decreases width - i,
        {
            proof {
                lemma_low_bit(i as u64);
                assert((i & 1) == (i as u64 & 1)) by (bit_vector);
            }
            self.set_pixel(x + i, y, i & 1 != 0);
            proof {
                lemma_paint_step(
                    start,
                    clip,
                    org,
                    only(full, |a: int, b: int| a < x + i),
                    only(full, |a: int, b: int| a < x + i + 1),
                    x + i,
                    y as int,
                    i & 1 != 0,
                );
            }
            i = i + 1;
        }
        proof {
            lemma_paint_same(start, clip, org, only(full, |a: int, b: int| a < x + i), full);
        }
    }
}


/// Whether the point `(x, y)` relative to `clip` stays within `u32` once
/// made absolute.
pub open spec fn reaches(clip: Bounds, x: int, y: int) -> bool {
    clip.min.x + x <= u32::MAX && clip.min.y + y <= u32::MAX
}

/// Sets the pixel at `clip.min + (x, y)` if `clip` holds that point; the
/// canvas drops it if it lies off the grid.
pub(crate) fn plot(canvas: &mut Canvas, clip: Bounds, x: u32, y: u32, value: bool)
    requires
        old(canvas).well_formed(),
        reaches(clip, x as int, y as int),
    ensures
        final(canvas).well_formed(),
        final(canvas).columns() == old(canvas).columns(),
        final(canvas).rows() == old(canvas).rows(),
        final(canvas)@ == touch(old(canvas)@, clip, (clip.min.x + x, clip.min.y + y), value),
{
    let pos = clip.min.add(Vec2::new(x, y));
    proof {
        lemma_canvas_domain(&*canvas, pos.x as int, pos.y as int);
    }
    if clip.contains(&pos) {
        canvas.set_pixel(pos.x, pos.y, value);
    }
}

/// Draws the outline of `bounds` (see `outline`), relative to and clipped
/// to `clip`.
pub(crate) fn outline_on(canvas: &mut Canvas, clip: Bounds, bounds: Bounds)
    requires
        old(canvas).well_formed(),
        bounds.can_contract(1),
        reaches(clip, bounds.min.x + 1, bounds.min.y + 1),
        reaches(clip, bounds.max.x - 1, bounds.max.y - 1),
        bounds.min.x + 1 <= bounds.max.x - 1 ==> reaches(clip, 0, bounds.max.y as int),
        bounds.min.y + 1 <= bounds.max.y - 1 ==> reaches(clip, bounds.max.x as int, 0),
    ensures
        final(canvas).well_formed(),
        final(canvas).columns() == old(canvas).columns(),
        final(canvas).rows() == old(canvas).rows(),
        final(canvas)@ == paint(old(canvas)@, clip, (clip.min.x as int, clip.min.y as int), outline(bounds)),
{
    let Bounds { min, max } = bounds;
    let ghost drawn = canvas@;
    let ghost org = (clip.min.x as int, clip.min.y as int);
    proof {
        lemma_paint_same(drawn, clip, org, nothing(), outline_part(bounds, min.x + 1, min.y + 1, 0));
        lemma_paint_nothing(drawn, clip, org);
    }

    let mut x = min.x + 1;
    while x <= max.x - 1
        invariant
            canvas.well_formed(),
            org == (clip.min.x as int, clip.min.y as int),
            reaches(clip, min.x + 1, min.y + 1),
            reaches(clip, max.x - 1, max.y - 1),
            min.x + 1 <= max.x - 1 ==> reaches(clip, 0, max.y as int),
            min.y + 1 <= max.y - 1 ==> reaches(clip, max.x as int, 0),
            min == bounds.min && max == bounds.max,
            bounds.can_contract(1),
            canvas.columns() == old(canvas).columns(),
            canvas.rows() == old(canvas).rows(),
            min.x + 1 <= x,
            x <= max.x || x == min.x + 1,
            canvas@ == paint(drawn, clip, org, outline_part(bounds, x as int, min.y + 1, 0)),
        decreases max.x - x,
    {
        let ghost mid = |i: int, j: int|
            if i == x && j == min.y {
                Some(true)
            } else {
                outline_part(bounds, x as int, min.y + 1, 0)(i, j)
            };
        plot(canvas, clip, x, min.y, true);
        proof {
            lemma_paint_step(drawn, clip, org, outline_part(bounds, x as int, min.y + 1, 0), mid, x as int, min.y as int, true);
        }
        plot(canvas, clip, x, max.y, true);
        proof {
            lemma_paint_step(drawn, clip, org, mid, outline_part(bounds, x + 1, min.y + 1, 0), x as int, max.y as int, true);
        }
        x = x + 1;
    }

    proof {
        lemma_paint_same(drawn, clip, org, outline_part(bounds, x as int, min.y + 1, 0), outline_part(bounds, max.x as int, min.y + 1, 0));
    }
    let mut y = min.y + 1;
    while y <= max.y - 1
        invariant
            canvas.well_formed(),
            org == (clip.min.x as int, clip.min.y as int),
            reaches(clip, min.x + 1, min.y + 1),
            reaches(clip, max.x - 1, max.y - 1),
            min.x + 1 <= max.x - 1 ==> reaches(clip, 0, max.y as int),
            min.y + 1 <= max.y - 1 ==> reaches(clip, max.x as int, 0),
            min == bounds.min && max == bounds.max,
            bounds.can_contract(1),
            canvas.columns() == old(canvas).columns(),
            canvas.rows() == old(canvas).rows(),
            min.y + 1 <= y,
            y <= max.y || y == min.y + 1,
            canvas@ == paint(drawn, clip, org, outline_part(bounds, max.x as int, y as int, 0)),
        decreases max.y - y,
    {
        let ghost mid = |i: int, j: int|
            if i == min.x && j == y {
                Some(true)
            } else {
                outline_part(bounds, max.x as int, y as int, 0)(i, j)
            };
        plot(canvas, clip, min.x, y, true);
        proof {
            lemma_paint_step(drawn, clip, org, outline_part(bounds, max.x as int, y as int, 0), mid, min.x as int, y as int, true);
        }
        plot(canvas, clip, max.x, y, true);
        proof {
            lemma_paint_step(drawn, clip, org, mid, outline_part(bounds, max.x as int, y + 1, 0), max.x as int, y as int, true);
        }
        y = y + 1;
    }

    let ghost (xe, ye) = (max.x as int, max.y as int);
    proof {
        lemma_paint_same(drawn, clip, org, outline_part(bounds, xe, y as int, 0), outline_part(bounds, xe, ye, 0));
    }
    plot(canvas, clip, min.x + 1, min.y + 1, true);
    proof {
        lemma_paint_step(drawn, clip, org, outline_part(bounds, xe, ye, 0), outline_part(bounds, xe, ye, 1), min.x + 1, min.y + 1, true);
    }
    plot(canvas, clip, min.x + 1, max.y - 1, true);
    proof {
        lemma_paint_step(drawn, clip, org, outline_part(bounds, xe, ye, 1), outline_part(bounds, xe, ye, 2), min.x + 1, max.y - 1, true);
    }
    plot(canvas, clip, max.x - 1, min.y + 1, true);
    proof {
        lemma_paint_step(drawn, clip, org, outline_part(bounds, xe, ye, 2), outline_part(bounds, xe, ye, 3), max.x - 1, min.y + 1, true);
    }
    plot(canvas, clip, max.x - 1, max.y - 1, true);
    proof {
        lemma_paint_step(drawn, clip, org, outline_part(bounds, xe, ye, 3), outline_part(bounds, xe, ye, 4), max.x - 1, max.y - 1, true);
        lemma_paint_same(drawn, clip, org, outline_part(bounds, xe, ye, 4), outline(bounds));
    }
}

} // verus!
