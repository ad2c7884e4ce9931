use vstd::prelude::*;

verus! {

/// Position of the pixel `(x, y)` in a row-major buffer `width` pixels wide.
pub open spec fn cell_index(width: int, x: int, y: int) -> int {
    y * width + x
}

proof fn lemma_cell_index_in_range(width: int, height: int, x: int, y: int)
    requires
        0 <= x < width,
        0 <= y < height,
    ensures
        0 <= cell_index(width, x, y) < width * height,
{
    assert(0 <= y * width) by (nonlinear_arith)
        requires
            0 <= y,
            0 < width,
    ;
    assert(y * width + x < width * height) by (nonlinear_arith)
        requires
            0 <= x < width,
            0 <= y < height,
    ;
}

proof fn lemma_cell_index_injective(width: int, x1: int, y1: int, x2: int, y2: int)
    requires
        0 <= x1 < width,
        0 <= x2 < width,
        0 <= y1,
        0 <= y2,
        cell_index(width, x1, y1) == cell_index(width, x2, y2),
    ensures
        x1 == x2,
        y1 == y2,
{
    assert(y1 == y2) by (nonlinear_arith)
        requires
            0 <= x1 < width,
            0 <= x2 < width,
            0 <= y1,
            0 <= y2,
            y1 * width + x1 == y2 * width + x2,
    ;
}

/// A monochrome off-screen image: `width * height` pixels, each on or off.
/// Its view maps every pixel `(x, y)` of the grid to whether it is on.
pub struct Canvas {
    width: u32,
    height: u32,
    pixels: Vec<bool>,
}

impl Canvas {
    /// The buffer holds exactly one entry per pixel of the grid.
    pub closed spec fn well_formed(&self) -> bool {
        self.pixels@.len() == self.width * self.height
    }

    /// Number of pixel columns.
    pub closed spec fn columns(&self) -> nat {
        self.width as nat
    }

    /// Number of pixel rows.
    pub closed spec fn rows(&self) -> nat {
        self.height as nat
    }

    /// The pixel at `(x, y)`, for a point of the grid.
    pub closed spec fn at(&self, x: int, y: int) -> bool {
        self.pixels@[cell_index(self.width as int, x, y)]
    }

    /// An all-off canvas of the given size.
    pub fn new(width: u32, height: u32) -> (r: Canvas)
        requires
            width * height <= usize::MAX,
        ensures
            r.well_formed(),
            r.columns() == width,
            r.rows() == height,
            r@ == blank(width as int, height as int),
    {
        let n = width as usize * height as usize;
        let pixels: Vec<bool> = vec![false; n];
        let r = Canvas { width, height, pixels };
        assert(r@ =~= blank(width as int, height as int)) by {
            assert forall|p: (int, int)| #[trigger] r@.dom().contains(p) implies r@[p] == false by {
                lemma_cell_index_in_range(width as int, height as int, p.0, p.1);
            }
        }
        r
    }

    pub fn width(&self) -> (r: u32)
        ensures
            r == self.columns(),
    {
        self.width
    }

    pub fn height(&self) -> (r: u32)
        ensures
            r == self.rows(),
    {
        self.height
    }

    /// Whether the pixel `(x, y)` is on.
    pub fn get_pixel(&self, x: u32, y: u32) -> (r: bool)
        requires
            self.well_formed(),
            x < self.columns(),
            y < self.rows(),
        ensures
            r == self@[(x as int, y as int)],
    {
        proof {
            lemma_cell_index_in_range(self.width as int, self.height as int, x as int, y as int);
        }
        let len = self.pixels.len();
        assert(y * self.width + x < len);
        let i = y as usize * self.width as usize + x as usize;
        self.pixels[i]
    }

    /// Turns the pixel `(x, y)` on or off; a point outside the grid is
    /// ignored. (An SSD1306 display buffer, which this canvas is copied
    /// into, differs there: it writes a point with `x` at or past the width
    /// into the next band of eight rows.)
    pub fn set_pixel(&mut self, x: u32, y: u32, value: bool)
        requires
            old(self).well_formed(),
        ensures
            final(self).well_formed(),
            final(self).columns() == old(self).columns(),
            final(self).rows() == old(self).rows(),
            final(self)@ == (if x < old(self).columns() && y < old(self).rows() {
                old(self)@.insert((x as int, y as int), value)
            } else {
                old(self)@
            }),
    {
        if x < self.width && y < self.height {
            proof {
                lemma_cell_index_in_range(self.width as int, self.height as int, x as int, y as int);
            }
            let len = self.pixels.len();
            assert(y * self.width + x < len);
            let i = y as usize * self.width as usize + x as usize;
            let ghost before = self@;
            self.pixels.set(i, value);
            proof {
                let w = self.width as int;
                let h = self.height as int;
                assert forall|p: (int, int)| #[trigger] self@.dom().contains(p) implies self@[p]
                    == before.insert((x as int, y as int), value)[p] by {
                    lemma_cell_index_in_range(w, h, p.0, p.1);
                    if cell_index(w, p.0, p.1) == cell_index(w, x as int, y as int) {
                        lemma_cell_index_injective(w, p.0, p.1, x as int, y as int);
                    }
                }
                assert(self@ =~= before.insert((x as int, y as int), value));
            }
        }
    }
}

/// The grid of a `width` by `height` canvas with every pixel off.
pub open spec fn blank(width: int, height: int) -> Map<(int, int), bool> {
    Map::new(|p: (int, int)| 0 <= p.0 < width && 0 <= p.1 < height, |p: (int, int)| false)
}

impl View for Canvas {
    type V = Map<(int, int), bool>;

    closed spec fn view(&self) -> Map<(int, int), bool> {
        Map::new(
            |p: (int, int)| 0 <= p.0 < self.width && 0 <= p.1 < self.height,
            |p: (int, int)| self.at(p.0, p.1),
        )
    }
}

/// The view of a canvas holds exactly the points of its grid.
pub proof fn lemma_canvas_domain(c: &Canvas, x: int, y: int)
    ensures
        c@.dom().contains((x, y)) <==> (0 <= x < c.columns() && 0 <= y < c.rows()),
{
}

} // verus!
