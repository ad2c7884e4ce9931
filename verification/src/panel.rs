use vstd::prelude::*;
use vstd::string::StrSliceExecFns;
use crate::geometry::{Vec2, Bounds};
use crate::canvas::Canvas;
use crate::font::{glyph_index, lemma_glyph_bits, bit_of, glyph_on, glyph_room, Font, CHAR_WIDTH, CHAR_HEIGHT, glyph, place, pen, decimal, lemma_decimal_is_digits, lemma_pen_one_line, lemma_pen_concat, lemma_take_step, lemma_decimal_positional, lemma_decimal_short, decimal_digits};
use crate::paint::{paint, touch, only, nothing, lemma_paint_step, lemma_paint_same, lemma_paint_nothing, lemma_paint_domain};
use crate::ui::{outline, plot, outline_on, lemma_low_bit};

verus! {

// Drawing straight onto a canvas, without a bounded surface: every point of
// the canvas can be drawn on, and the font knows only digits, capital
// letters, `.`, `°` and `%`.

/// A clip that holds every point with `u32` coordinates.
pub open spec fn whole() -> Bounds {
    Bounds { min: Vec2 { x: 0, y: 0 }, max: Vec2 { x: u32::MAX, y: u32::MAX } }
}

/// The rectangle with the corners `b[0]` (top left) and `b[1]` (bottom right).
pub open spec fn corners(b: [(u32, u32); 2]) -> Bounds {
    Bounds {
        min: Vec2 { x: b@[0].0, y: b@[0].1 },
        max: Vec2 { x: b@[1].0, y: b@[1].1 },
    }
}

/// The glyph of a character in the small font: digits are glyphs 0 to 9,
/// capital letters 10 to 35, then `.`, `°` and `%`.
pub open spec fn basic_glyph_index(c: char) -> Option<int> {
    let u = c as int;
    if 0x30 <= u <= 0x39 {
        Some(u - 0x30)
    } else if 0x41 <= u <= 0x5A {
        Some(u - 0x41 + 10)
    } else if c == '.' {
        Some(36)
    } else if c == '°' {
        Some(37)
    } else if c == '%' {
        Some(38)
    } else {
        None
    }
}

/// The small character set is the digits, the capital letters, `.`, `°`
/// and `%`, and each of them has the same glyph as in the full font.
pub proof fn lemma_basic_glyph_index_agrees(c: char)
    ensures
        basic_glyph_index(c) is Some <==> (0x30 <= c as int <= 0x39 || 0x41 <= c as int <= 0x5A || c
            == '.' || c == '°' || c == '%'),
        basic_glyph_index(c) is Some ==> basic_glyph_index(c) == glyph_index(c),
{
}

/// Whether `c` has no glyph in the small font, or one that `font` holds.
pub open spec fn basic_covered(font: &Font, c: char) -> bool {
    basic_glyph_index(c) matches Some(n) ==> font.has_glyph(n)
}

/// Whether every character of `s` has no glyph or one that `font` holds.
pub open spec fn basic_covered_all(font: &Font, s: Seq<char>) -> bool {
    forall|k: int| 0 <= k < s.len() ==> basic_covered(font, #[trigger] s[k])
}

/// The pixels `m` becomes when `c` is written with its top-left pixel at `p`.
pub open spec fn stamp_char(m: Map<(int, int), bool>, bytes: Seq<u8>, p: (int, int), invert: bool, c: char) -> Map<(int, int), bool> {
    match basic_glyph_index(c) {
        Some(n) => paint(m, whole(), p, glyph(bytes, n, invert)),
        None => m,
    }
}

/// The pixels `m` becomes when `s` is written from `start` (see `pen`).
pub open spec fn stamp_text(m: Map<(int, int), bool>, bytes: Seq<u8>, start: (int, int), invert: bool, s: Seq<char>) -> Map<(int, int), bool>
    decreases s.len(),
{
    if s.len() == 0 {
        m
    } else {
        let q = place(pen(start, s.drop_last()), start.0, s.last());
        stamp_char(stamp_text(m, bytes, start, invert, s.drop_last()), bytes, q, invert, s.last())
    }
}

/// Whether every pixel of the glyph of `c` (if it has one) written at `p`,
/// and of its border when inverted, has `u32` coordinates (the border also
/// needs `p` to be at least 1 on both axes).
pub open spec fn glyph_fits(p: (int, int), invert: bool, c: char) -> bool {
    basic_glyph_index(c) is Some ==> glyph_room(Vec2 { x: 0, y: 0 }, p, invert)
}

/// Whether `c` can be written at the pen position `p` (already moved for a
/// newline) and the pen then advanced by one glyph width.
pub open spec fn pen_fits(p: (int, int), invert: bool, c: char) -> bool {
    &&& p.0 + 5 <= u32::MAX
    &&& p.1 <= u32::MAX
    &&& glyph_fits(p, invert, c)
}

pub open spec fn stamp_fits(start: (int, int), invert: bool, s: Seq<char>) -> bool {
    forall|k: int|
        0 <= k < s.len() ==> pen_fits(place(pen(start, #[trigger] s.take(k)), start.0, s[k]), invert, s[k])
}

/// The bar the direct `draw_progress_vertical` draws: the bottom `height`
/// rows of the rectangle, checkered.
pub open spec fn checkered_bar(b: Bounds, height: int) -> spec_fn(int, int) -> Option<bool> {
    |i: int, j: int|
        if b.min.x <= i <= b.max.x && b.min.y <= j <= b.max.y && b.max.y - j < height {
            Some(i % 2 == j % 2)
        } else {
            None
        }
}

/// The direct bar covers exactly the bottom `height` rows of its rectangle
/// (all rows when `height` exceeds them) and is checkered there: a pixel is
/// lit exactly when its column and row have the same parity, so neighbours
/// in a row or a column differ.
pub proof fn lemma_checkered_bar_shape(b: Bounds, height: int, i: int, j: int)
    ensures
        checkered_bar(b, height)(i, j) is Some <==> (b.holds(i, j) && b.max.y - j < height),
        checkered_bar(b, height)(i, j) is Some ==> checkered_bar(b, height)(i, j) == Some(i % 2 == j % 2),
        checkered_bar(b, height)(i, j) is Some && checkered_bar(b, height)(i + 1, j) is Some
            ==> checkered_bar(b, height)(i + 1, j)->0 == !checkered_bar(b, height)(i, j)->0,
        checkered_bar(b, height)(i, j) is Some && checkered_bar(b, height)(i, j + 1) is Some
            ==> checkered_bar(b, height)(i, j + 1)->0 == !checkered_bar(b, height)(i, j)->0,
{
}

/// Sets one pixel of the canvas; a point off the canvas is ignored.
fn put(canvas: &mut Canvas, x: u32, y: u32, value: bool)
    requires
        old(canvas).well_formed(),
    ensures
        final(canvas).well_formed(),
        final(canvas).columns() == old(canvas).columns(),
        final(canvas).rows() == old(canvas).rows(),
        final(canvas)@ == touch(old(canvas)@, whole(), (x as int, y as int), value),
{
    plot(canvas, whole_bounds(), x, y, value);
}

/// The clip that holds every point with `u32` coordinates.
fn whole_bounds() -> (r: Bounds)
    ensures
        r == whole(),
{
    Bounds::new((0, 0), (u32::MAX, u32::MAX))
}

/// The glyph index of `chr` in the small font, if it has one.
pub fn font_index(chr: char) -> (r: Option<u32>)
    ensures
        r matches Some(n) ==> basic_glyph_index(chr) == Some(n as int),
        r is None <==> basic_glyph_index(chr) is None,
{
    let u = chr as u32;
    if 0x30 <= u && u <= 0x39 {
        Some(u - 0x30)
    } else if 0x41 <= u && u <= 0x5A {
        Some(u - 0x41 + 10)
    } else if chr == '.' {
        Some(36)
    } else if chr == '°' {
        Some(37)
    } else if chr == '%' {
        Some(38)
    } else {
        None
    }
}

/// Writes the glyph of `chr` with its top-left pixel at `pos`.
pub fn blit_char(canvas: &mut Canvas, font: &Font, pos: (u32, u32), invert: bool, chr: char)
    requires
        old(canvas).well_formed(),
        basic_covered(font, chr),
        glyph_fits((pos.0 as int, pos.1 as int), invert, chr),
    ensures
        final(canvas).well_formed(),
        final(canvas).columns() == old(canvas).columns(),
        final(canvas).rows() == old(canvas).rows(),
        final(canvas)@ == stamp_char(old(canvas)@, font@, (pos.0 as int, pos.1 as int), invert, chr),
{
    if let Some(n) = font_index(chr) {
        glyph_on(canvas, whole_bounds(), font, Vec2::new(pos.0, pos.1), invert, n);
    }
}

/// Writes `str` from `origin`, one glyph width per character; a newline
/// returns to the starting column one glyph height down.
pub fn blit_str(canvas: &mut Canvas, font: &Font, origin: (u32, u32), invert: bool, str: &str)
    requires
        old(canvas).well_formed(),
        basic_covered_all(font, str@),
        stamp_fits((origin.0 as int, origin.1 as int), invert, str@),
    ensures
        final(canvas).well_formed(),
        final(canvas).columns() == old(canvas).columns(),
        final(canvas).rows() == old(canvas).rows(),
        final(canvas)@ == stamp_text(old(canvas)@, font@, (origin.0 as int, origin.1 as int), invert, str@),
{
    broadcast use vstd::string::group_string_axioms;

    let mut pos = origin;
    let ghost start = (origin.0 as int, origin.1 as int);
    let ghost s = str@;
    for chr in it: str.chars()
        invariant
            s == str@,
            it.seq() == s,
            start == (origin.0 as int, origin.1 as int),
            canvas.well_formed(),
            canvas.columns() == old(canvas).columns(),
            canvas.rows() == old(canvas).rows(),
            basic_covered_all(font, s),
            stamp_fits(start, invert, s),
            (pos.0 as int, pos.1 as int) == pen(start, s.take(it.index() as int)),
            canvas@ == stamp_text(old(canvas)@, font@, start, invert, s.take(it.index() as int)),
    {
        let ghost k = it.index() as int;
        proof {
            lemma_take_step(s, k);
            assert(pen_fits(place(pen(start, s.take(k)), start.0, s[k]), invert, s[k]));
            assert(basic_covered(font, s[k]));
            assert(chr == s[k]);
        }
        if chr == '\n' {
            pos.0 = origin.0;
            pos.1 = pos.1 + CHAR_HEIGHT;
        }
        blit_char(canvas, font, pos, invert, chr);
        pos.0 = pos.0 + CHAR_WIDTH;
    }
    proof {
        assert(s.take(s.len() as int) =~= s);
    }
}

/// Writes `number` in decimal from `origin` and returns the number of
/// digits written.
pub fn blit_int(canvas: &mut Canvas, font: &Font, origin: (u32, u32), invert: bool, number: u32) -> (r: u32)
    requires
        old(canvas).well_formed(),
        basic_covered_all(font, decimal(number as nat)),
        stamp_fits((origin.0 as int, origin.1 as int), invert, decimal(number as nat)),
    ensures
        final(canvas).well_formed(),
        final(canvas).columns() == old(canvas).columns(),
        final(canvas).rows() == old(canvas).rows(),
        r == decimal(number as nat).len(),
        final(canvas)@ == stamp_text(old(canvas)@, font@, (origin.0 as int, origin.1 as int), invert, decimal(number as nat)),
{
    let digits = decimal_digits(number);
    let ghost s = decimal(number as nat);
    let ghost start = (origin.0 as int, origin.1 as int);
    proof {
        lemma_decimal_is_digits(number as nat);
        assert forall|k: int| 0 <= k < s.len() implies #[trigger] s[k] != '\n' by {
            assert(0x30 <= s[k] as int <= 0x39);
        }
        lemma_pen_one_line(start, s.take(s.len() - 1));
        assert(s.take(s.len() - 1).len() == s.len() - 1);
        assert(pen_fits(place(pen(start, s.take(s.len() - 1)), start.0, s[s.len() - 1]), invert, s[s.len() - 1]));
    }
    let mut pos = origin;
    let mut k: usize = 0;
    while k < digits.len()
        invariant
            digits@ == s,
            s == decimal(number as nat),
            start == (origin.0 as int, origin.1 as int),
            forall|j: int| 0 <= j < s.len() ==> #[trigger] s[j] != '\n',
            origin.0 + 5 * s.len() <= u32::MAX,
            canvas.well_formed(),
            canvas.columns() == old(canvas).columns(),
            canvas.rows() == old(canvas).rows(),
            basic_covered_all(font, s),
            stamp_fits(start, invert, s),
            k <= s.len(),
            (pos.0 as int, pos.1 as int) == pen(start, s.take(k as int)),
            canvas@ == stamp_text(old(canvas)@, font@, start, invert, s.take(k as int)),
        decreases s.len() - k,
    {
        proof {
            lemma_take_step(s, k as int);
            assert(pen_fits(place(pen(start, s.take(k as int)), start.0, s[k as int]), invert, s[k as int]));
            assert(basic_covered(font, s[k as int]));
        }
        blit_char(canvas, font, pos, invert, digits[k]);
        pos.0 = pos.0 + CHAR_WIDTH;
        k = k + 1;
    }
    proof {
        assert(s.take(s.len() as int) =~= s);
    }
    digits.len() as u32
}

/// Height of the rectangle with corners `b`.
pub fn bounds_height(b: [(u32, u32); 2]) -> (r: u32)
    requires
        b@[0].1 <= b@[1].1,
    ensures
        r == b@[1].1 - b@[0].1,
{
    b[1].1 - b[0].1
}

/// Draws the bottom `height` rows of the rectangle with corners `b`
/// (all of them if there are fewer), checkered.
pub fn draw_progress_vertical(canvas: &mut Canvas, b: [(u32, u32); 2], height: u32)
    requires
        old(canvas).well_formed(),
    ensures
        final(canvas).well_formed(),
        final(canvas).columns() == old(canvas).columns(),
        final(canvas).rows() == old(canvas).rows(),
        final(canvas)@ == paint(old(canvas)@, whole(), (0, 0), checkered_bar(corners(b), height as int)),
{
    let (min, max) = (b[0], b[1]);
    let ghost start = canvas@;
    let ghost full = checkered_bar(corners(b), height as int);
    proof {
        lemma_paint_same(start, whole(), (0, 0), nothing(), only(full, |i: int, j: int| max.1 - j < 0));
        lemma_paint_nothing(start, whole(), (0, 0));
    }
    let mut n: u64 = 0;
    while n < height as u64 && n + min.1 as u64 <= max.1 as u64
        invariant
            canvas.well_formed(),
            canvas.columns() == old(canvas).columns(),
            canvas.rows() == old(canvas).rows(),
            min == b@[0] && max == b@[1],
            full == checkered_bar(corners(b), height as int),
            n <= height,
            n == 0 || n + min.1 <= max.1 + 1,
            canvas@ == paint(start, whole(), (0, 0), only(full, |i: int, j: int| max.1 - j < n)),
        decreases max.1 + 1 - n - min.1,
    {
        let y = max.1 - n as u32;
        let mut x: u64 = min.0 as u64;
        while x <= max.0 as u64
            invariant
                canvas.well_formed(),
                canvas.columns() == old(canvas).columns(),
                canvas.rows() == old(canvas).rows(),
                min == b@[0] && max == b@[1],
                full == checkered_bar(corners(b), height as int),
                n < height,
                n + min.1 <= max.1,
                y == max.1 - n,
                min.0 <= x,
                x <= max.0 + 1 || x == min.0,
                canvas@ == paint(start, whole(), (0, 0), only(full, |i: int, j: int| max.1 - j < n || (j == y && i < x))),
            decreases max.0 + 1 - x,
        {
            proof {
                lemma_low_bit(x);
                lemma_low_bit(y as u64);
                assert((x as u32 & 1) == (x & 1)) by (bit_vector)
                    requires
                        x <= u32::MAX,
                ;
                assert((y & 1) == (y as u64 & 1)) by (bit_vector);
            }
            let value = x as u32 & 1 == y & 1;
            put(canvas, x as u32, y, value);
            proof {
                lemma_paint_step(
                    start,
                    whole(),
                    (0, 0),
                    only(full, |i: int, j: int| max.1 - j < n || (j == y && i < x)),
                    only(full, |i: int, j: int| max.1 - j < n || (j == y && i < x + 1)),
                    x as int,
                    y as int,
                    value,
                );
            }
            x = x + 1;
        }
        proof {
            lemma_paint_same(
                start,
                whole(),
                (0, 0),
                only(full, |i: int, j: int| max.1 - j < n || (j == y && i < x)),
                only(full, |i: int, j: int| max.1 - j < n + 1),
            );
        }
        n = n + 1;
    }
    proof {
        lemma_paint_same(start, whole(), (0, 0), only(full, |i: int, j: int| max.1 - j < n), full);
    }
}

/// Draws the outline of the rectangle with corners `b` (see
/// `crate::ui::outline`).
pub fn frame(canvas: &mut Canvas, b: [(u32, u32); 2])
    requires
        old(canvas).well_formed(),
        corners(b).can_contract(1),
    ensures
        final(canvas).well_formed(),
        final(canvas).columns() == old(canvas).columns(),
        final(canvas).rows() == old(canvas).rows(),
        final(canvas)@ == paint(old(canvas)@, whole(), (0, 0), outline(corners(b))),
{
    outline_on(canvas, whole_bounds(), Bounds::new(b[0], b[1]));
}


/// Writing a text made of two parts, the second without a newline, is
/// writing the first part and then the second from where the pen stopped;
/// for a first part without a newline that is `5` pixels per character to
/// the right of the start.
pub proof fn lemma_stamp_text_concat(
    m: Map<(int, int), bool>,
    bytes: Seq<u8>,
    start: (int, int),
    invert: bool,
    s1: Seq<char>,
    s2: Seq<char>,
)
    requires
        forall|k: int| 0 <= k < s2.len() ==> #[trigger] s2[k] != '\n',
    ensures
        pen(start, s1 + s2) == pen(pen(start, s1), s2),
        stamp_text(m, bytes, start, invert, s1 + s2) == stamp_text(
            stamp_text(m, bytes, start, invert, s1),
            bytes,
            pen(start, s1),
            invert,
            s2,
        ),
        (forall|k: int| 0 <= k < s1.len() ==> #[trigger] s1[k] != '\n') ==> pen(start, s1) == (
            start.0 + 5 * s1.len(),
            start.1,
        ),
    decreases s2.len(),
{
    if forall|k: int| 0 <= k < s1.len() ==> #[trigger] s1[k] != '\n' {
        lemma_pen_one_line(start, s1);
    }
    if s2.len() == 0 {
        assert(s1 + s2 =~= s1);
    } else {
        let t = s1 + s2;
        assert(t.drop_last() =~= s1 + s2.drop_last());
        assert(t.last() == s2.last());
        assert forall|k: int| 0 <= k < s2.drop_last().len() implies #[trigger] s2.drop_last()[k] != '\n' by {
            assert(s2.drop_last()[k] == s2[k]);
        }
        assert(s2.last() == s2[s2.len() - 1]);
        lemma_stamp_text_concat(m, bytes, start, invert, s1, s2.drop_last());
    }
}


/// A text made of two parts, the second without a newline, can be written
/// exactly when the first part can be written from the start and the
/// second from where the pen stopped: it fits exactly when both parts fit
/// from there, and a font covers it exactly when it covers both parts.
pub proof fn lemma_stamp_fits_concat(
    font: &Font,
    start: (int, int),
    invert: bool,
    s1: Seq<char>,
    s2: Seq<char>,
)
    requires
        forall|k: int| 0 <= k < s2.len() ==> #[trigger] s2[k] != '\n',
    ensures
        stamp_fits(start, invert, s1 + s2) <==> (stamp_fits(start, invert, s1) && stamp_fits(
            pen(start, s1),
            invert,
            s2,
        )),
        basic_covered_all(font, s1 + s2) <==> (basic_covered_all(font, s1) && basic_covered_all(
            font,
            s2,
        )),
{
    let t = s1 + s2;
    let n = s1.len() as int;
    assert forall|j: int| 0 <= j < s2.len() implies place(pen(start, #[trigger] t.take(n + j)), start.0, t[n + j])
        == place(pen(pen(start, s1), s2.take(j)), pen(start, s1).0, s2[j]) by {
        assert(t.take(n + j) =~= s1 + s2.take(j));
        assert forall|k: int| 0 <= k < s2.take(j).len() implies #[trigger] s2.take(j)[k] != '\n' by {
            assert(s2.take(j)[k] == s2[k]);
        }
        lemma_pen_concat(start, s1, s2.take(j));
        assert(t[n + j] == s2[j]);
    }
    assert forall|k: int| 0 <= k < n implies #[trigger] t.take(k) == s1.take(k) && t[k] == s1[k] by {
        assert(t.take(k) =~= s1.take(k));
    }
    if stamp_fits(start, invert, t) {
        assert forall|k: int| 0 <= k < s1.len() implies pen_fits(
            place(pen(start, #[trigger] s1.take(k)), start.0, s1[k]),
            invert,
            s1[k],
        ) by {
            assert(t.take(k) == s1.take(k) && t[k] == s1[k]);
        }
        assert forall|j: int| 0 <= j < s2.len() implies pen_fits(
            place(pen(pen(start, s1), #[trigger] s2.take(j)), pen(start, s1).0, s2[j]),
            invert,
            s2[j],
        ) by {
            assert(place(pen(start, t.take(n + j)), start.0, t[n + j]) == place(
                pen(pen(start, s1), s2.take(j)),
                pen(start, s1).0,
                s2[j],
            ));
            assert(t[n + j] == s2[j]);
        }
    }
    if stamp_fits(start, invert, s1) && stamp_fits(pen(start, s1), invert, s2) {
        assert forall|k: int| 0 <= k < t.len() implies pen_fits(
            place(pen(start, #[trigger] t.take(k)), start.0, t[k]),
            invert,
            t[k],
        ) by {
            if k < n {
                assert(t.take(k) == s1.take(k) && t[k] == s1[k]);
            } else {
                let j = k - n;
                assert(place(pen(start, t.take(n + j)), start.0, t[n + j]) == place(
                    pen(pen(start, s1), s2.take(j)),
                    pen(start, s1).0,
                    s2[j],
                ));
                assert(t[n + j] == s2[j]);
            }
        }
    }
    if basic_covered_all(font, s1) && basic_covered_all(font, s2) {
        assert forall|k: int| 0 <= k < t.len() implies basic_covered(font, #[trigger] t[k]) by {
            if k < n {
                assert(t[k] == s1[k]);
            } else {
                assert(t[k] == s2[k - n]);
            }
        }
    }
    if basic_covered_all(font, t) {
        assert forall|k: int| 0 <= k < s1.len() implies basic_covered(font, #[trigger] s1[k]) by {
            assert(t[k] == s1[k]);
        }
        assert forall|j: int| 0 <= j < s2.len() implies basic_covered(font, #[trigger] s2[j]) by {
            assert(t[n + j] == s2[j]);
        }
    }
}


/// Writing a text never changes which points form the grid.
pub proof fn lemma_stamp_text_domain(m: Map<(int, int), bool>, bytes: Seq<u8>, start: (int, int), invert: bool, s: Seq<char>)
    ensures
        stamp_text(m, bytes, start, invert, s).dom() == m.dom(),
    decreases s.len(),
{
    if s.len() > 0 {
        lemma_stamp_text_domain(m, bytes, start, invert, s.drop_last());
        let rest = stamp_text(m, bytes, start, invert, s.drop_last());
        let q = place(pen(start, s.drop_last()), start.0, s.last());
        if let Some(n) = basic_glyph_index(s.last()) {
            lemma_paint_domain(rest, whole(), q, glyph(bytes, n, invert));
        }
    }
}

/// Writing a text without a newline keeps every pixel outside the boxes of
/// its glyphs: above or below the row of boxes, left of the first box or
/// right of the last (an inverted text also covers the one-pixel border
/// around each box).
pub proof fn lemma_stamp_text_elsewhere(
    m: Map<(int, int), bool>,
    bytes: Seq<u8>,
    start: (int, int),
    invert: bool,
    s: Seq<char>,
    q: (int, int),
)
    requires
        forall|k: int| 0 <= k < s.len() ==> #[trigger] s[k] != '\n',
        m.dom().contains(q),
        q.1 < start.1 - 1 || q.1 > start.1 + 5 || q.0 < start.0 - 1 || q.0 > start.0 + 5 * s.len()
            || (!invert && (q.1 < start.1 || q.1 > start.1 + 4 || q.0 < start.0 || q.0 >= start.0
            + 5 * s.len())),
    ensures
        stamp_text(m, bytes, start, invert, s)[q] == m[q],
    decreases s.len(),
{
    if s.len() > 0 {
        let t = s.drop_last();
        assert forall|k: int| 0 <= k < t.len() implies #[trigger] t[k] != '\n' by {
            assert(t[k] == s[k]);
        }
        lemma_stamp_text_elsewhere(m, bytes, start, invert, t, q);
        lemma_stamp_text_domain(m, bytes, start, invert, t);
        lemma_pen_one_line(start, t);
        assert(s.last() == s[s.len() - 1]);
        let rest = stamp_text(m, bytes, start, invert, t);
        let p = place(pen(start, t), start.0, s.last());
        assert(p == (start.0 + 5 * t.len(), start.1));
        if let Some(n) = basic_glyph_index(s.last()) {
            lemma_glyph_bits(bytes, n, q.0 - p.0, q.1 - p.1);
        }
    }
}

/// Written plainly, a text without a newline shows in the box of its `k`-th
/// character, `5 * k` pixels right of the start, that character's glyph:
/// the font's bit for each pixel of the box.
pub proof fn lemma_stamp_text_box(
    m: Map<(int, int), bool>,
    bytes: Seq<u8>,
    start: (int, int),
    s: Seq<char>,
    k: int,
    i: int,
    j: int,
)
    requires
        forall|l: int| 0 <= l < s.len() ==> #[trigger] s[l] != '\n',
        0 <= k < s.len(),
        0 <= i < 5,
        0 <= j < 5,
        basic_glyph_index(s[k]) is Some,
        m.dom().contains((start.0 + 5 * k + i, start.1 + j)),
        whole().holds(start.0 + 5 * k + i, start.1 + j),
    ensures
        stamp_text(m, bytes, start, false, s)[(start.0 + 5 * k + i, start.1 + j)] == bit_of(
            bytes,
            25 * basic_glyph_index(s[k])->0 + 5 * j + i,
        ),
    decreases s.len(),
{
    let t = s.drop_last();
    assert forall|l: int| 0 <= l < t.len() implies #[trigger] t[l] != '\n' by {
        assert(t[l] == s[l]);
    }
    lemma_stamp_text_domain(m, bytes, start, false, t);
    lemma_pen_one_line(start, t);
    assert(s.last() == s[s.len() - 1]);
    let p = place(pen(start, t), start.0, s.last());
    assert(p == (start.0 + 5 * t.len(), start.1));
    let q = (start.0 + 5 * k + i, start.1 + j);
    if k < t.len() {
        assert(t[k] == s[k]);
        lemma_stamp_text_box(m, bytes, start, t, k, i, j);
        if let Some(n) = basic_glyph_index(s.last()) {
            lemma_glyph_bits(bytes, n, q.0 - p.0, q.1 - p.1);
        }
    } else {
        lemma_glyph_bits(bytes, basic_glyph_index(s[k])->0, i, j);
    }
}


/// The rectangle with corners `(x0, y0)` and `(x1, y1)`.
pub open spec fn rect(x0: u32, y0: u32, x1: u32, y1: u32) -> Bounds {
    Bounds { min: Vec2 { x: x0, y: y0 }, max: Vec2 { x: x1, y: y1 } }
}

/// The compact heater screen drawn over `m`: the power in watts followed
/// by `W` at (10, 34), the power in percent followed by `%` at (10, 41),
/// `HEATING` inverted at (11, 48), a checkered bar `bar_rows` rows high in
/// the power meter at the left edge, and the outlines of the power meter,
/// the temperature panel and the heater panel, in that order.
pub open spec fn compact_screen(
    m: Map<(int, int), bool>,
    bytes: Seq<u8>,
    watts: nat,
    percent: nat,
    bar_rows: int,
) -> Map<(int, int), bool> {
    let w = decimal(watts);
    let p = decimal(percent);
    let m1 = stamp_text(m, bytes, (10, 34), false, w);
    let m2 = stamp_text(m1, bytes, (10 + 5 * w.len() as int, 34), false, "W"@);
    let m3 = stamp_text(m2, bytes, (10, 41), false, p);
    let m4 = stamp_text(m3, bytes, (10 + 5 * p.len() as int, 41), false, "%"@);
    let m5 = stamp_text(m4, bytes, (11, 48), true, "HEATING"@);
    let m6 = paint(m5, whole(), (0, 0), checkered_bar(rect(0, 0, 6, 63), bar_rows));
    let m7 = paint(m6, whole(), (0, 0), outline(rect(0, 0, 6, 63)));
    let m8 = paint(m7, whole(), (0, 0), outline(rect(8, 0, 50, 30)));
    paint(m8, whole(), (0, 0), outline(rect(8, 32, 50, 63)))
}

/// The bar and the three outlines of the compact screen leave the area of
/// the readings (columns 10 to 49, rows 34 to 45) as it was.
proof fn lemma_compact_frames_spare(m: Map<(int, int), bool>, bar_rows: int, q: (int, int))
    requires
        m.dom().contains(q),
        10 <= q.0 < 50,
        34 <= q.1 <= 45,
    ensures
        ({
            let m6 = paint(m, whole(), (0, 0), checkered_bar(rect(0, 0, 6, 63), bar_rows));
            let m7 = paint(m6, whole(), (0, 0), outline(rect(0, 0, 6, 63)));
            let m8 = paint(m7, whole(), (0, 0), outline(rect(8, 0, 50, 30)));
            paint(m8, whole(), (0, 0), outline(rect(8, 32, 50, 63)))[q] == m[q]
        }),
{
    let m6 = paint(m, whole(), (0, 0), checkered_bar(rect(0, 0, 6, 63), bar_rows));
    let m7 = paint(m6, whole(), (0, 0), outline(rect(0, 0, 6, 63)));
    let m8 = paint(m7, whole(), (0, 0), outline(rect(8, 0, 50, 30)));
    lemma_paint_domain(m, whole(), (0, 0), checkered_bar(rect(0, 0, 6, 63), bar_rows));
    lemma_paint_domain(m6, whole(), (0, 0), outline(rect(0, 0, 6, 63)));
    lemma_paint_domain(m7, whole(), (0, 0), outline(rect(8, 0, 50, 30)));
    assert(m6[q] == m[q]);
    assert(m7[q] == m6[q]);
    assert(m8[q] == m7[q]);
}

/// The compact screen shows the power readings as numbers. Where the panel
/// frame does not cross them, the box of each digit of `watts` at (10, 34),
/// and of `percent` at (10, 41), holds the font's bits for that digit (a
/// zero reading shows the digit 0), and the box right after the last digit
/// holds the glyph of the unit: `W` (glyph 32) and `%` (glyph 38).
pub proof fn lemma_compact_readings(
    m: Map<(int, int), bool>,
    bytes: Seq<u8>,
    watts: nat,
    percent: nat,
    bar_rows: int,
    k: int,
    i: int,
    j: int,
)
    requires
        0 <= i < 5,
        0 <= j < 5,
        forall|x: int, y: int| 0 <= x < 50 && 0 <= y < 64 ==> #[trigger] m.dom().contains((x, y)),
    ensures
        0 <= k < decimal(watts).len() && 10 + 5 * k + i < 50 ==> compact_screen(
            m,
            bytes,
            watts,
            percent,
            bar_rows,
        )[(10 + 5 * k + i, 34 + j)] == bit_of(bytes, 25 * (decimal(watts)[k] as int - 0x30) + 5 * j + i),
        10 + 5 * decimal(watts).len() + i < 50 ==> compact_screen(m, bytes, watts, percent, bar_rows)[(
            10 + 5 * decimal(watts).len() + i,
            34 + j,
        )] == bit_of(bytes, 25 * 32 + 5 * j + i),
        0 <= k < decimal(percent).len() && 10 + 5 * k + i < 50 ==> compact_screen(
            m,
            bytes,
            watts,
            percent,
            bar_rows,
        )[(10 + 5 * k + i, 41 + j)] == bit_of(bytes, 25 * (decimal(percent)[k] as int - 0x30) + 5 * j + i),
        10 + 5 * decimal(percent).len() + i < 50 ==> compact_screen(m, bytes, watts, percent, bar_rows)[(
            10 + 5 * decimal(percent).len() + i,
            41 + j,
        )] == bit_of(bytes, 25 * 38 + 5 * j + i),
{
    reveal_strlit("W");
    reveal_strlit("%");
    reveal_strlit("HEATING");
    let w = decimal(watts);
    let p = decimal(percent);
    lemma_decimal_is_digits(watts);
    lemma_decimal_is_digits(percent);
    assert forall|l: int| 0 <= l < w.len() implies #[trigger] w[l] != '\n' by {
        assert(0x30 <= w[l] as int <= 0x39);
    }
    assert forall|l: int| 0 <= l < p.len() implies #[trigger] p[l] != '\n' by {
        assert(0x30 <= p[l] as int <= 0x39);
    }
    let sw = "W"@;
    let sp = "%"@;
    let sh = "HEATING"@;
    assert forall|l: int| 0 <= l < sw.len() implies #[trigger] sw[l] != '\n' by {}
    assert forall|l: int| 0 <= l < sp.len() implies #[trigger] sp[l] != '\n' by {}
    assert forall|l: int| 0 <= l < sh.len() implies #[trigger] sh[l] != '\n' by {}
    let m1 = stamp_text(m, bytes, (10, 34), false, w);
    let m2 = stamp_text(m1, bytes, (10 + 5 * w.len() as int, 34), false, sw);
    let m3 = stamp_text(m2, bytes, (10, 41), false, p);
    let m4 = stamp_text(m3, bytes, (10 + 5 * p.len() as int, 41), false, sp);
    let m5 = stamp_text(m4, bytes, (11, 48), true, sh);
    lemma_stamp_text_domain(m, bytes, (10, 34), false, w);
    lemma_stamp_text_domain(m1, bytes, (10 + 5 * w.len() as int, 34), false, sw);
    lemma_stamp_text_domain(m2, bytes, (10, 41), false, p);
    lemma_stamp_text_domain(m3, bytes, (10 + 5 * p.len() as int, 41), false, sp);
    lemma_stamp_text_domain(m4, bytes, (11, 48), true, sh);
    assert(compact_screen(m, bytes, watts, percent, bar_rows) == paint(
        paint(
            paint(paint(m5, whole(), (0, 0), checkered_bar(rect(0, 0, 6, 63), bar_rows)), whole(), (0, 0), outline(rect(0, 0, 6, 63))),
            whole(),
            (0, 0),
            outline(rect(8, 0, 50, 30)),
        ),
        whole(),
        (0, 0),
        outline(rect(8, 32, 50, 63)),
    ));
    if 0 <= k < w.len() && 10 + 5 * k + i < 50 {
        let q = (10 + 5 * k + i, 34 + j);
        assert(m.dom().contains(q));
        lemma_stamp_text_box(m, bytes, (10, 34), w, k, i, j);
        lemma_stamp_text_elsewhere(m1, bytes, (10 + 5 * w.len() as int, 34), false, sw, q);
        lemma_stamp_text_elsewhere(m2, bytes, (10, 41), false, p, q);
        lemma_stamp_text_elsewhere(m3, bytes, (10 + 5 * p.len() as int, 41), false, sp, q);
        lemma_stamp_text_elsewhere(m4, bytes, (11, 48), true, sh, q);
        lemma_compact_frames_spare(m5, bar_rows, q);
    }
    if 10 + 5 * w.len() + i < 50 {
        let q = (10 + 5 * w.len() + i, 34 + j);
        assert(m.dom().contains(q));
        lemma_stamp_text_elsewhere(m, bytes, (10, 34), false, w, q);
        assert(sw[0] == 'W');
        lemma_stamp_text_box(m1, bytes, (10 + 5 * w.len() as int, 34), sw, 0, i, j);
        lemma_stamp_text_elsewhere(m2, bytes, (10, 41), false, p, q);
        lemma_stamp_text_elsewhere(m3, bytes, (10 + 5 * p.len() as int, 41), false, sp, q);
        lemma_stamp_text_elsewhere(m4, bytes, (11, 48), true, sh, q);
        lemma_compact_frames_spare(m5, bar_rows, q);
    }
    if 0 <= k < p.len() && 10 + 5 * k + i < 50 {
        let q = (10 + 5 * k + i, 41 + j);
        assert(m.dom().contains(q));
        lemma_stamp_text_elsewhere(m, bytes, (10, 34), false, w, q);
        lemma_stamp_text_elsewhere(m1, bytes, (10 + 5 * w.len() as int, 34), false, sw, q);
        lemma_stamp_text_box(m2, bytes, (10, 41), p, k, i, j);
        lemma_stamp_text_elsewhere(m3, bytes, (10 + 5 * p.len() as int, 41), false, sp, q);
        lemma_stamp_text_elsewhere(m4, bytes, (11, 48), true, sh, q);
        lemma_compact_frames_spare(m5, bar_rows, q);
    }
    if 10 + 5 * p.len() + i < 50 {
        let q = (10 + 5 * p.len() + i, 41 + j);
        assert(m.dom().contains(q));
        lemma_stamp_text_elsewhere(m, bytes, (10, 34), false, w, q);
        lemma_stamp_text_elsewhere(m1, bytes, (10 + 5 * w.len() as int, 34), false, sw, q);
        lemma_stamp_text_elsewhere(m2, bytes, (10, 41), false, p, q);
        assert(sp[0] == '%');
        lemma_stamp_text_box(m3, bytes, (10 + 5 * p.len() as int, 41), sp, 0, i, j);
        lemma_stamp_text_elsewhere(m4, bytes, (11, 48), true, sh, q);
        lemma_compact_frames_spare(m5, bar_rows, q);
    }
}

/// A font holding glyph 38 (`%`, the last of the small set) holds every
/// glyph of the small set.
proof fn lemma_small_font_complete(font: &Font)
    requires
        font.has_glyph(38),
    ensures
        forall|c: char| basic_covered(font, c),
{
    assert forall|c: char| basic_covered(font, c) by {
        if let Some(n) = basic_glyph_index(c) {
            assert(0 <= n <= 38);
            assert((25 * n + 24) / 8 <= (25 * 38 + 24) / 8);
        }
    }
}

/// A text without a newline, starting at `start`, fits when its last
/// glyph still ends within `u32` (and, inverted, starts at least one pixel
/// from the edges).
proof fn lemma_stamp_fits_one_line(start: (int, int), invert: bool, s: Seq<char>)
    requires
        forall|k: int| 0 <= k < s.len() ==> #[trigger] s[k] != '\n',
        0 <= start.0,
        0 <= start.1,
        start.0 + 5 * s.len() + 5 <= u32::MAX,
        start.1 + 5 <= u32::MAX,
        invert ==> start.0 >= 1 && start.1 >= 1,
    ensures
        stamp_fits(start, invert, s),
{
    assert forall|k: int| 0 <= k < s.len() implies pen_fits(
        place(pen(start, #[trigger] s.take(k)), start.0, s[k]),
        invert,
        s[k],
    ) by {
        assert forall|i: int| 0 <= i < s.take(k).len() implies #[trigger] s.take(k)[i] != '\n' by {
            assert(s.take(k)[i] == s[i]);
        }
        lemma_pen_one_line(start, s.take(k));
    }
}

/// Draws the compact heater screen (see `compact_screen`) for a power of
/// `watts` watts and `percent` percent, with a bar `bar_rows` rows high.
pub fn draw_compact(canvas: &mut Canvas, font: &Font, watts: u32, percent: u32, bar_rows: u32)
    requires
        old(canvas).well_formed(),
        font.has_glyph(38),
    ensures
        final(canvas).well_formed(),
        final(canvas).columns() == old(canvas).columns(),
        final(canvas).rows() == old(canvas).rows(),
        final(canvas)@ == compact_screen(old(canvas)@, font@, watts as nat, percent as nat, bar_rows as int),
{
    proof {
        reveal_strlit("W");
        reveal_strlit("%");
        reveal_strlit("HEATING");
        lemma_small_font_complete(font);
        lemma_decimal_positional(watts as nat);
        lemma_decimal_positional(percent as nat);
        lemma_decimal_is_digits(watts as nat);
        lemma_decimal_is_digits(percent as nat);
        lemma_decimal_short(watts as nat);
        lemma_decimal_short(percent as nat);
        let w = decimal(watts as nat);
        let p = decimal(percent as nat);
        assert forall|k: int| 0 <= k < w.len() implies #[trigger] w[k] != '\n' by {
            assert(0x30 <= w[k] as int <= 0x39);
        }
        assert forall|k: int| 0 <= k < p.len() implies #[trigger] p[k] != '\n' by {
            assert(0x30 <= p[k] as int <= 0x39);
        }
        lemma_stamp_fits_one_line((10, 34), false, w);
        lemma_stamp_fits_one_line((10 + 5 * w.len() as int, 34), false, "W"@);
        lemma_stamp_fits_one_line((10, 41), false, p);
        lemma_stamp_fits_one_line((10 + 5 * p.len() as int, 41), false, "%"@);
        lemma_stamp_fits_one_line((11, 48), true, "HEATING"@);
    }
    let n = blit_int(canvas, font, (10, 34), false, watts);
    blit_str(canvas, font, (10 + CHAR_WIDTH * n, 34), false, "W");
    let n = blit_int(canvas, font, (10, 41), false, percent);
    blit_str(canvas, font, (10 + CHAR_WIDTH * n, 41), false, "%");
    blit_str(canvas, font, (11, 48), true, "HEATING");
    draw_progress_vertical(canvas, [(0, 0), (6, 63)], bar_rows);
    frame(canvas, [(0, 0), (6, 63)]);
    frame(canvas, [(8, 0), (50, 30)]);
    frame(canvas, [(8, 32), (50, 63)]);
}

} // verus!
