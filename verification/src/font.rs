use vstd::prelude::*;
use vstd::string::StrSliceExecFns;
use vstd::arithmetic::div_mod::lemma_div_denominator;
use crate::geometry::{Vec2, Bounds};
use crate::paint::{paint, only, nothing, lemma_paint_step, lemma_paint_same, lemma_paint_nothing, lemma_paint_domain};
use crate::ui::{Ui, plot};
use crate::canvas::Canvas;

verus! {

/// Width and height of a glyph, in pixels.
pub const CHAR_WIDTH: u32 = 5;
pub const CHAR_HEIGHT: u32 = 5;

/// A 5x5 bitmap font. Glyph `n` occupies bits `25 * n .. 25 * n + 25` of the
/// byte string, least significant bit of each byte first, row by row from
/// the top, each row from the left.
pub struct Font {
    bytes: Vec<u8>,
}

impl View for Font {
    type V = Seq<u8>;

    closed spec fn view(&self) -> Seq<u8> {
        self.bytes@
    }
}

impl Font {
    pub fn new(bytes: Vec<u8>) -> (r: Font)
        ensures
            r@ == bytes@,
    {
        Font { bytes }
    }

    /// Number of bytes of the bitmap.
    pub fn len(&self) -> (r: usize)
        ensures
            r == self@.len(),
    {
        self.bytes.len()
    }

    /// Whether the byte string is long enough to hold glyph `index`.
    pub open spec fn has_glyph(&self, index: int) -> bool {
        (25 * index + 24) / 8 < self@.len()
    }

    /// Whether `c` has no glyph, or has one that the byte string holds.
    pub open spec fn covers(&self, c: char) -> bool {
        glyph_index(c) matches Some(n) ==> self.has_glyph(n)
    }

    /// Whether every character of `s` is covered.
    pub open spec fn covers_all(&self, s: Seq<char>) -> bool {
        forall|k: int| 0 <= k < s.len() ==> self.covers(#[trigger] s[k])
    }
}

/// The glyph of a character: digits are glyphs 0 to 9, capital letters 10 to
/// 35, then `.`, `°`, `%` and `:`; the private-use characters from U+E000 on
/// are the glyphs from 40 on. Any other character has none.
pub open spec fn glyph_index(c: char) -> Option<int> {
    let u = c as int;
    if 0x30 <= u <= 0x39 {
        Some(u - 0x30)
    } else if 0x41 <= u <= 0x5A {
        Some(u - 0x41 + 10)
    } else if c == '.' {
        Some(36)
    } else if c == '°' {
        Some(37)
    } else if c == '%' {
        Some(38)
    } else if c == ':' {
        Some(39)
    } else if u >= 0xE000 {
        Some(40 + u - 0xE000)
    } else {
        None
    }
}

/// Different characters never share a glyph; `0` has glyph 0 and `A` glyph
/// 10, and the digits and the capital letters take consecutive glyphs in
/// their order.
pub proof fn lemma_glyph_index_order(c1: char, c2: char)
    ensures
        glyph_index(c1) is Some && glyph_index(c1) == glyph_index(c2) ==> c1 as int == c2 as int,
        glyph_index('0') == Some(0int),
        glyph_index('A') == Some(10int),
        0x30 <= c1 as int <= 0x39 && 0x30 <= c2 as int <= 0x39 ==> glyph_index(c2)->0 - glyph_index(
            c1,
        )->0 == c2 as int - c1 as int,
        0x41 <= c1 as int <= 0x5A && 0x41 <= c2 as int <= 0x5A ==> glyph_index(c2)->0 - glyph_index(
            c1,
        )->0 == c2 as int - c1 as int,
{
}

/// Bit `bit` of the byte string, counting from the least significant bit of
/// the first byte.
pub open spec fn bit_of(bytes: Seq<u8>, bit: int) -> bool {
    (bytes[bit / 8] >> ((bit % 8) as u8)) & 1u8 == 1u8
}

/// The glyph index of `chr`, if the font has one for it.
pub fn font_index(chr: char) -> (r: Option<u32>)
    ensures
        r matches Some(n) ==> glyph_index(chr) == Some(n as int),
        r is None <==> glyph_index(chr) is None,
{
    let u = chr as u32;
    if 0x30 <= u && u <= 0x39 {
        Some(u - 0x30)
    } else if 0x41 <= u && u <= 0x5A {
        Some(u - 0x41 + 10)
    } else if chr == '.' {
        Some(36)
    } else if chr == '°' {
        Some(37)
    } else if chr == '%' {
        Some(38)
    } else if chr == ':' {
        Some(39)
    } else if u >= 0xE000 {
        Some(40 + u - 0xE000)
    } else {
        None
    }
}

/// Bit `bit` of the font's byte string.
pub fn font_bit(font: &Font, bit: u32) -> (r: bool)
    requires
        bit / 8 < font@.len(),
    ensures
        r == bit_of(font@, bit as int),
{
    let (byte, bit) = (bit / 8, bit % 8);
    font.bytes[byte as usize] >> bit & 1 == 1
}


/// The pixels glyph `index` sets, with its top-left pixel at offset
/// `(0, 0)`. An inverted glyph has its pixels flipped and gets a one-pixel
/// border on all four sides, without the corner pixels.
pub open spec fn glyph(bytes: Seq<u8>, index: int, invert: bool) -> spec_fn(int, int) -> Option<bool> {
    |i: int, j: int|
        if 0 <= i < 5 && 0 <= j < 5 {
            Some(bit_of(bytes, 25 * index + 5 * j + i) != invert)
        } else if invert && (((i == -1 || i == 5) && 0 <= j < 5) || ((j == -1 || j == 5) && 0 <= i
            < 5)) {
            Some(true)
        } else {
            None
        }
}

/// Each pixel of a glyph's 5x5 box is the font's bit for it, and the same
/// glyph written inverted has the negation of that bit there (a 0 bit is lit);
/// an inverted glyph also lights the one-pixel border around its box, and a
/// plain glyph writes nothing outside its box.
pub proof fn lemma_glyph_bits(bytes: Seq<u8>, n: int, i: int, j: int)
    ensures
        0 <= i < 5 && 0 <= j < 5 ==> glyph(bytes, n, false)(i, j) == Some(
            bit_of(bytes, 25 * n + 5 * j + i),
        ),
        0 <= i < 5 && 0 <= j < 5 ==> glyph(bytes, n, true)(i, j) == Some(
            !bit_of(bytes, 25 * n + 5 * j + i),
        ),
        0 <= i < 5 && 0 <= j < 5 ==> glyph(bytes, n, true)(i, j)->0 == !glyph(bytes, n, false)(
            i,
            j,
        )->0,
        !(0 <= i < 5 && 0 <= j < 5) ==> glyph(bytes, n, false)(i, j) is None,
        ((i == -1 || i == 5) && 0 <= j < 5) || ((j == -1 || j == 5) && 0 <= i < 5) ==> glyph(
            bytes,
            n,
            true,
        )(i, j) == Some(true),
        !(-1 <= i <= 5 && -1 <= j <= 5) ==> glyph(bytes, n, true)(i, j) is None,
{
}

/// Writing a character that has a glyph sets each pixel of its box that the
/// clip holds to the font's bit for it, negated when written inverted.
pub proof fn lemma_with_char_pixel(
    m: Map<(int, int), bool>,
    clip: Bounds,
    org: (int, int),
    bytes: Seq<u8>,
    p: (int, int),
    invert: bool,
    c: char,
    i: int,
    j: int,
)
    requires
        glyph_index(c) is Some,
        0 <= i < 5,
        0 <= j < 5,
        m.dom().contains((org.0 + p.0 + i, org.1 + p.1 + j)),
        clip.holds(org.0 + p.0 + i, org.1 + p.1 + j),
    ensures
        !invert ==> with_char(m, clip, org, bytes, p, invert, c)[(org.0 + p.0 + i, org.1 + p.1 + j)]
            == bit_of(bytes, 25 * glyph_index(c)->0 + 5 * j + i),
        invert ==> with_char(m, clip, org, bytes, p, invert, c)[(org.0 + p.0 + i, org.1 + p.1 + j)]
            == !bit_of(bytes, 25 * glyph_index(c)->0 + 5 * j + i),
{
    lemma_glyph_bits(bytes, glyph_index(c)->0, i, j);
}

/// Writing a text never changes which points form the grid.
pub proof fn lemma_with_text_domain(
    m: Map<(int, int), bool>,
    clip: Bounds,
    org: (int, int),
    bytes: Seq<u8>,
    start: (int, int),
    invert: bool,
    s: Seq<char>,
)
    ensures
        with_text(m, clip, org, bytes, start, invert, s).dom() == m.dom(),
    decreases s.len(),
{
    if s.len() > 0 {
        lemma_with_text_domain(m, clip, org, bytes, start, invert, s.drop_last());
        let rest = with_text(m, clip, org, bytes, start, invert, s.drop_last());
        let p = place(pen(start, s.drop_last()), start.0, s.last());
        if let Some(n) = glyph_index(s.last()) {
            lemma_paint_domain(rest, clip, (org.0 + p.0, org.1 + p.1), glyph(bytes, n, invert));
        }
    }
}

/// Writing a text keeps every pixel that the clip does not hold.
pub proof fn lemma_with_text_outside_clip(
    m: Map<(int, int), bool>,
    clip: Bounds,
    org: (int, int),
    bytes: Seq<u8>,
    start: (int, int),
    invert: bool,
    s: Seq<char>,
    q: (int, int),
)
    requires
        m.dom().contains(q),
        !clip.holds(q.0, q.1),
    ensures
        with_text(m, clip, org, bytes, start, invert, s)[q] == m[q],
    decreases s.len(),
{
    if s.len() > 0 {
        lemma_with_text_outside_clip(m, clip, org, bytes, start, invert, s.drop_last(), q);
        lemma_with_text_domain(m, clip, org, bytes, start, invert, s.drop_last());
    }
}

/// Writing a text without a newline keeps every pixel outside the boxes of
/// its glyphs: above or below the row of boxes, left of the first box or
/// right of the last (an inverted text also covers the one-pixel border
/// around each box); positions are relative to `org`.
pub proof fn lemma_with_text_elsewhere(
    m: Map<(int, int), bool>,
    clip: Bounds,
    org: (int, int),
    bytes: Seq<u8>,
    start: (int, int),
    invert: bool,
    s: Seq<char>,
    q: (int, int),
)
    requires
        forall|k: int| 0 <= k < s.len() ==> #[trigger] s[k] != '\n',
        m.dom().contains(q),
        ({
            let (x, y) = (q.0 - org.0, q.1 - org.1);
            y < start.1 - 1 || y > start.1 + 5 || x < start.0 - 1 || x > start.0 + 5 * s.len() || (
            !invert && (y < start.1 || y > start.1 + 4 || x < start.0 || x >= start.0 + 5 * s.len()))
        }),
    ensures
        with_text(m, clip, org, bytes, start, invert, s)[q] == m[q],
    decreases s.len(),
{
    if s.len() > 0 {
        let t = s.drop_last();
        assert forall|k: int| 0 <= k < t.len() implies #[trigger] t[k] != '\n' by {
            assert(t[k] == s[k]);
        }
        lemma_with_text_elsewhere(m, clip, org, bytes, start, invert, t, q);
        lemma_with_text_domain(m, clip, org, bytes, start, invert, t);
        lemma_pen_one_line(start, t);
        assert(s.last() == s[s.len() - 1]);
        let p = place(pen(start, t), start.0, s.last());
        assert(p == (start.0 + 5 * t.len(), start.1));
        if let Some(n) = glyph_index(s.last()) {
            lemma_glyph_bits(bytes, n, q.0 - org.0 - p.0, q.1 - org.1 - p.1);
        }
    }
}

/// Written plainly, a text without a newline shows in the box of its `k`-th
/// character, `5 * k` pixels right of the start, that character's glyph:
/// the font's bit for each pixel of the box that the clip holds.
pub proof fn lemma_with_text_box(
    m: Map<(int, int), bool>,
    clip: Bounds,
    org: (int, int),
    bytes: Seq<u8>,
    start: (int, int),
    s: Seq<char>,
    k: int,
    i: int,
    j: int,
)
    requires
        forall|l: int| 0 <= l < s.len() ==> #[trigger] s[l] != '\n',
        0 <= k < s.len(),
        0 <= i < 5,
        0 <= j < 5,
        glyph_index(s[k]) is Some,
        m.dom().contains((org.0 + start.0 + 5 * k + i, org.1 + start.1 + j)),
        clip.holds(org.0 + start.0 + 5 * k + i, org.1 + start.1 + j),
    ensures
        with_text(m, clip, org, bytes, start, false, s)[(org.0 + start.0 + 5 * k + i, org.1 + start.1 + j)]
            == bit_of(bytes, 25 * glyph_index(s[k])->0 + 5 * j + i),
    decreases s.len(),
{
    let t = s.drop_last();
    assert forall|l: int| 0 <= l < t.len() implies #[trigger] t[l] != '\n' by {
        assert(t[l] == s[l]);
    }
    lemma_with_text_domain(m, clip, org, bytes, start, false, t);
    lemma_pen_one_line(start, t);
    assert(s.last() == s[s.len() - 1]);
    let p = place(pen(start, t), start.0, s.last());
    assert(p == (start.0 + 5 * t.len(), start.1));
    let q = (org.0 + start.0 + 5 * k + i, org.1 + start.1 + j);
    if k < t.len() {
        assert(t[k] == s[k]);
        lemma_with_text_box(m, clip, org, bytes, start, t, k, i, j);
        if let Some(n) = glyph_index(s.last()) {
            lemma_glyph_bits(bytes, n, q.0 - org.0 - p.0, q.1 - org.1 - p.1);
        }
    } else {
        lemma_glyph_bits(bytes, glyph_index(s[k])->0, i, j);
    }
}

/// The pixels `m` becomes when `c` is written with its top-left pixel at
/// `org + p`, clipped to `clip`; a character without a glyph draws nothing.
pub open spec fn with_char(
    m: Map<(int, int), bool>,
    clip: Bounds,
    org: (int, int),
    bytes: Seq<u8>,
    p: (int, int),
    invert: bool,
    c: char,
) -> Map<(int, int), bool> {
    match glyph_index(c) {
        Some(n) => paint(m, clip, (org.0 + p.0, org.1 + p.1), glyph(bytes, n, invert)),
        None => m,
    }
}

/// Where a character is written when the pen stands at `p`: a newline moves
/// it back to column `left`, one glyph height down.
pub open spec fn place(p: (int, int), left: int, c: char) -> (int, int) {
    if c == '\n' {
        (left, p.1 + 5)
    } else {
        p
    }
}

/// The pen position after writing `s` from `start`: each character, a
/// newline included, advances the pen by one glyph width.
pub open spec fn pen(start: (int, int), s: Seq<char>) -> (int, int)
    decreases s.len(),
{
    if s.len() == 0 {
        start
    } else {
        let q = place(pen(start, s.drop_last()), start.0, s.last());
        (q.0 + 5, q.1)
    }
}

/// The pixels `m` becomes when `s` is written from `start`, one character
/// after the other.
pub open spec fn with_text(
    m: Map<(int, int), bool>,
    clip: Bounds,
    org: (int, int),
    bytes: Seq<u8>,
    start: (int, int),
    invert: bool,
    s: Seq<char>,
) -> Map<(int, int), bool>
    decreases s.len(),
{
    if s.len() == 0 {
        m
    } else {
        let q = place(pen(start, s.drop_last()), start.0, s.last());
        with_char(
            with_text(m, clip, org, bytes, start, invert, s.drop_last()),
            clip,
            org,
            bytes,
            q,
            invert,
            s.last(),
        )
    }
}

/// Whether the glyph of `c` (if it has one) written at the relative
/// position `p` has an absolute position for each of its pixels, and for
/// each pixel of its border when inverted (which also needs `p` to be at
/// least 1 on both axes).
pub open spec fn glyph_fits(min: Vec2, p: (int, int), invert: bool, c: char) -> bool {
    glyph_index(c) is Some ==> glyph_room(min, p, invert)
}

/// Whether a glyph written at the relative position `p` has an absolute
/// position for each of its pixels, and for each pixel of its border when
/// inverted (which also needs `p` to be at least 1 on both axes).
pub open spec fn glyph_room(min: Vec2, p: (int, int), invert: bool) -> bool {
    let reach: int = if invert {
        5
    } else {
        4
    };
    &&& min.x + p.0 + reach <= u32::MAX
    &&& min.y + p.1 + reach <= u32::MAX
    &&& invert ==> p.0 >= 1 && p.1 >= 1
}

/// Whether `c` can be written at the pen position `p` (already moved for a
/// newline) and the pen then advanced by one glyph width.
pub open spec fn char_fits(min: Vec2, p: (int, int), invert: bool, c: char) -> bool {
    &&& p.0 + 5 <= u32::MAX
    &&& p.1 <= u32::MAX
    &&& glyph_fits(min, p, invert, c)
}

/// Whether every character of `s`, written from `start`, fits.
pub open spec fn text_fits(min: Vec2, start: (int, int), invert: bool, s: Seq<char>) -> bool {
    forall|k: int|
        0 <= k < s.len() ==> char_fits(
            min,
            place(pen(start, #[trigger] s.take(k)), start.0, s[k]),
            invert,
            s[k],
        )
}

/// The decimal digits of `n` without leading zeros (none for zero).
pub open spec fn digits_of(n: nat) -> Seq<char>
    decreases n,
{
    if n == 0 {
        Seq::empty()
    } else {
        digits_of(n / 10).push(digit_char((n % 10) as nat))
    }
}

pub open spec fn digit_char(d: nat) -> char {
    (0x30 + d) as char
}

/// The decimal representation of `n`: `0` for zero.
pub open spec fn decimal(n: nat) -> Seq<char> {
    if n == 0 {
        seq!['0']
    } else {
        digits_of(n)
    }
}

/// The pixels `m` becomes when `prefix`, the decimal digits of `value` and
/// `suffix` are written from `pos`, each part starting one glyph width per
/// character of the parts before it to the right of `pos`.
pub open spec fn with_value(
    m: Map<(int, int), bool>,
    clip: Bounds,
    org: (int, int),
    bytes: Seq<u8>,
    pos: (int, int),
    prefix: Seq<char>,
    suffix: Seq<char>,
    value: nat,
) -> Map<(int, int), bool> {
    let (x, y) = pos;
    let (np, nd) = (prefix.len() as int, decimal(value).len() as int);
    with_text(
        with_text(
            with_text(m, clip, org, bytes, (x, y), false, prefix),
            clip,
            org,
            bytes,
            (x + 5 * np, y),
            false,
            decimal(value),
        ),
        clip,
        org,
        bytes,
        (x + 5 * (np + nd), y),
        false,
        suffix,
    )
}

/// Whether `s` holds no newline and only characters below U+E009 (which
/// have, if any, one of the first 49 glyphs).
pub open spec fn plain_text(s: Seq<char>) -> bool {
    forall|k: int| 0 <= k < s.len() ==> ((#[trigger] s[k]) as int) < 0xE009 && s[k] != '\n'
}

/// A plain one-line text whose last glyph ends within `u32` fits, and a
/// font holding glyph 48 covers it.
pub proof fn lemma_plain_text_ok(font: &Font, min: Vec2, start: (int, int), invert: bool, s: Seq<char>)
    requires
        plain_text(s),
        font.has_glyph(48),
        0 <= start.0,
        0 <= start.1,
        min.x + start.0 + 5 * s.len() + 5 <= u32::MAX,
        min.y + start.1 + 5 <= u32::MAX,
        invert ==> start.0 >= 1 && start.1 >= 1,
    ensures
        font.covers_all(s),
        text_fits(min, start, invert, s),
{
    assert forall|k: int| 0 <= k < s.len() implies font.covers(#[trigger] s[k]) by {
        if let Some(n) = glyph_index(s[k]) {
            assert(n <= 48);
            assert((25 * n + 24) / 8 <= (25 * 48 + 24) / 8);
        }
    }
    assert forall|k: int| 0 <= k < s.len() implies char_fits(
        min,
        place(pen(start, #[trigger] s.take(k)), start.0, s[k]),
        invert,
        s[k],
    ) by {
        assert forall|i: int| 0 <= i < s.take(k).len() implies #[trigger] s.take(k)[i] != '\n' by {
            assert(s.take(k)[i] == s[i]);
        }
        lemma_pen_one_line(start, s.take(k));
    }
}

/// The decimal digits of a number form a plain text.
pub proof fn lemma_decimal_plain(n: nat)
    ensures
        plain_text(decimal(n)),
{
    lemma_decimal_is_digits(n);
}

/// Writes the glyph of `chr` with its top-left pixel at `pos`, relative to
/// the bounds of `ui`; a character without a glyph draws nothing.
pub fn blit_char(ui: &mut Ui, pos: Vec2, invert: bool, chr: char)
    requires
        old(ui).well_formed(),
        old(ui).font.covers(chr),
        glyph_fits(old(ui).bounds.min, (pos.x as int, pos.y as int), invert, chr),
    ensures
        final(ui).well_formed(),
        final(ui).bounds == old(ui).bounds,
        final(ui).font == old(ui).font,
        final(ui).canvas.columns() == old(ui).canvas.columns(),
        final(ui).canvas.rows() == old(ui).canvas.rows(),
        final(ui).pixels() == with_char(
            old(ui).pixels(),
            old(ui).bounds,
            old(ui).origin(),
            old(ui).font@,
            (pos.x as int, pos.y as int),
            invert,
            chr,
        ),
{
    if let Some(n) = font_index(chr) {
        glyph_on(&mut ui.canvas, ui.bounds, ui.font, pos, invert, n);
    }
}

/// Draws glyph `index` of `font` with its top-left pixel at `pos`,
/// relative to and clipped to `clip`.
pub(crate) fn glyph_on(canvas: &mut Canvas, clip: Bounds, font: &Font, pos: Vec2, invert: bool, index: u32)
    requires
        old(canvas).well_formed(),
        font.has_glyph(index as int),
        25 * index + 24 <= u32::MAX,
        glyph_room(clip.min, (pos.x as int, pos.y as int), invert),
    ensures
        final(canvas).well_formed(),
        final(canvas).columns() == old(canvas).columns(),
        final(canvas).rows() == old(canvas).rows(),
        final(canvas)@ == paint(
            old(canvas)@,
            clip,
            (clip.min.x + pos.x, clip.min.y + pos.y),
            glyph(font@, index as int, invert),
        ),
{
    let ghost start = canvas@;
    let ghost org = (clip.min.x + pos.x, clip.min.y + pos.y);
    let ghost full = glyph(font@, index as int, invert);
    proof {
        lemma_paint_same(start, clip, org, nothing(), only(full, |i: int, j: int| 0 <= i < 5 && 0 <= j < 0));
        lemma_paint_nothing(start, clip, org);
    }
    let mut y: u32 = 0;
    while y < CHAR_HEIGHT
        invariant
            canvas.well_formed(),
            canvas.columns() == old(canvas).columns(),
            canvas.rows() == old(canvas).rows(),
            org == (clip.min.x + pos.x, clip.min.y + pos.y),
            full == glyph(font@, index as int, invert),
            font.has_glyph(index as int),
            glyph_room(clip.min, (pos.x as int, pos.y as int), invert),
                25 * index + 24 <= u32::MAX,
            y <= 5,
            canvas@ == paint(start, clip, org, only(full, |i: int, j: int| 0 <= i < 5 && 0 <= j < y)),
        decreases 5 - y,
    {
        let mut x: u32 = 0;
        while x < CHAR_WIDTH
            invariant
                canvas.well_formed(),
                canvas.columns() == old(canvas).columns(),
                canvas.rows() == old(canvas).rows(),
                org == (clip.min.x + pos.x, clip.min.y + pos.y),
                full == glyph(font@, index as int, invert),
                font.has_glyph(index as int),
                glyph_room(clip.min, (pos.x as int, pos.y as int), invert),
                25 * index + 24 <= u32::MAX,
                y < 5,
                x <= 5,
                canvas@ == paint(
                    start,
                    clip,
                    org,
                    only(full, |i: int, j: int| 0 <= i < 5 && 0 <= j < 5 && (j < y || (j == y && i < x))),
                ),
            decreases 5 - x,
        {
            let bit_index = (CHAR_WIDTH * CHAR_HEIGHT) * index + y * CHAR_WIDTH + x;
            let value = font_bit(font, bit_index) ^ invert;
            plot(canvas, clip, x + pos.x, y + pos.y, value);
            proof {
                lemma_paint_step(
                    start,
                    clip,
                    org,
                    only(full, |i: int, j: int| 0 <= i < 5 && 0 <= j < 5 && (j < y || (j == y && i < x))),
                    only(full, |i: int, j: int| 0 <= i < 5 && 0 <= j < 5 && (j < y || (j == y && i < x + 1))),
                    x as int,
                    y as int,
                    value,
                );
            }
            x = x + 1;
        }
        proof {
            lemma_paint_same(
                start,
                clip,
                org,
                only(full, |i: int, j: int| 0 <= i < 5 && 0 <= j < 5 && (j < y || (j == y && i < x))),
                only(full, |i: int, j: int| 0 <= i < 5 && 0 <= j < y + 1),
            );
        }
        y = y + 1;
    }
    proof {
        lemma_paint_same(
            start,
            clip,
            org,
            only(full, |i: int, j: int| 0 <= i < 5 && 0 <= j < y),
            only(full, |i: int, j: int| (0 <= i < 5 && 0 <= j < 5) || ((i == -1 || i == 5) && 0 <= j < 0)),
        );
    }
    if invert {
        let mut y: u32 = 0;
        while y < CHAR_HEIGHT
            invariant
                canvas.well_formed(),
                canvas.columns() == old(canvas).columns(),
                canvas.rows() == old(canvas).rows(),
                org == (clip.min.x + pos.x, clip.min.y + pos.y),
                full == glyph(font@, index as int, invert),
                invert,
                glyph_room(clip.min, (pos.x as int, pos.y as int), invert),
                25 * index + 24 <= u32::MAX,
                y <= 5,
                canvas@ == paint(
                    start,
                    clip,
                    org,
                    only(full, |i: int, j: int| (0 <= i < 5 && 0 <= j < 5) || ((i == -1 || i == 5) && 0 <= j < y)),
                ),
            decreases 5 - y,
        {
            let ghost s0 = only(full, |i: int, j: int| (0 <= i < 5 && 0 <= j < 5) || ((i == -1 || i == 5) && 0 <= j < y));
            let ghost s1 = only(full, |i: int, j: int| (0 <= i < 5 && 0 <= j < 5) || ((i == -1 && 0 <= j < y + 1) || (i == 5 && 0 <= j < y)));
            let ghost s2 = only(full, |i: int, j: int| (0 <= i < 5 && 0 <= j < 5) || ((i == -1 || i == 5) && 0 <= j < y + 1));
            plot(canvas, clip, pos.x - 1, y + pos.y, true);
            proof {
                lemma_paint_step(start, clip, org, s0, s1, -1, y as int, true);
            }
            plot(canvas, clip, pos.x + CHAR_WIDTH, y + pos.y, true);
            proof {
                lemma_paint_step(start, clip, org, s1, s2, 5, y as int, true);
            }
            y = y + 1;
        }
        let mut x: u32 = 0;
        while x < CHAR_WIDTH
            invariant
                canvas.well_formed(),
                canvas.columns() == old(canvas).columns(),
                canvas.rows() == old(canvas).rows(),
                org == (clip.min.x + pos.x, clip.min.y + pos.y),
                full == glyph(font@, index as int, invert),
                invert,
                glyph_room(clip.min, (pos.x as int, pos.y as int), invert),
                25 * index + 24 <= u32::MAX,
                x <= 5,
                canvas@ == paint(
                    start,
                    clip,
                    org,
                    only(full, |i: int, j: int| (-1 <= i <= 5 && 0 <= j < 5) || ((j == -1 || j == 5) && 0 <= i < x)),
                ),
            decreases 5 - x,
        {
            let ghost s0 = only(full, |i: int, j: int| (-1 <= i <= 5 && 0 <= j < 5) || ((j == -1 || j == 5) && 0 <= i < x));
            let ghost s1 = only(full, |i: int, j: int| (-1 <= i <= 5 && 0 <= j < 5) || ((j == -1 && 0 <= i < x + 1) || (j == 5 && 0 <= i < x)));
            let ghost s2 = only(full, |i: int, j: int| (-1 <= i <= 5 && 0 <= j < 5) || ((j == -1 || j == 5) && 0 <= i < x + 1));
            plot(canvas, clip, x + pos.x, pos.y - 1, true);
            proof {
                lemma_paint_step(start, clip, org, s0, s1, x as int, -1, true);
            }
            plot(canvas, clip, x + pos.x, pos.y + CHAR_HEIGHT, true);
            proof {
                lemma_paint_step(start, clip, org, s1, s2, x as int, 5, true);
            }
            x = x + 1;
        }
        proof {
            lemma_paint_same(
                start,
                clip,
                org,
                only(full, |i: int, j: int| (-1 <= i <= 5 && 0 <= j < 5) || ((j == -1 || j == 5) && 0 <= i < x)),
                full,
            );
        }
    } else {
        proof {
            lemma_paint_same(
                start,
                clip,
                org,
                only(full, |i: int, j: int| (0 <= i < 5 && 0 <= j < 5) || ((i == -1 || i == 5) && 0 <= j < 0)),
                full,
            );
        }
    }
}


pub(crate) proof fn lemma_take_step(s: Seq<char>, k: int)
    requires
        0 <= k < s.len(),
    ensures
        s.take(k + 1).drop_last() == s.take(k),
        s.take(k + 1).last() == s[k],
        s.take(k + 1).len() == k + 1,
{
    assert(s.take(k + 1).drop_last() =~= s.take(k));
}

impl<'f> Ui<'f> {
    /// Writes `str` from `pos`, one glyph width per character; a newline
    /// returns to the starting column one glyph height down (and still
    /// advances the pen).
    fn _draw_string(&mut self, pos: (u32, u32), invert: bool, str: &str)
        requires
            old(self).well_formed(),
            old(self).font.covers_all(str@),
            text_fits(old(self).bounds.min, (pos.0 as int, pos.1 as int), invert, str@),
        ensures
            final(self).well_formed(),
            final(self).bounds == old(self).bounds,
            final(self).font == old(self).font,
            final(self).canvas.columns() == old(self).canvas.columns(),
            final(self).canvas.rows() == old(self).canvas.rows(),
            final(self).pixels() == with_text(
                old(self).pixels(),
                old(self).bounds,
                old(self).origin(),
                old(self).font@,
                (pos.0 as int, pos.1 as int),
                invert,
                str@,
            ),
    {
        broadcast use vstd::string::group_string_axioms;

        let (x, y) = pos;
        let origin = Vec2::new(x, y);
        let mut pos = origin;
        let ghost start = (x as int, y as int);
        let ghost s = str@;
        for chr in it: str.chars()
            invariant
                s == str@,
                it.seq() == s,
                self.well_formed(),
                self.bounds == old(self).bounds,
                self.font == old(self).font,
                self.canvas.columns() == old(self).canvas.columns(),
                self.canvas.rows() == old(self).canvas.rows(),
                self.font.covers_all(s),
                text_fits(self.bounds.min, start, invert, s),
                origin.x == x && origin.y == y,
                start == (x as int, y as int),
                (pos.x as int, pos.y as int) == pen(start, s.take(it.index() as int)),
                self.pixels() == with_text(
                    old(self).pixels(),
                    old(self).bounds,
                    old(self).origin(),
                    old(self).font@,
                    start,
                    invert,
                    s.take(it.index() as int),
                ),
        {
            let ghost k = it.index() as int;
            proof {
                lemma_take_step(s, k);
                assert(char_fits(self.bounds.min, place(pen(start, s.take(k)), start.0, s[k]), invert, s[k]));
                assert(self.font.covers(s[k]));
                assert(chr == s[k]);
            }
            if chr == '\n' {
                pos.x = origin.x;
                pos.y = pos.y + CHAR_HEIGHT;
            }
            blit_char(self, pos, invert, chr);
            pos.x = pos.x + CHAR_WIDTH;
        }
        proof {
            assert(s.take(s.len() as int) =~= s);
        }
    }

    /// Writes `str` from `pos` (see `_draw_string`).
    pub fn draw_string(&mut self, pos: (u32, u32), str: &str)
        requires
            old(self).well_formed(),
            old(self).font.covers_all(str@),
            text_fits(old(self).bounds.min, (pos.0 as int, pos.1 as int), false, str@),
        ensures
            final(self).well_formed(),
            final(self).bounds == old(self).bounds,
            final(self).font == old(self).font,
            final(self).canvas.columns() == old(self).canvas.columns(),
            final(self).canvas.rows() == old(self).canvas.rows(),
            final(self).pixels() == with_text(
                old(self).pixels(),
                old(self).bounds,
                old(self).origin(),
                old(self).font@,
                (pos.0 as int, pos.1 as int),
                false,
                str@,
            ),
    {
        self._draw_string(pos, false, str);
    }

    /// Writes `str` from `pos` in inverted glyphs with borders.
    pub fn draw_string_inverted(&mut self, pos: (u32, u32), str: &str)
        requires
            old(self).well_formed(),
            old(self).font.covers_all(str@),
            text_fits(old(self).bounds.min, (pos.0 as int, pos.1 as int), true, str@),
        ensures
            final(self).well_formed(),
            final(self).bounds == old(self).bounds,
            final(self).font == old(self).font,
            final(self).canvas.columns() == old(self).canvas.columns(),
            final(self).canvas.rows() == old(self).canvas.rows(),
            final(self).pixels() == with_text(
                old(self).pixels(),
                old(self).bounds,
                old(self).origin(),
                old(self).font@,
                (pos.0 as int, pos.1 as int),
                true,
                str@,
            ),
    {
        self._draw_string(pos, true, str);
    }
}


/// The decimal digits of `number`, most significant first.
pub(crate) fn decimal_digits(number: u32) -> (r: Vec<char>)
    ensures
        r@ == decimal(number as nat),
{
    let mut digits: Vec<char> = Vec::new();
    let mut rest = number;
    while rest > 0
        invariant
            digits_of(number as nat) == digits_of(rest as nat) + digits@,
        decreases rest,
    {
        let d = (rest % 10) as u8;
        let c = (0x30u8 + d) as char;
        assert(c == digit_char((rest % 10) as nat));
        assert(digits_of(rest as nat) == digits_of((rest / 10) as nat).push(c));
        let ghost before = digits@;
        digits.insert(0, c);
        assert(digits@ =~= seq![c] + before);
        assert(digits_of((rest / 10) as nat).push(c) + before =~= digits_of((rest / 10) as nat) + digits@);
        rest = rest / 10;
    }
    if digits.len() == 0 {
        digits.push('0');
    }
    assert(digits@ == decimal(number as nat)) by {
        if number > 0 {
            assert(digits_of(0) + digits@ =~= digits@);
        } else {
            assert(digits@ =~= seq!['0']);
        }
    }
    digits
}

/// Every character of `digits_of(n)` is a decimal digit.
proof fn lemma_digits_are_digits(n: nat)
    ensures
        forall|k: int|
            0 <= k < digits_of(n).len() ==> 0x30 <= (#[trigger] digits_of(n)[k]) as int <= 0x39,
    decreases n,
{
    if n > 0 {
        lemma_digits_are_digits(n / 10);
        assert forall|k: int| 0 <= k < digits_of(n).len() implies 0x30 <= (
        #[trigger] digits_of(n)[k]) as int <= 0x39 by {
            if k < digits_of(n / 10).len() {
                assert(digits_of(n)[k] == digits_of(n / 10)[k]);
            }
        }
    }
}

/// Every character of `decimal(n)` is a decimal digit, in particular no newline.
pub proof fn lemma_decimal_is_digits(n: nat)
    ensures
        decimal(n).len() >= 1,
        forall|k: int|
            0 <= k < decimal(n).len() ==> 0x30 <= (#[trigger] decimal(n)[k]) as int <= 0x39,
{
    lemma_digits_are_digits(n);
    if n > 0 {
        assert(digits_of(n).len() >= 1);
    }
}

/// Writing a newline-free string advances the pen one glyph width per
/// character on the same row.
pub proof fn lemma_pen_one_line(start: (int, int), s: Seq<char>)
    requires
        forall|k: int| 0 <= k < s.len() ==> #[trigger] s[k] != '\n',
    ensures
        pen(start, s) == (start.0 + 5 * s.len(), start.1),
    decreases s.len(),
{
    if s.len() > 0 {
        assert forall|k: int| 0 <= k < s.drop_last().len() implies #[trigger] s.drop_last()[k] != '\n' by {
            assert(s.drop_last()[k] == s[k]);
        }
        lemma_pen_one_line(start, s.drop_last());
        assert(s.last() == s[s.len() - 1]);
    }
}

impl<'f> Ui<'f> {
    /// Writes `number` in decimal from `pos` and returns the number of digits
    /// written.
    pub fn draw_int(&mut self, pos: (u32, u32), number: u32) -> (r: u32)
        requires
            old(self).well_formed(),
            old(self).font.covers_all(decimal(number as nat)),
            text_fits(old(self).bounds.min, (pos.0 as int, pos.1 as int), false, decimal(number as nat)),
        ensures
            final(self).well_formed(),
            final(self).bounds == old(self).bounds,
            final(self).font == old(self).font,
            final(self).canvas.columns() == old(self).canvas.columns(),
            final(self).canvas.rows() == old(self).canvas.rows(),
            r == decimal(number as nat).len(),
            final(self).pixels() == with_text(
                old(self).pixels(),
                old(self).bounds,
                old(self).origin(),
                old(self).font@,
                (pos.0 as int, pos.1 as int),
                false,
                decimal(number as nat),
            ),
    {
        let (x, y) = pos;
        let digits = decimal_digits(number);
        let ghost s = decimal(number as nat);
        let ghost start = (x as int, y as int);
        proof {
            lemma_decimal_is_digits(number as nat);
            assert forall|k: int| 0 <= k < s.len() implies #[trigger] s[k] != '\n' by {
                assert(0x30 <= s[k] as int <= 0x39);
            }
            lemma_pen_one_line(start, s.take(s.len() - 1));
            assert(s.take(s.len() - 1).len() == s.len() - 1);
            assert(char_fits(self.bounds.min, place(pen(start, s.take(s.len() - 1)), start.0, s[s.len() - 1]), false, s[s.len() - 1]));
        }
        let mut origin = Vec2::new(x, y);
        let mut k: usize = 0;
        while k < digits.len()
            invariant
                digits@ == s,
                s == decimal(number as nat),
                start == (x as int, y as int),
                forall|j: int| 0 <= j < s.len() ==> #[trigger] s[j] != '\n',
                x + 5 * s.len() <= u32::MAX,
                self.well_formed(),
                self.bounds == old(self).bounds,
                self.font == old(self).font,
                self.canvas.columns() == old(self).canvas.columns(),
                self.canvas.rows() == old(self).canvas.rows(),
                self.font.covers_all(s),
                text_fits(self.bounds.min, start, false, s),
                k <= s.len(),
                (origin.x as int, origin.y as int) == pen(start, s.take(k as int)),
                self.pixels() == with_text(
                    old(self).pixels(),
                    old(self).bounds,
                    old(self).origin(),
                    old(self).font@,
                    start,
                    false,
                    s.take(k as int),
                ),
            decreases s.len() - k,
        {
            proof {
                lemma_take_step(s, k as int);
                assert(char_fits(self.bounds.min, place(pen(start, s.take(k as int)), start.0, s[k as int]), false, s[k as int]));
                assert(self.font.covers(s[k as int]));
            }
            blit_char(self, origin, false, digits[k]);
            origin.x = origin.x + CHAR_WIDTH;
            k = k + 1;
        }
        proof {
            assert(s.take(s.len() as int) =~= s);
        }
        digits.len() as u32
    }

    /// Writes `prefix`, then `value` in decimal, then `suffix`, each part
    /// starting one glyph width per character of the parts before it to the
    /// right of `pos`.
    pub fn draw_value(&mut self, pos: (u32, u32), prefix: &str, suffix: &str, value: u32)
        requires
            old(self).well_formed(),
            old(self).font.covers_all(prefix@),
            old(self).font.covers_all(decimal(value as nat)),
            old(self).font.covers_all(suffix@),
            pos.0 + 5 * (prefix@.len() + decimal(value as nat).len()) <= u32::MAX,
            text_fits(old(self).bounds.min, (pos.0 as int, pos.1 as int), false, prefix@),
            text_fits(
                old(self).bounds.min,
                (pos.0 + 5 * prefix@.len(), pos.1 as int),
                false,
                decimal(value as nat),
            ),
            text_fits(
                old(self).bounds.min,
                (pos.0 + 5 * (prefix@.len() + decimal(value as nat).len()), pos.1 as int),
                false,
                suffix@,
            ),
        ensures
            final(self).well_formed(),
            final(self).bounds == old(self).bounds,
            final(self).font == old(self).font,
            final(self).canvas.columns() == old(self).canvas.columns(),
            final(self).canvas.rows() == old(self).canvas.rows(),
            final(self).pixels() == with_value(
                old(self).pixels(),
                old(self).bounds,
                old(self).origin(),
                old(self).font@,
                (pos.0 as int, pos.1 as int),
                prefix@,
                suffix@,
                value as nat,
            ),
            (forall|k: int| 0 <= k < prefix@.len() ==> #[trigger] prefix@[k] != '\n') && (forall|
                k: int,
            |
                0 <= k < suffix@.len() ==> #[trigger] suffix@[k] != '\n') ==> final(self).pixels()
                == with_text(
                old(self).pixels(),
                old(self).bounds,
                old(self).origin(),
                old(self).font@,
                (pos.0 as int, pos.1 as int),
                false,
                prefix@ + decimal(value as nat) + suffix@,
            ),
    {
        proof {
            if (forall|k: int| 0 <= k < prefix@.len() ==> #[trigger] prefix@[k] != '\n') && (forall|
                k: int,
            |
                0 <= k < suffix@.len() ==> #[trigger] suffix@[k] != '\n') {
                lemma_value_is_one_text(
                    self.pixels(),
                    self.bounds,
                    self.origin(),
                    self.font@,
                    (pos.0 as int, pos.1 as int),
                    prefix@,
                    value as nat,
                    suffix@,
                );
            }
        }
        let (x, y) = pos;
        self.draw_string((x, y), prefix);
        let mut n = prefix.unicode_len() as u32;
        n = n + self.draw_int((x + CHAR_WIDTH * n, y), value);
        self.draw_string((x + CHAR_WIDTH * n, y), suffix);
    }
}


pub open spec fn pow10(k: nat) -> nat
    decreases k,
{
    if k == 0 {
        1
    } else {
        10 * pow10((k - 1) as nat)
    }
}

proof fn lemma_pow10_positive(k: nat)
    ensures
        pow10(k) >= 1,
    decreases k,
{
    if k > 0 {
        lemma_pow10_positive((k - 1) as nat);
    }
}

proof fn lemma_digits_of_positional(n: nat)
    requires
        n > 0,
    ensures
        digits_of(n).len() >= 1,
        pow10((digits_of(n).len() - 1) as nat) <= n < pow10(digits_of(n).len()),
        forall|k: int|
            0 <= k < digits_of(n).len() ==> #[trigger] digits_of(n)[k] == digit_char(
                ((n / pow10((digits_of(n).len() - 1 - k) as nat)) % 10) as nat,
            ),
    decreases n,
{
    let m = n / 10;
    if m == 0 {
        assert(digits_of(0).len() == 0);
        assert(digits_of(n) =~= seq![digit_char((n % 10) as nat)]);
        assert(pow10(0) == 1);
        assert(n / 1 == n);
        assert(pow10(1) == 10) by {
            assert(pow10(0) == 1);
        }
    } else {
        lemma_digits_of_positional(m);
        let d = digits_of(m).len();
        lemma_pow10_positive((d - 1) as nat);
        lemma_pow10_positive(d);
        assert(pow10(d + 1) == 10 * pow10(d));
        assert(pow10(d) == 10 * pow10((d - 1) as nat));
        assert(10 * pow10((d - 1) as nat) <= n < 10 * pow10(d)) by (nonlinear_arith)
            requires
                pow10((d - 1) as nat) <= m < pow10(d),
                m == n / 10,
                n >= 0,
        ;
        assert forall|k: int| 0 <= k < digits_of(n).len() implies #[trigger] digits_of(n)[k]
            == digit_char(((n / pow10((digits_of(n).len() - 1 - k) as nat)) % 10) as nat) by {
            if k < d {
                let e = (d - 1 - k) as nat;
                assert(digits_of(n)[k] == digits_of(m)[k]);
                lemma_pow10_positive(e);
                lemma_div_denominator(n as int, 10, pow10(e) as int);
                assert(pow10(e + 1) == 10 * pow10(e));
                assert(digits_of(n).len() == d + 1);
                assert((digits_of(n).len() - 1 - k) as nat == e + 1);
                assert(n / pow10(e + 1) == m / pow10(e));
                assert(digits_of(m)[k] == digit_char(((m / pow10((d - 1 - k) as nat)) % 10) as nat));
            } else {
                assert(k == d);
                assert(pow10(0) == 1);
                assert(n / 1 == n);
                assert(digits_of(n)[k] == digit_char((n % 10) as nat));
            }
        }
    }
}

/// `decimal(n)` is the positional decimal numeral of `n`: it has `d` digits
/// with `10^(d-1) <= n < 10^d` (a single `0` for zero), and its `k`-th
/// character is the digit `(n / 10^(d-1-k)) % 10`.
pub proof fn lemma_decimal_positional(n: nat)
    ensures
        decimal(n).len() >= 1,
        n < pow10(decimal(n).len()),
        n > 0 ==> pow10((decimal(n).len() - 1) as nat) <= n,
        forall|k: int|
            0 <= k < decimal(n).len() ==> #[trigger] decimal(n)[k] == digit_char(
                ((n / pow10((decimal(n).len() - 1 - k) as nat)) % 10) as nat,
            ),
{
    if n == 0 {
        assert(pow10(1) == 10) by {
            assert(pow10(0) == 1);
        }
        assert(pow10(0) == 1);
    } else {
        lemma_digits_of_positional(n);
    }
}


/// Writing a text made of two parts, the second without a newline, is
/// writing the first part and then the second from where the pen stopped;
/// the pen ends where it ends after the second part.
pub proof fn lemma_with_text_concat(
    m: Map<(int, int), bool>,
    clip: Bounds,
    org: (int, int),
    bytes: Seq<u8>,
    start: (int, int),
    invert: bool,
    s1: Seq<char>,
    s2: Seq<char>,
)
    requires
        forall|k: int| 0 <= k < s2.len() ==> #[trigger] s2[k] != '\n',
    ensures
        pen(start, s1 + s2) == pen(pen(start, s1), s2),
        with_text(m, clip, org, bytes, start, invert, s1 + s2) == with_text(
            with_text(m, clip, org, bytes, start, invert, s1),
            clip,
            org,
            bytes,
            pen(start, s1),
            invert,
            s2,
        ),
    decreases s2.len(),
{
    if s2.len() == 0 {
        assert(s1 + s2 =~= s1);
    } else {
        let t = s1 + s2;
        assert(t.drop_last() =~= s1 + s2.drop_last());
        assert(t.last() == s2.last());
        assert forall|k: int| 0 <= k < s2.drop_last().len() implies #[trigger] s2.drop_last()[k] != '\n' by {
            assert(s2.drop_last()[k] == s2[k]);
        }
        assert(s2.last() == s2[s2.len() - 1]);
        lemma_with_text_concat(m, clip, org, bytes, start, invert, s1, s2.drop_last());
    }
}


/// Writing a prefix, a number and a suffix (neither holding a newline) one
/// after the other, each from where the characters before it end, is
/// writing their concatenation as one text.
pub proof fn lemma_value_is_one_text(
    m: Map<(int, int), bool>,
    clip: Bounds,
    org: (int, int),
    bytes: Seq<u8>,
    start: (int, int),
    prefix: Seq<char>,
    value: nat,
    suffix: Seq<char>,
)
    requires
        forall|k: int| 0 <= k < prefix.len() ==> #[trigger] prefix[k] != '\n',
        forall|k: int| 0 <= k < suffix.len() ==> #[trigger] suffix[k] != '\n',
    ensures
        with_value(m, clip, org, bytes, start, prefix, suffix, value) == with_text(
            m,
            clip,
            org,
            bytes,
            start,
            false,
            prefix + decimal(value) + suffix,
        ),
{
    let d = decimal(value);
    lemma_decimal_is_digits(value);
    assert forall|k: int| 0 <= k < d.len() implies #[trigger] d[k] != '\n' by {
        assert(0x30 <= d[k] as int <= 0x39);
    }
    let pd = prefix + d;
    assert forall|k: int| 0 <= k < pd.len() implies #[trigger] pd[k] != '\n' by {
        if k < prefix.len() {
            assert(pd[k] == prefix[k]);
        } else {
            assert(pd[k] == d[k - prefix.len()]);
        }
    }
    lemma_pen_one_line(start, prefix);
    lemma_pen_one_line(start, pd);
    lemma_with_text_concat(m, clip, org, bytes, start, false, prefix, d);
    lemma_with_text_concat(m, clip, org, bytes, start, false, pd, suffix);
}


/// The pen moves over two parts, the second without a newline, as it moves
/// over the first and then over the second from where it stopped.
pub proof fn lemma_pen_concat(start: (int, int), s1: Seq<char>, s2: Seq<char>)
    requires
        forall|k: int| 0 <= k < s2.len() ==> #[trigger] s2[k] != '\n',
    ensures
        pen(start, s1 + s2) == pen(pen(start, s1), s2),
    decreases s2.len(),
{
    if s2.len() == 0 {
        assert(s1 + s2 =~= s1);
    } else {
        assert((s1 + s2).drop_last() =~= s1 + s2.drop_last());
        assert((s1 + s2).last() == s2.last());
        assert forall|k: int| 0 <= k < s2.drop_last().len() implies #[trigger] s2.drop_last()[k] != '\n' by {
            assert(s2.drop_last()[k] == s2[k]);
        }
        assert(s2.last() == s2[s2.len() - 1]);
        lemma_pen_concat(start, s1, s2.drop_last());
    }
}

/// A text made of two parts, the second without a newline, fits exactly
/// when the first part fits from the start and the second fits from where
/// the pen stopped; a font covers it exactly when it covers both parts.
pub proof fn lemma_text_fits_concat(
    font: &Font,
    min: Vec2,
    start: (int, int),
    invert: bool,
    s1: Seq<char>,
    s2: Seq<char>,
)
    requires
        forall|k: int| 0 <= k < s2.len() ==> #[trigger] s2[k] != '\n',
    ensures
        text_fits(min, start, invert, s1 + s2) <==> (text_fits(min, start, invert, s1)
            && text_fits(min, pen(start, s1), invert, s2)),
        font.covers_all(s1 + s2) <==> (font.covers_all(s1) && font.covers_all(s2)),
{
    let t = s1 + s2;
    let n = s1.len() as int;
    assert forall|j: int| 0 <= j < s2.len() implies place(pen(start, #[trigger] t.take(n + j)), start.0, t[n + j])
        == place(pen(pen(start, s1), s2.take(j)), pen(start, s1).0, s2[j]) by {
        assert(t.take(n + j) =~= s1 + s2.take(j));
        assert forall|k: int| 0 <= k < s2.take(j).len() implies #[trigger] s2.take(j)[k] != '\n' by {
            assert(s2.take(j)[k] == s2[k]);
        }
        lemma_pen_concat(start, s1, s2.take(j));
        assert(t[n + j] == s2[j]);
    }
    assert forall|k: int| 0 <= k < n implies #[trigger] t.take(k) == s1.take(k) && t[k] == s1[k] by {
        assert(t.take(k) =~= s1.take(k));
    }
    if text_fits(min, start, invert, t) {
        assert forall|k: int| 0 <= k < s1.len() implies char_fits(
            min,
            place(pen(start, #[trigger] s1.take(k)), start.0, s1[k]),
            invert,
            s1[k],
        ) by {
            assert(t.take(k) == s1.take(k) && t[k] == s1[k]);
        }
        assert forall|j: int| 0 <= j < s2.len() implies char_fits(
            min,
            place(pen(pen(start, s1), #[trigger] s2.take(j)), pen(start, s1).0, s2[j]),
            invert,
            s2[j],
        ) by {
            assert(place(pen(start, t.take(n + j)), start.0, t[n + j]) == place(
                pen(pen(start, s1), s2.take(j)),
                pen(start, s1).0,
                s2[j],
            ));
            assert(t[n + j] == s2[j]);
        }
    }
    if text_fits(min, start, invert, s1) && text_fits(min, pen(start, s1), invert, s2) {
        assert forall|k: int| 0 <= k < t.len() implies char_fits(
            min,
            place(pen(start, #[trigger] t.take(k)), start.0, t[k]),
            invert,
            t[k],
        ) by {
            if k < n {
                assert(t.take(k) == s1.take(k) && t[k] == s1[k]);
            } else {
                let j = k - n;
                assert(place(pen(start, t.take(n + j)), start.0, t[n + j]) == place(
                    pen(pen(start, s1), s2.take(j)),
                    pen(start, s1).0,
                    s2[j],
                ));
                assert(t[n + j] == s2[j]);
            }
        }
    }
    if font.covers_all(s1) && font.covers_all(s2) {
        assert forall|k: int| 0 <= k < t.len() implies font.covers(#[trigger] t[k]) by {
            if k < n {
                assert(t[k] == s1[k]);
            } else {
                assert(t[k] == s2[k - n]);
            }
        }
    }
    if font.covers_all(t) {
        assert forall|k: int| 0 <= k < s1.len() implies font.covers(#[trigger] s1[k]) by {
            assert(t[k] == s1[k]);
        }
        assert forall|j: int| 0 <= j < s2.len() implies font.covers(#[trigger] s2[j]) by {
            assert(t[n + j] == s2[j]);
        }
    }
}


/// A prefix, a number and a suffix (neither holding a newline) can be
/// written one after the other, each from where the characters before it
/// end, exactly when their concatenation can be written as one text: the
/// font covers the whole exactly when it covers each part, the whole fits
/// exactly when each part fits from where it starts, and when the whole
/// fits, the end of the number is within `u32`.
pub proof fn lemma_value_fits_as_one_text(
    font: &Font,
    min: Vec2,
    start: (int, int),
    prefix: Seq<char>,
    value: nat,
    suffix: Seq<char>,
)
    requires
        forall|k: int| 0 <= k < prefix.len() ==> #[trigger] prefix[k] != '\n',
        forall|k: int| 0 <= k < suffix.len() ==> #[trigger] suffix[k] != '\n',
    ensures
        font.covers_all(prefix + decimal(value) + suffix) <==> (font.covers_all(prefix)
            && font.covers_all(decimal(value)) && font.covers_all(suffix)),
        text_fits(min, start, false, prefix + decimal(value) + suffix) <==> (text_fits(
            min,
            start,
            false,
            prefix,
        ) && text_fits(min, (start.0 + 5 * prefix.len(), start.1), false, decimal(value))
            && text_fits(
            min,
            (start.0 + 5 * (prefix.len() + decimal(value).len()), start.1),
            false,
            suffix,
        )),
        text_fits(min, start, false, prefix + decimal(value) + suffix) ==> start.0 + 5 * (
        prefix.len() + decimal(value).len()) <= u32::MAX,
{
    let d = decimal(value);
    lemma_decimal_is_digits(value);
    assert forall|k: int| 0 <= k < d.len() implies #[trigger] d[k] != '\n' by {
        assert(0x30 <= d[k] as int <= 0x39);
    }
    let pd = prefix + d;
    assert forall|k: int| 0 <= k < pd.len() implies #[trigger] pd[k] != '\n' by {
        if k < prefix.len() {
            assert(pd[k] == prefix[k]);
        } else {
            assert(pd[k] == d[k - prefix.len()]);
        }
    }
    lemma_pen_one_line(start, prefix);
    lemma_pen_one_line(start, pd);
    lemma_text_fits_concat(font, min, start, false, prefix, d);
    lemma_text_fits_concat(font, min, start, false, pd, suffix);
    let t = pd + suffix;
    if text_fits(min, start, false, t) {
        let k = pd.len() - 1;
        assert(t.take(k) =~= pd.take(k));
        assert forall|i: int| 0 <= i < pd.take(k).len() implies #[trigger] pd.take(k)[i] != '\n' by {
            assert(pd.take(k)[i] == pd[i]);
        }
        lemma_pen_one_line(start, pd.take(k));
        assert(t[k] == pd[k]);
        assert(char_fits(min, place(pen(start, t.take(k)), start.0, t[k]), false, t[k]));
    }
}


/// A 32-bit number has at most ten decimal digits.
pub proof fn lemma_decimal_short(n: nat)
    requires
        n <= u32::MAX,
    ensures
        decimal(n).len() <= 10,
{
    lemma_decimal_positional(n);
    if decimal(n).len() > 10 {
        lemma_pow10_monotone(10, (decimal(n).len() - 1) as nat);
        assert(pow10(10) == 10000000000) by {
            reveal_with_fuel(pow10, 11);
        }
    }
}

proof fn lemma_pow10_monotone(a: nat, b: nat)
    requires
        a <= b,
    ensures
        pow10(a) <= pow10(b),
    decreases b,
{
    if a < b {
        lemma_pow10_monotone(a, (b - 1) as nat);
        lemma_pow10_positive((b - 1) as nat);
    }
}

} // verus!
