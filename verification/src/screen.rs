use vstd::prelude::*;
use crate::geometry::{Vec2, Bounds};
use crate::font::{
    with_text, with_value, decimal, plain_text, lemma_plain_text_ok, lemma_decimal_plain,
    lemma_decimal_short, CHAR_HEIGHT, bit_of, lemma_decimal_is_digits, lemma_with_text_domain,
    lemma_with_text_outside_clip, lemma_with_text_elsewhere, lemma_with_text_box,
};
use crate::paint::{paint, touch, lemma_paint_domain, lemma_touch_effect};
use crate::ui::{Ui, outline, progress_bar, dashed_line};
use crate::panel::rect;
use crate::control::{State, elapsed_readout};

verus! {

// The main heater screen, 128 by 64 pixels: a status bar (top right), a
// power meter (left edge), a temperature panel and a heater panel (left,
// one above the other) and a temperature history chart (bottom right).
// Each part is drawn inside its frame, and the frame's outline after it.

/// Space between a frame's outline and its contents, and between lines.
pub const PADDING: u32 = 2;

/// Height of a line of text.
pub const LINE_HEIGHT: u32 = 7;

/// Number of columns of the temperature history chart.
pub const CHART_COLUMNS: usize = 73;

/// The pixels `m` becomes when the points `(i, ys[i])`, relative to `org`,
/// are set one after the other, clipped to `clip`.
pub open spec fn with_points(m: Map<(int, int), bool>, clip: Bounds, org: (int, int), ys: Seq<u32>) -> Map<
    (int, int),
    bool,
>
    decreases ys.len(),
{
    if ys.len() == 0 {
        m
    } else {
        touch(
            with_points(m, clip, org, ys.drop_last()),
            clip,
            (org.0 + ys.len() - 1, org.1 + ys.last()),
            true,
        )
    }
}

/// The unit letter `elapsed_readout` gives for `secs` seconds.
pub open spec fn elapsed_unit(secs: u64) -> Seq<char> {
    if secs < 60 {
        "S"@
    } else {
        "M"@
    }
}

/// The number `elapsed_readout` gives for `secs` seconds.
pub open spec fn elapsed_amount(secs: u64) -> nat {
    if secs < 60 {
        secs as u32 as nat
    } else {
        (secs / 60) as u32 as nat
    }
}

/// The status bar's contents: `STATUS`, `S` and an icon inverted on the
/// first line, the time since start-up on the second, the processor load
/// in percent on the third.
pub open spec fn status_panel(m: Map<(int, int), bool>, bytes: Seq<u8>, elapsed_secs: u64, cpu_percent: nat) -> Map<(int, int), bool> {
    let b1 = rect(55, 3, 126, 27);
    let b2 = rect(55, 12, 126, 27);
    let b3 = rect(55, 21, 126, 27);
    let m1 = with_text(m, b1, (55, 3), bytes, (1, 1), true, "STATUS"@);
    let m2 = with_text(m1, b1, (55, 3), bytes, (55, 1), true, "S"@);
    let m3 = with_text(m2, b1, (55, 3), bytes, (64, 1), true, "\u{E006}"@);
    let m4 = with_value(m3, b2, (55, 12), bytes, (0, 0), "\u{E000}\u{E008}"@, elapsed_unit(elapsed_secs), elapsed_amount(elapsed_secs));
    with_value(m4, b3, (55, 21), bytes, (0, 0), "\u{E007}\u{E008}"@, "%"@, cpu_percent)
}

/// The temperature panel's contents: `THERMO` inverted, then the goal and
/// (twice) the measured temperature in degrees Celsius.
pub open spec fn thermo_panel(m: Map<(int, int), bool>, bytes: Seq<u8>, goal: nat, temp: nat) -> Map<(int, int), bool> {
    let m1 = with_text(m, rect(11, 3, 49, 34), (11, 3), bytes, (1, 1), true, "THERMO"@);
    let m2 = with_value(m1, rect(11, 12, 49, 34), (11, 12), bytes, (0, 0), "T\u{E004}\u{E005}"@, "°C"@, goal);
    let m3 = with_value(m2, rect(11, 19, 49, 34), (11, 19), bytes, (0, 0), "T\u{E003}\u{E005}"@, "°C"@, temp);
    with_value(m3, rect(11, 26, 49, 34), (11, 26), bytes, (0, 0), "T\u{E002}\u{E005}"@, "°C"@, temp)
}

/// The heater panel's contents: the controller state inverted, then the
/// power in watts and in percent.
pub open spec fn heater_panel(m: Map<(int, int), bool>, bytes: Seq<u8>, state: State, watts: nat, percent: nat) -> Map<(int, int), bool> {
    let m1 = with_text(m, rect(11, 40, 49, 62), (11, 40), bytes, (1, 1), true, state.label());
    let m2 = with_value(m1, rect(11, 49, 49, 62), (11, 49), bytes, (0, 0), "P\u{E005}"@, "W"@, watts);
    with_value(m2, rect(11, 56, 49, 62), (11, 56), bytes, (0, 0), "U\u{E005}"@, "%"@, percent)
}

/// The history panel's contents: dashed lines at rows `y_amb` and
/// `y_goal`, the chart points `(i, chart[i])`, and `HISTORY` inverted.
pub open spec fn history_panel(m: Map<(int, int), bool>, bytes: Seq<u8>, y_amb: int, y_goal: int, chart: Seq<u32>) -> Map<(int, int), bool> {
    let b = rect(53, 31, 126, 62);
    let m1 = paint(m, b, (53, 31), dashed_line(0, y_amb, 73));
    let m2 = paint(m1, b, (53, 31), dashed_line(0, y_goal, 73));
    let m3 = with_points(m2, b, (53, 31), chart);
    with_text(m3, b, (53, 31), bytes, (36, 24), true, "HISTORY"@)
}

/// The whole screen drawn over `m` on a surface whose bounds `root` start
/// at `(0, 0)`: each panel's contents, then its outline.
pub open spec fn screen(
    m: Map<(int, int), bool>,
    root: Bounds,
    bytes: Seq<u8>,
    elapsed_secs: u64,
    cpu_percent: nat,
    goal: nat,
    temp: nat,
    state: State,
    watts: nat,
    percent: nat,
    bar_rows: int,
    y_amb: int,
    y_goal: int,
    chart: Seq<u32>,
) -> Map<(int, int), bool> {
    let o = (0int, 0int);
    let s1 = paint(status_panel(m, bytes, elapsed_secs, cpu_percent), root, o, outline(rect(52, 0, 127, 28)));
    let s2 = paint(
        paint(s1, rect(1, 1, 5, 62), (1, 1), progress_bar(4, 61, bar_rows)),
        root,
        o,
        outline(rect(0, 0, 6, 63)),
    );
    let s3 = paint(thermo_panel(s2, bytes, goal, temp), root, o, outline(rect(8, 0, 50, 35)));
    let s4 = paint(heater_panel(s3, bytes, state, watts, percent), root, o, outline(rect(8, 37, 50, 63)));
    paint(history_panel(s4, bytes, y_amb, y_goal, chart), root, o, outline(rect(52, 30, 127, 63)))
}

/// Writes `value` between `prefix` and `suffix` at the top left of the
/// bounds (see `Ui::draw_value`), for plain texts that fit easily.
fn draw_plain_value(ui: &mut Ui, prefix: &str, suffix: &str, value: u32)
    requires
        old(ui).well_formed(),
        old(ui).font.has_glyph(48),
        plain_text(prefix@),
        plain_text(suffix@),
        prefix@.len() <= 4,
        suffix@.len() <= 2,
        old(ui).bounds.min.x <= 1000,
        old(ui).bounds.min.y <= 1000,
    ensures
        final(ui).well_formed(),
        final(ui).bounds == old(ui).bounds,
        final(ui).font == old(ui).font,
        final(ui).canvas.columns() == old(ui).canvas.columns(),
        final(ui).canvas.rows() == old(ui).canvas.rows(),
        final(ui).pixels() == with_value(
            old(ui).pixels(),
            old(ui).bounds,
            old(ui).origin(),
            old(ui).font@,
            (0, 0),
            prefix@,
            suffix@,
            value as nat,
        ),
{
    proof {
        let d = decimal(value as nat);
        lemma_decimal_plain(value as nat);
        lemma_decimal_short(value as nat);
        let min = ui.bounds.min;
        lemma_plain_text_ok(ui.font, min, (0, 0), false, prefix@);
        lemma_plain_text_ok(ui.font, min, (5 * prefix@.len() as int, 0), false, d);
        lemma_plain_text_ok(ui.font, min, (5 * (prefix@.len() + d.len()) as int, 0), false, suffix@);
    }
    ui.draw_value((0, 0), prefix, suffix, value);
}

/// Writes a plain text inverted at `(1, 1)` of the bounds.
fn draw_plain_title(ui: &mut Ui, pos: (u32, u32), s: &str)
    requires
        old(ui).well_formed(),
        old(ui).font.has_glyph(48),
        plain_text(s@),
        s@.len() <= 8,
        1 <= pos.0 <= 100,
        1 <= pos.1 <= 100,
        old(ui).bounds.min.x <= 1000,
        old(ui).bounds.min.y <= 1000,
    ensures
        final(ui).well_formed(),
        final(ui).bounds == old(ui).bounds,
        final(ui).font == old(ui).font,
        final(ui).canvas.columns() == old(ui).canvas.columns(),
        final(ui).canvas.rows() == old(ui).canvas.rows(),
        final(ui).pixels() == with_text(
            old(ui).pixels(),
            old(ui).bounds,
            old(ui).origin(),
            old(ui).font@,
            (pos.0 as int, pos.1 as int),
            true,
            s@,
        ),
{
    proof {
        lemma_plain_text_ok(ui.font, ui.bounds.min, (pos.0 as int, pos.1 as int), true, s@);
    }
    ui.draw_string_inverted(pos, s);
}

/// Draws the whole screen (see `screen`) on a surface whose bounds start at
/// `(0, 0)`: `elapsed_secs` since start-up, the processor load, the goal
/// and measured temperatures, the controller state, the heater power in
/// watts and percent, the power meter's bar height, the rows of the
/// ambient and goal lines in the history chart, and the chart's row for
/// each of its `CHART_COLUMNS` columns.
pub fn draw_screen(
    ui: &mut Ui,
    elapsed_secs: u64,
    cpu_percent: u32,
    goal: u32,
    temp: u32,
    state: State,
    watts: u32,
    percent: u32,
    bar_rows: u32,
    y_amb: u32,
    y_goal: u32,
    chart: &[u32],
)
    requires
        old(ui).well_formed(),
        old(ui).bounds.min.x == 0,
        old(ui).bounds.min.y == 0,
        old(ui).font.has_glyph(48),
        y_amb <= u32::MAX - 31,
        y_goal <= u32::MAX - 31,
        chart@.len() == CHART_COLUMNS,
        forall|k: int| 0 <= k < chart@.len() ==> #[trigger] chart@[k] <= u32::MAX - 31,
    ensures
        final(ui).well_formed(),
        final(ui).bounds == old(ui).bounds,
        final(ui).font == old(ui).font,
        final(ui).canvas.columns() == old(ui).canvas.columns(),
        final(ui).canvas.rows() == old(ui).canvas.rows(),
        final(ui).pixels() == screen(
            old(ui).pixels(),
            old(ui).bounds,
            old(ui).font@,
            elapsed_secs,
            cpu_percent as nat,
            goal as nat,
            temp as nat,
            state,
            watts as nat,
            percent as nat,
            bar_rows as int,
            y_amb as int,
            y_goal as int,
            chart@,
        ),
{
    let root = ui.bounds;
    let ghost m0 = ui.pixels();
    let ghost bytes = ui.font@;
    proof {
        reveal_strlit("STATUS");
        reveal_strlit("S");
        reveal_strlit("M");
        reveal_strlit("\u{E006}");
        reveal_strlit("\u{E000}\u{E008}");
        reveal_strlit("\u{E007}\u{E008}");
        reveal_strlit("%");
        reveal_strlit("THERMO");
        reveal_strlit("T\u{E004}\u{E005}");
        reveal_strlit("T\u{E003}\u{E005}");
        reveal_strlit("T\u{E002}\u{E005}");
        reveal_strlit("°C");
        reveal_strlit("HEATING");
        reveal_strlit("HOLDING");
        reveal_strlit("P\u{E005}");
        reveal_strlit("W");
        reveal_strlit("U\u{E005}");
        reveal_strlit("HISTORY");
    }

    // status bar
    let frame = Bounds::new((52, 0), (127, 28));
    ui.bounds = frame.contract(1);
    ui.space(Vec2::splat(PADDING));
    draw_plain_title(ui, (1, 1), "STATUS");
    draw_plain_title(ui, (55, 1), "S");
    draw_plain_title(ui, (64, 1), "\u{E006}");
    ui.space_y(LINE_HEIGHT + 2);
    let (unit, amount) = elapsed_readout(elapsed_secs);
    draw_plain_value(ui, "\u{E000}\u{E008}", unit, amount);
    ui.space_y(LINE_HEIGHT + 2);
    draw_plain_value(ui, "\u{E007}\u{E008}", "%", cpu_percent);
    let ghost m1 = ui.pixels();
    assert(m1 == status_panel(m0, bytes, elapsed_secs, cpu_percent as nat));
    ui.bounds = root;
    ui.draw_outline(frame);

    // power meter
    let frame = Bounds::new((0, 0), (6, 63));
    ui.bounds = frame.contract(1);
    ui.draw_progress_vertical(bar_rows);
    ui.bounds = root;
    ui.draw_outline(frame);

    // temperature panel
    let ghost m2 = ui.pixels();
    let frame = Bounds::new((8, 0), (50, 35));
    ui.bounds = frame.contract(1);
    ui.space(Vec2::splat(PADDING));
    draw_plain_title(ui, (1, 1), "THERMO");
    ui.space_y(LINE_HEIGHT + 2);
    draw_plain_value(ui, "T\u{E004}\u{E005}", "°C", goal);
    ui.space_y(LINE_HEIGHT);
    draw_plain_value(ui, "T\u{E003}\u{E005}", "°C", temp);
    ui.space_y(LINE_HEIGHT);
    draw_plain_value(ui, "T\u{E002}\u{E005}", "°C", temp);
    assert(ui.pixels() == thermo_panel(m2, bytes, goal as nat, temp as nat));
    ui.bounds = root;
    ui.draw_outline(frame);

    // heater panel
    let ghost m3 = ui.pixels();
    let frame = Bounds::new((8, 37), (50, 63));
    ui.bounds = frame.contract(1);
    ui.space(Vec2::splat(PADDING));
    draw_plain_title(ui, (1, 1), state.name());
    ui.space_y(LINE_HEIGHT + 2);
    draw_plain_value(ui, "P\u{E005}", "W", watts);
    ui.space_y(LINE_HEIGHT);
    draw_plain_value(ui, "U\u{E005}", "%", percent);
    assert(ui.pixels() == heater_panel(m3, bytes, state, watts as nat, percent as nat));
    ui.bounds = root;
    ui.draw_outline(frame);

    // temperature history
    let ghost m4 = ui.pixels();
    let frame = Bounds::new((52, 30), (127, 63));
    ui.bounds = frame.contract(1);
    let width = ui.bounds.width();
    ui.draw_line_horizontal((0, y_amb), width);
    ui.draw_line_horizontal((0, y_goal), width);
    let ghost m5 = ui.pixels();
    let ghost clip = ui.bounds;
    let mut x: usize = 0;
    while x < CHART_COLUMNS
        invariant
            ui.well_formed(),
            ui.bounds == clip,
            clip == rect(53, 31, 126, 62),
            ui.font == old(ui).font,
            ui.canvas.columns() == old(ui).canvas.columns(),
            ui.canvas.rows() == old(ui).canvas.rows(),
            chart@.len() == CHART_COLUMNS,
            forall|k: int| 0 <= k < chart@.len() ==> #[trigger] chart@[k] <= u32::MAX - 31,
            x <= CHART_COLUMNS,
            ui.pixels() == with_points(m5, clip, (53, 31), chart@.take(x as int)),
        decreases CHART_COLUMNS - x,
    {
        proof {
            assert(chart@.take(x + 1).drop_last() =~= chart@.take(x as int));
        }
        ui.set_pixel(x as u32, chart[x], true);
        x = x + 1;
    }
    proof {
        assert(chart@.take(CHART_COLUMNS as int) =~= chart@);
    }
    draw_plain_title(ui, (36, 24), "HISTORY");
    assert(ui.pixels() == history_panel(m4, bytes, y_amb as int, y_goal as int, chart@));
    ui.bounds = root;
    ui.draw_outline(frame);
}


/// Setting the chart points lights each point `(k, ys[k])` (relative to
/// `org`) that the clip holds, and keeps every pixel that is none of them.
pub proof fn lemma_with_points_effect(m: Map<(int, int), bool>, clip: Bounds, org: (int, int), ys: Seq<u32>, q: (int, int))
    requires
        m.dom().contains(q),
    ensures
        with_points(m, clip, org, ys).dom() == m.dom(),
        (exists|k: int| 0 <= k < ys.len() && q == (org.0 + k, org.1 + ys[k])) && clip.holds(q.0, q.1)
            ==> with_points(m, clip, org, ys)[q],
        (forall|k: int| 0 <= k < ys.len() ==> q != (org.0 + k, org.1 + #[trigger] ys[k]))
            ==> with_points(m, clip, org, ys)[q] == m[q],
    decreases ys.len(),
{
    if ys.len() > 0 {
        let t = ys.drop_last();
        lemma_with_points_effect(m, clip, org, t, q);
        let rest = with_points(m, clip, org, t);
        let p = (org.0 + ys.len() - 1, org.1 + ys.last());
        lemma_touch_effect(rest, clip, p, true, q);
        if exists|k: int| 0 <= k < ys.len() && q == (org.0 + k, org.1 + ys[k]) {
            let k = choose|k: int| 0 <= k < ys.len() && q == (org.0 + k, org.1 + ys[k]);
            if k < t.len() {
                assert(t[k] == ys[k]);
            }
        }
        if forall|k: int| 0 <= k < ys.len() ==> q != (org.0 + k, org.1 + #[trigger] ys[k]) {
            assert forall|k: int| 0 <= k < t.len() implies q != (org.0 + k, org.1 + #[trigger] t[k]) by {
                assert(t[k] == ys[k]);
            }
            assert(q != (org.0 + ys.len() - 1, org.1 + ys[ys.len() - 1]));
        }
    }
}

/// Setting chart points never changes which points form the grid, and
/// keeps every pixel that the clip does not hold.
proof fn lemma_with_points_outside_clip(m: Map<(int, int), bool>, clip: Bounds, org: (int, int), ys: Seq<u32>, q: (int, int))
    requires
        m.dom().contains(q),
        !clip.holds(q.0, q.1),
    ensures
        with_points(m, clip, org, ys).dom() == m.dom(),
        with_points(m, clip, org, ys)[q] == m[q],
    decreases ys.len(),
{
    if ys.len() > 0 {
        lemma_with_points_outside_clip(m, clip, org, ys.drop_last(), q);
        let rest = with_points(m, clip, org, ys.drop_last());
        lemma_touch_effect(rest, clip, (org.0 + ys.len() - 1, org.1 + ys.last()), true, q);
    }
}

/// Writing a reading never changes which points form the grid.
proof fn lemma_with_value_domain(
    m: Map<(int, int), bool>,
    clip: Bounds,
    org: (int, int),
    bytes: Seq<u8>,
    pos: (int, int),
    prefix: Seq<char>,
    suffix: Seq<char>,
    value: nat,
)
    ensures
        with_value(m, clip, org, bytes, pos, prefix, suffix, value).dom() == m.dom(),
{
    let (x, y) = pos;
    let (np, nd) = (prefix.len() as int, decimal(value).len() as int);
    let a = with_text(m, clip, org, bytes, (x, y), false, prefix);
    let b = with_text(a, clip, org, bytes, (x + 5 * np, y), false, decimal(value));
    lemma_with_text_domain(m, clip, org, bytes, (x, y), false, prefix);
    lemma_with_text_domain(a, clip, org, bytes, (x + 5 * np, y), false, decimal(value));
    lemma_with_text_domain(b, clip, org, bytes, (x + 5 * (np + nd), y), false, suffix);
}

/// Writing a reading never changes which points form the grid, and keeps
/// every pixel that the clip does not hold.
proof fn lemma_with_value_outside_clip(
    m: Map<(int, int), bool>,
    clip: Bounds,
    org: (int, int),
    bytes: Seq<u8>,
    pos: (int, int),
    prefix: Seq<char>,
    suffix: Seq<char>,
    value: nat,
    q: (int, int),
)
    requires
        m.dom().contains(q),
        !clip.holds(q.0, q.1),
    ensures
        with_value(m, clip, org, bytes, pos, prefix, suffix, value).dom() == m.dom(),
        with_value(m, clip, org, bytes, pos, prefix, suffix, value)[q] == m[q],
{
    let (x, y) = pos;
    let (np, nd) = (prefix.len() as int, decimal(value).len() as int);
    let a = with_text(m, clip, org, bytes, (x, y), false, prefix);
    let b = with_text(a, clip, org, bytes, (x + 5 * np, y), false, decimal(value));
    lemma_with_text_domain(m, clip, org, bytes, (x, y), false, prefix);
    lemma_with_text_domain(a, clip, org, bytes, (x + 5 * np, y), false, decimal(value));
    lemma_with_text_domain(b, clip, org, bytes, (x + 5 * (np + nd), y), false, suffix);
    lemma_with_text_outside_clip(m, clip, org, bytes, (x, y), false, prefix, q);
    lemma_with_text_outside_clip(a, clip, org, bytes, (x + 5 * np, y), false, decimal(value), q);
    lemma_with_text_outside_clip(b, clip, org, bytes, (x + 5 * (np + nd), y), false, suffix, q);
}

/// A reading whose prefix and suffix hold no newline keeps every pixel of
/// the rows above or below its line; in the box of its `k`-th digit it
/// shows that digit's glyph, the font's bit for each pixel the clip holds.
proof fn lemma_with_value_line(
    m: Map<(int, int), bool>,
    clip: Bounds,
    org: (int, int),
    bytes: Seq<u8>,
    pos: (int, int),
    prefix: Seq<char>,
    suffix: Seq<char>,
    value: nat,
    q: (int, int),
    k: int,
)
    requires
        forall|l: int| 0 <= l < prefix.len() ==> #[trigger] prefix[l] != '\n',
        forall|l: int| 0 <= l < suffix.len() ==> #[trigger] suffix[l] != '\n',
        m.dom().contains(q),
    ensures
        with_value(m, clip, org, bytes, pos, prefix, suffix, value).dom() == m.dom(),
        q.1 < org.1 + pos.1 || q.1 > org.1 + pos.1 + 4 ==> with_value(m, clip, org, bytes, pos, prefix, suffix, value)[q] == m[q],
        ({
            let x = q.0 - org.0 - pos.0 - 5 * prefix.len() - 5 * k;
            let y = q.1 - org.1 - pos.1;
            0 <= k < decimal(value).len() && 0 <= x < 5 && 0 <= y < 5 && clip.holds(q.0, q.1)
                ==> with_value(m, clip, org, bytes, pos, prefix, suffix, value)[q] == bit_of(
                bytes,
                25 * (decimal(value)[k] as int - 0x30) + 5 * y + x,
            )
        }),
{
    let (px, py) = pos;
    let d = decimal(value);
    let (np, nd) = (prefix.len() as int, d.len() as int);
    lemma_decimal_is_digits(value);
    assert forall|l: int| 0 <= l < d.len() implies #[trigger] d[l] != '\n' by {
        assert(0x30 <= d[l] as int <= 0x39);
    }
    let a = with_text(m, clip, org, bytes, (px, py), false, prefix);
    let b = with_text(a, clip, org, bytes, (px + 5 * np, py), false, d);
    lemma_with_text_domain(m, clip, org, bytes, (px, py), false, prefix);
    lemma_with_text_domain(a, clip, org, bytes, (px + 5 * np, py), false, d);
    lemma_with_text_domain(b, clip, org, bytes, (px + 5 * (np + nd), py), false, suffix);
    if q.1 < org.1 + py || q.1 > org.1 + py + 4 {
        lemma_with_text_elsewhere(m, clip, org, bytes, (px, py), false, prefix, q);
        lemma_with_text_elsewhere(a, clip, org, bytes, (px + 5 * np, py), false, d, q);
        lemma_with_text_elsewhere(b, clip, org, bytes, (px + 5 * (np + nd), py), false, suffix, q);
    }
    let x = q.0 - org.0 - px - 5 * np - 5 * k;
    let y = q.1 - org.1 - py;
    if 0 <= k < nd && 0 <= x < 5 && 0 <= y < 5 && clip.holds(q.0, q.1) {
        lemma_with_text_elsewhere(m, clip, org, bytes, (px, py), false, prefix, q);
        assert(q == (org.0 + (px + 5 * np) + 5 * k + x, org.1 + py + y));
        lemma_with_text_box(a, clip, org, bytes, (px + 5 * np, py), d, k, x, y);
        lemma_with_text_elsewhere(b, clip, org, bytes, (px + 5 * (np + nd), py), false, suffix, q);
    }
}

/// Everything drawn on the main screen outside the temperature panel, and
/// the panel's outline, leaves the pixels well inside the panel (columns
/// 10 to 49, rows 2 to 33) as the panel's contents set them.
proof fn lemma_screen_spares_thermo(
    m: Map<(int, int), bool>,
    root: Bounds,
    bytes: Seq<u8>,
    elapsed_secs: u64,
    cpu_percent: nat,
    goal: nat,
    temp: nat,
    state: State,
    watts: nat,
    percent: nat,
    bar_rows: int,
    y_amb: int,
    y_goal: int,
    chart: Seq<u32>,
    q: (int, int),
)
    requires
        m.dom().contains(q),
        10 <= q.0 <= 49,
        2 <= q.1 <= 33,
    ensures
        ({
            let o = (0int, 0int);
            let s1 = paint(status_panel(m, bytes, elapsed_secs, cpu_percent), root, o, outline(rect(52, 0, 127, 28)));
            let s2 = paint(
                paint(s1, rect(1, 1, 5, 62), (1, 1), progress_bar(4, 61, bar_rows)),
                root,
                o,
                outline(rect(0, 0, 6, 63)),
            );
            &&& s2.dom() == m.dom()
            &&& s2[q] == m[q]
            &&& screen(m, root, bytes, elapsed_secs, cpu_percent, goal, temp, state, watts, percent, bar_rows, y_amb, y_goal, chart)[q]
                == thermo_panel(s2, bytes, goal, temp)[q]
        }),
{
    let o = (0int, 0int);
    // status bar
    let b1 = rect(55, 3, 126, 27);
    let b2 = rect(55, 12, 126, 27);
    let b3 = rect(55, 21, 126, 27);
    let t1 = with_text(m, b1, (55, 3), bytes, (1, 1), true, "STATUS"@);
    let t2 = with_text(t1, b1, (55, 3), bytes, (55, 1), true, "S"@);
    let t3 = with_text(t2, b1, (55, 3), bytes, (64, 1), true, "\u{E006}"@);
    let t4 = with_value(t3, b2, (55, 12), bytes, (0, 0), "\u{E000}\u{E008}"@, elapsed_unit(elapsed_secs), elapsed_amount(elapsed_secs));
    lemma_with_text_domain(m, b1, (55, 3), bytes, (1, 1), true, "STATUS"@);
    lemma_with_text_domain(t1, b1, (55, 3), bytes, (55, 1), true, "S"@);
    lemma_with_text_domain(t2, b1, (55, 3), bytes, (64, 1), true, "\u{E006}"@);
    lemma_with_text_outside_clip(m, b1, (55, 3), bytes, (1, 1), true, "STATUS"@, q);
    lemma_with_text_outside_clip(t1, b1, (55, 3), bytes, (55, 1), true, "S"@, q);
    lemma_with_text_outside_clip(t2, b1, (55, 3), bytes, (64, 1), true, "\u{E006}"@, q);
    lemma_with_value_outside_clip(t3, b2, (55, 12), bytes, (0, 0), "\u{E000}\u{E008}"@, elapsed_unit(elapsed_secs), elapsed_amount(elapsed_secs), q);
    lemma_with_value_outside_clip(t4, b3, (55, 21), bytes, (0, 0), "\u{E007}\u{E008}"@, "%"@, cpu_percent, q);
    let st = status_panel(m, bytes, elapsed_secs, cpu_percent);
    let s1 = paint(st, root, o, outline(rect(52, 0, 127, 28)));
    lemma_paint_domain(st, root, o, outline(rect(52, 0, 127, 28)));
    let s1b = paint(s1, rect(1, 1, 5, 62), (1, 1), progress_bar(4, 61, bar_rows));
    lemma_paint_domain(s1, rect(1, 1, 5, 62), (1, 1), progress_bar(4, 61, bar_rows));
    let s2 = paint(s1b, root, o, outline(rect(0, 0, 6, 63)));
    lemma_paint_domain(s1b, root, o, outline(rect(0, 0, 6, 63)));
    assert(s2[q] == m[q]);
    // temperature panel and its outline
    let th = thermo_panel(s2, bytes, goal, temp);
    let s3 = paint(th, root, o, outline(rect(8, 0, 50, 35)));
    // the panel's contents keep the grid
    let u1 = with_text(s2, rect(11, 3, 49, 34), (11, 3), bytes, (1, 1), true, "THERMO"@);
    let u2 = with_value(u1, rect(11, 12, 49, 34), (11, 12), bytes, (0, 0), "T\u{E004}\u{E005}"@, "°C"@, goal);
    let u3 = with_value(u2, rect(11, 19, 49, 34), (11, 19), bytes, (0, 0), "T\u{E003}\u{E005}"@, "°C"@, temp);
    lemma_with_text_domain(s2, rect(11, 3, 49, 34), (11, 3), bytes, (1, 1), true, "THERMO"@);
    assert(th.dom() == m.dom()) by {
        lemma_with_value_domain(u1, rect(11, 12, 49, 34), (11, 12), bytes, (0, 0), "T\u{E004}\u{E005}"@, "°C"@, goal);
        lemma_with_value_domain(u2, rect(11, 19, 49, 34), (11, 19), bytes, (0, 0), "T\u{E003}\u{E005}"@, "°C"@, temp);
        lemma_with_value_domain(u3, rect(11, 26, 49, 34), (11, 26), bytes, (0, 0), "T\u{E002}\u{E005}"@, "°C"@, temp);
    }
    lemma_paint_domain(th, root, o, outline(rect(8, 0, 50, 35)));
    assert(s3[q] == th[q]);
    // heater panel and its outline
    let v1 = with_text(s3, rect(11, 40, 49, 62), (11, 40), bytes, (1, 1), true, state.label());
    let v2 = with_value(v1, rect(11, 49, 49, 62), (11, 49), bytes, (0, 0), "P\u{E005}"@, "W"@, watts);
    lemma_with_text_domain(s3, rect(11, 40, 49, 62), (11, 40), bytes, (1, 1), true, state.label());
    lemma_with_text_outside_clip(s3, rect(11, 40, 49, 62), (11, 40), bytes, (1, 1), true, state.label(), q);
    lemma_with_value_outside_clip(v1, rect(11, 49, 49, 62), (11, 49), bytes, (0, 0), "P\u{E005}"@, "W"@, watts, q);
    lemma_with_value_outside_clip(v2, rect(11, 56, 49, 62), (11, 56), bytes, (0, 0), "U\u{E005}"@, "%"@, percent, q);
    let hp = heater_panel(s3, bytes, state, watts, percent);
    let s4 = paint(hp, root, o, outline(rect(8, 37, 50, 63)));
    lemma_paint_domain(hp, root, o, outline(rect(8, 37, 50, 63)));
    // history panel and its outline
    let hb = rect(53, 31, 126, 62);
    let w1 = paint(s4, hb, (53, 31), dashed_line(0, y_amb, 73));
    let w2 = paint(w1, hb, (53, 31), dashed_line(0, y_goal, 73));
    lemma_paint_domain(s4, hb, (53, 31), dashed_line(0, y_amb, 73));
    lemma_paint_domain(w1, hb, (53, 31), dashed_line(0, y_goal, 73));
    lemma_with_points_outside_clip(w2, hb, (53, 31), chart, q);
    let w3 = with_points(w2, hb, (53, 31), chart);
    lemma_with_text_domain(w3, hb, (53, 31), bytes, (36, 24), true, "HISTORY"@);
    lemma_with_text_outside_clip(w3, hb, (53, 31), bytes, (36, 24), true, "HISTORY"@, q);
    let hi = history_panel(s4, bytes, y_amb, y_goal, chart);
    assert(hi[q] == s4[q]);
}

/// The temperature panel shows the goal on its second line and the measured
/// temperature on the third: wherever the panel holds it, the box of each
/// digit of `goal`, written after the three-character prefix from (26, 12),
/// holds the font's bits for that digit, and so does the box of each digit of
/// `temp` from (26, 19); neither depends on any other reading.
pub proof fn lemma_screen_thermo_readings(
    m: Map<(int, int), bool>,
    root: Bounds,
    bytes: Seq<u8>,
    elapsed_secs: u64,
    cpu_percent: nat,
    goal: nat,
    temp: nat,
    state: State,
    watts: nat,
    percent: nat,
    bar_rows: int,
    y_amb: int,
    y_goal: int,
    chart: Seq<u32>,
    k: int,
    i: int,
    j: int,
)
    requires
        0 <= i < 5,
        0 <= j < 5,
        forall|x: int, y: int| 0 <= x < 50 && 0 <= y < 35 ==> #[trigger] m.dom().contains((x, y)),
    ensures
        0 <= k < decimal(goal).len() && 26 + 5 * k + i <= 49 ==> screen(
            m,
            root,
            bytes,
            elapsed_secs,
            cpu_percent,
            goal,
            temp,
            state,
            watts,
            percent,
            bar_rows,
            y_amb,
            y_goal,
            chart,
        )[(26 + 5 * k + i, 12 + j)] == bit_of(bytes, 25 * (decimal(goal)[k] as int - 0x30) + 5 * j + i),
        0 <= k < decimal(temp).len() && 26 + 5 * k + i <= 49 ==> screen(
            m,
            root,
            bytes,
            elapsed_secs,
            cpu_percent,
            goal,
            temp,
            state,
            watts,
            percent,
            bar_rows,
            y_amb,
            y_goal,
            chart,
        )[(26 + 5 * k + i, 19 + j)] == bit_of(bytes, 25 * (decimal(temp)[k] as int - 0x30) + 5 * j + i),
{
    reveal_strlit("THERMO");
    reveal_strlit("T\u{E004}\u{E005}");
    reveal_strlit("T\u{E003}\u{E005}");
    reveal_strlit("T\u{E002}\u{E005}");
    reveal_strlit("°C");
    let thermo = "THERMO"@;
    let pg = "T\u{E004}\u{E005}"@;
    let pt = "T\u{E003}\u{E005}"@;
    let pt2 = "T\u{E002}\u{E005}"@;
    let deg = "°C"@;
    assert forall|l: int| 0 <= l < thermo.len() implies #[trigger] thermo[l] != '\n' by {}
    assert forall|l: int| 0 <= l < pg.len() implies #[trigger] pg[l] != '\n' by {}
    assert forall|l: int| 0 <= l < pt.len() implies #[trigger] pt[l] != '\n' by {}
    assert forall|l: int| 0 <= l < pt2.len() implies #[trigger] pt2[l] != '\n' by {}
    assert forall|l: int| 0 <= l < deg.len() implies #[trigger] deg[l] != '\n' by {}
    let o = (0int, 0int);
    let s1 = paint(status_panel(m, bytes, elapsed_secs, cpu_percent), root, o, outline(rect(52, 0, 127, 28)));
    let s2 = paint(
        paint(s1, rect(1, 1, 5, 62), (1, 1), progress_bar(4, 61, bar_rows)),
        root,
        o,
        outline(rect(0, 0, 6, 63)),
    );
    let u1 = with_text(s2, rect(11, 3, 49, 34), (11, 3), bytes, (1, 1), true, thermo);
    let u2 = with_value(u1, rect(11, 12, 49, 34), (11, 12), bytes, (0, 0), pg, deg, goal);
    let u3 = with_value(u2, rect(11, 19, 49, 34), (11, 19), bytes, (0, 0), pt, deg, temp);
    if 0 <= k < decimal(goal).len() && 26 + 5 * k + i <= 49 {
        let q = (26 + 5 * k + i, 12 + j);
        assert(m.dom().contains(q));
        lemma_screen_spares_thermo(m, root, bytes, elapsed_secs, cpu_percent, goal, temp, state, watts, percent, bar_rows, y_amb, y_goal, chart, q);
        lemma_with_text_domain(s2, rect(11, 3, 49, 34), (11, 3), bytes, (1, 1), true, thermo);
        lemma_with_text_elsewhere(s2, rect(11, 3, 49, 34), (11, 3), bytes, (1, 1), true, thermo, q);
        lemma_with_value_line(u1, rect(11, 12, 49, 34), (11, 12), bytes, (0, 0), pg, deg, goal, q, k);
        lemma_with_value_line(u2, rect(11, 19, 49, 34), (11, 19), bytes, (0, 0), pt, deg, temp, q, k);
        lemma_with_value_line(u3, rect(11, 26, 49, 34), (11, 26), bytes, (0, 0), pt2, deg, temp, q, k);
    }
    if 0 <= k < decimal(temp).len() && 26 + 5 * k + i <= 49 {
        let q = (26 + 5 * k + i, 19 + j);
        assert(m.dom().contains(q));
        lemma_screen_spares_thermo(m, root, bytes, elapsed_secs, cpu_percent, goal, temp, state, watts, percent, bar_rows, y_amb, y_goal, chart, q);
        lemma_with_text_domain(s2, rect(11, 3, 49, 34), (11, 3), bytes, (1, 1), true, thermo);
        lemma_with_text_elsewhere(s2, rect(11, 3, 49, 34), (11, 3), bytes, (1, 1), true, thermo, q);
        lemma_with_value_line(u1, rect(11, 12, 49, 34), (11, 12), bytes, (0, 0), pg, deg, goal, q, k);
        lemma_with_value_line(u2, rect(11, 19, 49, 34), (11, 19), bytes, (0, 0), pt, deg, temp, q, k);
        lemma_with_value_line(u3, rect(11, 26, 49, 34), (11, 26), bytes, (0, 0), pt2, deg, temp, q, k);
    }
}

/// Everything drawn on the main screen after the status bar leaves the
/// pixels of its reading lines (columns 55 to 126, rows 12 to 25) as the
/// status bar's contents set them.
proof fn lemma_screen_spares_status(
    m: Map<(int, int), bool>,
    root: Bounds,
    bytes: Seq<u8>,
    elapsed_secs: u64,
    cpu_percent: nat,
    goal: nat,
    temp: nat,
    state: State,
    watts: nat,
    percent: nat,
    bar_rows: int,
    y_amb: int,
    y_goal: int,
    chart: Seq<u32>,
    q: (int, int),
)
    requires
        m.dom().contains(q),
        55 <= q.0 <= 126,
        12 <= q.1 <= 25,
    ensures
        screen(m, root, bytes, elapsed_secs, cpu_percent, goal, temp, state, watts, percent, bar_rows, y_amb, y_goal, chart)[q]
            == status_panel(m, bytes, elapsed_secs, cpu_percent)[q],
{
    let o = (0int, 0int);
    let b1 = rect(55, 3, 126, 27);
    let b2 = rect(55, 12, 126, 27);
    let t1 = with_text(m, b1, (55, 3), bytes, (1, 1), true, "STATUS"@);
    let t2 = with_text(t1, b1, (55, 3), bytes, (55, 1), true, "S"@);
    let t3 = with_text(t2, b1, (55, 3), bytes, (64, 1), true, "\u{E006}"@);
    let t4 = with_value(t3, b2, (55, 12), bytes, (0, 0), "\u{E000}\u{E008}"@, elapsed_unit(elapsed_secs), elapsed_amount(elapsed_secs));
    lemma_with_text_domain(m, b1, (55, 3), bytes, (1, 1), true, "STATUS"@);
    lemma_with_text_domain(t1, b1, (55, 3), bytes, (55, 1), true, "S"@);
    lemma_with_text_domain(t2, b1, (55, 3), bytes, (64, 1), true, "\u{E006}"@);
    lemma_with_value_domain(t3, b2, (55, 12), bytes, (0, 0), "\u{E000}\u{E008}"@, elapsed_unit(elapsed_secs), elapsed_amount(elapsed_secs));
    lemma_with_value_domain(t4, rect(55, 21, 126, 27), (55, 21), bytes, (0, 0), "\u{E007}\u{E008}"@, "%"@, cpu_percent);
    let st = status_panel(m, bytes, elapsed_secs, cpu_percent);
    let s1 = paint(st, root, o, outline(rect(52, 0, 127, 28)));
    lemma_paint_domain(st, root, o, outline(rect(52, 0, 127, 28)));
    let s1b = paint(s1, rect(1, 1, 5, 62), (1, 1), progress_bar(4, 61, bar_rows));
    lemma_paint_domain(s1, rect(1, 1, 5, 62), (1, 1), progress_bar(4, 61, bar_rows));
    let s2 = paint(s1b, root, o, outline(rect(0, 0, 6, 63)));
    lemma_paint_domain(s1b, root, o, outline(rect(0, 0, 6, 63)));
    assert(s2[q] == st[q]);
    let u1 = with_text(s2, rect(11, 3, 49, 34), (11, 3), bytes, (1, 1), true, "THERMO"@);
    let u2 = with_value(u1, rect(11, 12, 49, 34), (11, 12), bytes, (0, 0), "T\u{E004}\u{E005}"@, "°C"@, goal);
    let u3 = with_value(u2, rect(11, 19, 49, 34), (11, 19), bytes, (0, 0), "T\u{E003}\u{E005}"@, "°C"@, temp);
    lemma_with_text_domain(s2, rect(11, 3, 49, 34), (11, 3), bytes, (1, 1), true, "THERMO"@);
    lemma_with_text_outside_clip(s2, rect(11, 3, 49, 34), (11, 3), bytes, (1, 1), true, "THERMO"@, q);
    lemma_with_value_outside_clip(u1, rect(11, 12, 49, 34), (11, 12), bytes, (0, 0), "T\u{E004}\u{E005}"@, "°C"@, goal, q);
    lemma_with_value_outside_clip(u2, rect(11, 19, 49, 34), (11, 19), bytes, (0, 0), "T\u{E003}\u{E005}"@, "°C"@, temp, q);
    lemma_with_value_outside_clip(u3, rect(11, 26, 49, 34), (11, 26), bytes, (0, 0), "T\u{E002}\u{E005}"@, "°C"@, temp, q);
    let th = thermo_panel(s2, bytes, goal, temp);
    let s3 = paint(th, root, o, outline(rect(8, 0, 50, 35)));
    lemma_paint_domain(th, root, o, outline(rect(8, 0, 50, 35)));
    let v1 = with_text(s3, rect(11, 40, 49, 62), (11, 40), bytes, (1, 1), true, state.label());
    let v2 = with_value(v1, rect(11, 49, 49, 62), (11, 49), bytes, (0, 0), "P\u{E005}"@, "W"@, watts);
    lemma_with_text_domain(s3, rect(11, 40, 49, 62), (11, 40), bytes, (1, 1), true, state.label());
    lemma_with_text_outside_clip(s3, rect(11, 40, 49, 62), (11, 40), bytes, (1, 1), true, state.label(), q);
    lemma_with_value_outside_clip(v1, rect(11, 49, 49, 62), (11, 49), bytes, (0, 0), "P\u{E005}"@, "W"@, watts, q);
    lemma_with_value_outside_clip(v2, rect(11, 56, 49, 62), (11, 56), bytes, (0, 0), "U\u{E005}"@, "%"@, percent, q);
    let hp = heater_panel(s3, bytes, state, watts, percent);
    let s4 = paint(hp, root, o, outline(rect(8, 37, 50, 63)));
    lemma_paint_domain(hp, root, o, outline(rect(8, 37, 50, 63)));
    let hb = rect(53, 31, 126, 62);
    let w1 = paint(s4, hb, (53, 31), dashed_line(0, y_amb, 73));
    let w2 = paint(w1, hb, (53, 31), dashed_line(0, y_goal, 73));
    lemma_paint_domain(s4, hb, (53, 31), dashed_line(0, y_amb, 73));
    lemma_paint_domain(w1, hb, (53, 31), dashed_line(0, y_goal, 73));
    lemma_with_points_outside_clip(w2, hb, (53, 31), chart, q);
    let w3 = with_points(w2, hb, (53, 31), chart);
    lemma_with_text_domain(w3, hb, (53, 31), bytes, (36, 24), true, "HISTORY"@);
    lemma_with_text_outside_clip(w3, hb, (53, 31), bytes, (36, 24), true, "HISTORY"@, q);
    let hi = history_panel(s4, bytes, y_amb, y_goal, chart);
    assert(hi[q] == s4[q]);
}

/// Everything drawn on the main screen apart from the heater panel's
/// contents leaves the pixels well inside the heater panel (columns 10 to
/// 49, rows 39 to 61) as those contents set them, over the screen's
/// starting pixels.
proof fn lemma_screen_spares_heater(
    m: Map<(int, int), bool>,
    root: Bounds,
    bytes: Seq<u8>,
    elapsed_secs: u64,
    cpu_percent: nat,
    goal: nat,
    temp: nat,
    state: State,
    watts: nat,
    percent: nat,
    bar_rows: int,
    y_amb: int,
    y_goal: int,
    chart: Seq<u32>,
    q: (int, int),
)
    requires
        m.dom().contains(q),
        10 <= q.0 <= 49,
        39 <= q.1 <= 61,
    ensures
        ({
            let o = (0int, 0int);
            let s1 = paint(status_panel(m, bytes, elapsed_secs, cpu_percent), root, o, outline(rect(52, 0, 127, 28)));
            let s2 = paint(
                paint(s1, rect(1, 1, 5, 62), (1, 1), progress_bar(4, 61, bar_rows)),
                root,
                o,
                outline(rect(0, 0, 6, 63)),
            );
            let s3 = paint(thermo_panel(s2, bytes, goal, temp), root, o, outline(rect(8, 0, 50, 35)));
            &&& s3.dom() == m.dom()
            &&& s3[q] == m[q]
            &&& screen(m, root, bytes, elapsed_secs, cpu_percent, goal, temp, state, watts, percent, bar_rows, y_amb, y_goal, chart)[q]
                == heater_panel(s3, bytes, state, watts, percent)[q]
        }),
{
    let o = (0int, 0int);
    let b1 = rect(55, 3, 126, 27);
    let b2 = rect(55, 12, 126, 27);
    let b3 = rect(55, 21, 126, 27);
    let t1 = with_text(m, b1, (55, 3), bytes, (1, 1), true, "STATUS"@);
    let t2 = with_text(t1, b1, (55, 3), bytes, (55, 1), true, "S"@);
    let t3 = with_text(t2, b1, (55, 3), bytes, (64, 1), true, "\u{E006}"@);
    let t4 = with_value(t3, b2, (55, 12), bytes, (0, 0), "\u{E000}\u{E008}"@, elapsed_unit(elapsed_secs), elapsed_amount(elapsed_secs));
    lemma_with_text_domain(m, b1, (55, 3), bytes, (1, 1), true, "STATUS"@);
    lemma_with_text_domain(t1, b1, (55, 3), bytes, (55, 1), true, "S"@);
    lemma_with_text_domain(t2, b1, (55, 3), bytes, (64, 1), true, "\u{E006}"@);
    lemma_with_text_outside_clip(m, b1, (55, 3), bytes, (1, 1), true, "STATUS"@, q);
    lemma_with_text_outside_clip(t1, b1, (55, 3), bytes, (55, 1), true, "S"@, q);
    lemma_with_text_outside_clip(t2, b1, (55, 3), bytes, (64, 1), true, "\u{E006}"@, q);
    lemma_with_value_outside_clip(t3, b2, (55, 12), bytes, (0, 0), "\u{E000}\u{E008}"@, elapsed_unit(elapsed_secs), elapsed_amount(elapsed_secs), q);
    lemma_with_value_outside_clip(t4, b3, (55, 21), bytes, (0, 0), "\u{E007}\u{E008}"@, "%"@, cpu_percent, q);
    let st = status_panel(m, bytes, elapsed_secs, cpu_percent);
    let s1 = paint(st, root, o, outline(rect(52, 0, 127, 28)));
    lemma_paint_domain(st, root, o, outline(rect(52, 0, 127, 28)));
    let s1b = paint(s1, rect(1, 1, 5, 62), (1, 1), progress_bar(4, 61, bar_rows));
    lemma_paint_domain(s1, rect(1, 1, 5, 62), (1, 1), progress_bar(4, 61, bar_rows));
    let s2 = paint(s1b, root, o, outline(rect(0, 0, 6, 63)));
    lemma_paint_domain(s1b, root, o, outline(rect(0, 0, 6, 63)));
    let u1 = with_text(s2, rect(11, 3, 49, 34), (11, 3), bytes, (1, 1), true, "THERMO"@);
    let u2 = with_value(u1, rect(11, 12, 49, 34), (11, 12), bytes, (0, 0), "T\u{E004}\u{E005}"@, "°C"@, goal);
    let u3 = with_value(u2, rect(11, 19, 49, 34), (11, 19), bytes, (0, 0), "T\u{E003}\u{E005}"@, "°C"@, temp);
    lemma_with_text_domain(s2, rect(11, 3, 49, 34), (11, 3), bytes, (1, 1), true, "THERMO"@);
    lemma_with_text_outside_clip(s2, rect(11, 3, 49, 34), (11, 3), bytes, (1, 1), true, "THERMO"@, q);
    lemma_with_value_outside_clip(u1, rect(11, 12, 49, 34), (11, 12), bytes, (0, 0), "T\u{E004}\u{E005}"@, "°C"@, goal, q);
    lemma_with_value_outside_clip(u2, rect(11, 19, 49, 34), (11, 19), bytes, (0, 0), "T\u{E003}\u{E005}"@, "°C"@, temp, q);
    lemma_with_value_outside_clip(u3, rect(11, 26, 49, 34), (11, 26), bytes, (0, 0), "T\u{E002}\u{E005}"@, "°C"@, temp, q);
    let th = thermo_panel(s2, bytes, goal, temp);
    let s3 = paint(th, root, o, outline(rect(8, 0, 50, 35)));
    lemma_paint_domain(th, root, o, outline(rect(8, 0, 50, 35)));
    assert(s3[q] == m[q]);
    let v1 = with_text(s3, rect(11, 40, 49, 62), (11, 40), bytes, (1, 1), true, state.label());
    let v2 = with_value(v1, rect(11, 49, 49, 62), (11, 49), bytes, (0, 0), "P\u{E005}"@, "W"@, watts);
    lemma_with_text_domain(s3, rect(11, 40, 49, 62), (11, 40), bytes, (1, 1), true, state.label());
    lemma_with_value_domain(v1, rect(11, 49, 49, 62), (11, 49), bytes, (0, 0), "P\u{E005}"@, "W"@, watts);
    lemma_with_value_domain(v2, rect(11, 56, 49, 62), (11, 56), bytes, (0, 0), "U\u{E005}"@, "%"@, percent);
    let hp = heater_panel(s3, bytes, state, watts, percent);
    let s4 = paint(hp, root, o, outline(rect(8, 37, 50, 63)));
    lemma_paint_domain(hp, root, o, outline(rect(8, 37, 50, 63)));
    assert(s4[q] == hp[q]);
    let hb = rect(53, 31, 126, 62);
    let w1 = paint(s4, hb, (53, 31), dashed_line(0, y_amb, 73));
    let w2 = paint(w1, hb, (53, 31), dashed_line(0, y_goal, 73));
    lemma_paint_domain(s4, hb, (53, 31), dashed_line(0, y_amb, 73));
    lemma_paint_domain(w1, hb, (53, 31), dashed_line(0, y_goal, 73));
    lemma_with_points_outside_clip(w2, hb, (53, 31), chart, q);
    let w3 = with_points(w2, hb, (53, 31), chart);
    lemma_with_text_domain(w3, hb, (53, 31), bytes, (36, 24), true, "HISTORY"@);
    lemma_with_text_outside_clip(w3, hb, (53, 31), bytes, (36, 24), true, "HISTORY"@, q);
    let hi = history_panel(s4, bytes, y_amb, y_goal, chart);
    assert(hi[q] == s4[q]);
}

/// The status bar shows the time since start-up on its second line and the
/// processor load on its third: the box of each digit of the elapsed amount
/// (seconds below a minute, whole minutes after), written after the
/// two-character prefix from (65, 12), and of each digit of `cpu_percent`
/// from (65, 21) holds the font's bits for that digit.
pub proof fn lemma_screen_status_readings(
    m: Map<(int, int), bool>,
    root: Bounds,
    bytes: Seq<u8>,
    elapsed_secs: u64,
    cpu_percent: nat,
    goal: nat,
    temp: nat,
    state: State,
    watts: nat,
    percent: nat,
    bar_rows: int,
    y_amb: int,
    y_goal: int,
    chart: Seq<u32>,
    k: int,
    i: int,
    j: int,
)
    requires
        0 <= i < 5,
        0 <= j < 5,
        forall|x: int, y: int| 55 <= x < 127 && 0 <= y < 28 ==> #[trigger] m.dom().contains((x, y)),
    ensures
        0 <= k < decimal(elapsed_amount(elapsed_secs)).len() && 65 + 5 * k + i <= 126 ==> screen(
            m,
            root,
            bytes,
            elapsed_secs,
            cpu_percent,
            goal,
            temp,
            state,
            watts,
            percent,
            bar_rows,
            y_amb,
            y_goal,
            chart,
        )[(65 + 5 * k + i, 12 + j)] == bit_of(
            bytes,
            25 * (decimal(elapsed_amount(elapsed_secs))[k] as int - 0x30) + 5 * j + i,
        ),
        0 <= k < decimal(cpu_percent).len() && 65 + 5 * k + i <= 126 ==> screen(
            m,
            root,
            bytes,
            elapsed_secs,
            cpu_percent,
            goal,
            temp,
            state,
            watts,
            percent,
            bar_rows,
            y_amb,
            y_goal,
            chart,
        )[(65 + 5 * k + i, 21 + j)] == bit_of(bytes, 25 * (decimal(cpu_percent)[k] as int - 0x30) + 5 * j + i),
{
    reveal_strlit("STATUS");
    reveal_strlit("S");
    reveal_strlit("M");
    reveal_strlit("%");
    reveal_strlit("\u{E006}");
    reveal_strlit("\u{E000}\u{E008}");
    reveal_strlit("\u{E007}\u{E008}");
    let b1 = rect(55, 3, 126, 27);
    let b2 = rect(55, 12, 126, 27);
    let b3 = rect(55, 21, 126, 27);
    let p1 = "\u{E000}\u{E008}"@;
    let p2 = "\u{E007}\u{E008}"@;
    let unit = elapsed_unit(elapsed_secs);
    let pc = "%"@;
    assert forall|l: int| 0 <= l < "STATUS"@.len() implies #[trigger] "STATUS"@[l] != '\n' by {}
    assert forall|l: int| 0 <= l < "S"@.len() implies #[trigger] "S"@[l] != '\n' by {}
    assert forall|l: int| 0 <= l < "\u{E006}"@.len() implies #[trigger] "\u{E006}"@[l] != '\n' by {}
    assert forall|l: int| 0 <= l < p1.len() implies #[trigger] p1[l] != '\n' by {}
    assert forall|l: int| 0 <= l < p2.len() implies #[trigger] p2[l] != '\n' by {}
    assert forall|l: int| 0 <= l < unit.len() implies #[trigger] unit[l] != '\n' by {}
    assert forall|l: int| 0 <= l < pc.len() implies #[trigger] pc[l] != '\n' by {}
    let t1 = with_text(m, b1, (55, 3), bytes, (1, 1), true, "STATUS"@);
    let t2 = with_text(t1, b1, (55, 3), bytes, (55, 1), true, "S"@);
    let t3 = with_text(t2, b1, (55, 3), bytes, (64, 1), true, "\u{E006}"@);
    let t4 = with_value(t3, b2, (55, 12), bytes, (0, 0), p1, unit, elapsed_amount(elapsed_secs));
    let qe = (65 + 5 * k + i, 12 + j);
    let qc = (65 + 5 * k + i, 21 + j);
    if 0 <= k && 65 + 5 * k + i <= 126 {
        assert(m.dom().contains(qe) && m.dom().contains(qc));
        lemma_with_text_domain(m, b1, (55, 3), bytes, (1, 1), true, "STATUS"@);
        lemma_with_text_domain(t1, b1, (55, 3), bytes, (55, 1), true, "S"@);
        lemma_with_text_domain(t2, b1, (55, 3), bytes, (64, 1), true, "\u{E006}"@);
        lemma_with_text_elsewhere(m, b1, (55, 3), bytes, (1, 1), true, "STATUS"@, qe);
        lemma_with_text_elsewhere(t1, b1, (55, 3), bytes, (55, 1), true, "S"@, qe);
        lemma_with_text_elsewhere(t2, b1, (55, 3), bytes, (64, 1), true, "\u{E006}"@, qe);
        lemma_with_text_elsewhere(m, b1, (55, 3), bytes, (1, 1), true, "STATUS"@, qc);
        lemma_with_text_elsewhere(t1, b1, (55, 3), bytes, (55, 1), true, "S"@, qc);
        lemma_with_text_elsewhere(t2, b1, (55, 3), bytes, (64, 1), true, "\u{E006}"@, qc);
        lemma_screen_spares_status(m, root, bytes, elapsed_secs, cpu_percent, goal, temp, state, watts, percent, bar_rows, y_amb, y_goal, chart, qe);
        lemma_screen_spares_status(m, root, bytes, elapsed_secs, cpu_percent, goal, temp, state, watts, percent, bar_rows, y_amb, y_goal, chart, qc);
        lemma_with_value_line(t3, b2, (55, 12), bytes, (0, 0), p1, unit, elapsed_amount(elapsed_secs), qe, k);
        lemma_with_value_line(t4, b3, (55, 21), bytes, (0, 0), p2, pc, cpu_percent, qe, k);
        lemma_with_value_line(t3, b2, (55, 12), bytes, (0, 0), p1, unit, elapsed_amount(elapsed_secs), qc, k);
        lemma_with_value_line(t4, b3, (55, 21), bytes, (0, 0), p2, pc, cpu_percent, qc, k);
    }
}

/// The heater panel shows the power in watts on its second line and in
/// percent on its third: the box of each digit of `watts`, written after the
/// two-character prefix from (21, 49), and of each digit of `percent` from
/// (21, 56) holds the font's bits for that digit wherever the panel holds it.
pub proof fn lemma_screen_heater_readings(
    m: Map<(int, int), bool>,
    root: Bounds,
    bytes: Seq<u8>,
    elapsed_secs: u64,
    cpu_percent: nat,
    goal: nat,
    temp: nat,
    state: State,
    watts: nat,
    percent: nat,
    bar_rows: int,
    y_amb: int,
    y_goal: int,
    chart: Seq<u32>,
    k: int,
    i: int,
    j: int,
)
    requires
        0 <= i < 5,
        0 <= j < 5,
        forall|x: int, y: int| 0 <= x < 50 && 37 <= y < 64 ==> #[trigger] m.dom().contains((x, y)),
    ensures
        0 <= k < decimal(watts).len() && 21 + 5 * k + i <= 49 ==> screen(
            m,
            root,
            bytes,
            elapsed_secs,
            cpu_percent,
            goal,
            temp,
            state,
            watts,
            percent,
            bar_rows,
            y_amb,
            y_goal,
            chart,
        )[(21 + 5 * k + i, 49 + j)] == bit_of(bytes, 25 * (decimal(watts)[k] as int - 0x30) + 5 * j + i),
        0 <= k < decimal(percent).len() && 21 + 5 * k + i <= 49 ==> screen(
            m,
            root,
            bytes,
            elapsed_secs,
            cpu_percent,
            goal,
            temp,
            state,
            watts,
            percent,
            bar_rows,
            y_amb,
            y_goal,
            chart,
        )[(21 + 5 * k + i, 56 + j)] == bit_of(bytes, 25 * (decimal(percent)[k] as int - 0x30) + 5 * j + i),
{
    reveal_strlit("HEATING");
    reveal_strlit("HOLDING");
    reveal_strlit("P\u{E005}");
    reveal_strlit("U\u{E005}");
    reveal_strlit("W");
    reveal_strlit("%");
    let label = state.label();
    let pw = "P\u{E005}"@;
    let pp = "U\u{E005}"@;
    let w = "W"@;
    let pc = "%"@;
    assert forall|l: int| 0 <= l < label.len() implies #[trigger] label[l] != '\n' by {}
    assert forall|l: int| 0 <= l < pw.len() implies #[trigger] pw[l] != '\n' by {}
    assert forall|l: int| 0 <= l < pp.len() implies #[trigger] pp[l] != '\n' by {}
    assert forall|l: int| 0 <= l < w.len() implies #[trigger] w[l] != '\n' by {}
    assert forall|l: int| 0 <= l < pc.len() implies #[trigger] pc[l] != '\n' by {}
    let o = (0int, 0int);
    let s1 = paint(status_panel(m, bytes, elapsed_secs, cpu_percent), root, o, outline(rect(52, 0, 127, 28)));
    let s2 = paint(
        paint(s1, rect(1, 1, 5, 62), (1, 1), progress_bar(4, 61, bar_rows)),
        root,
        o,
        outline(rect(0, 0, 6, 63)),
    );
    let s3 = paint(thermo_panel(s2, bytes, goal, temp), root, o, outline(rect(8, 0, 50, 35)));
    let v1 = with_text(s3, rect(11, 40, 49, 62), (11, 40), bytes, (1, 1), true, label);
    let v2 = with_value(v1, rect(11, 49, 49, 62), (11, 49), bytes, (0, 0), pw, w, watts);
    if 0 <= k && 21 + 5 * k + i <= 49 {
        let qw = (21 + 5 * k + i, 49 + j);
        let qp = (21 + 5 * k + i, 56 + j);
        assert(m.dom().contains(qw) && m.dom().contains(qp));
        lemma_screen_spares_heater(m, root, bytes, elapsed_secs, cpu_percent, goal, temp, state, watts, percent, bar_rows, y_amb, y_goal, chart, qw);
        lemma_screen_spares_heater(m, root, bytes, elapsed_secs, cpu_percent, goal, temp, state, watts, percent, bar_rows, y_amb, y_goal, chart, qp);
        lemma_with_text_domain(s3, rect(11, 40, 49, 62), (11, 40), bytes, (1, 1), true, label);
        lemma_with_text_elsewhere(s3, rect(11, 40, 49, 62), (11, 40), bytes, (1, 1), true, label, qw);
        lemma_with_text_elsewhere(s3, rect(11, 40, 49, 62), (11, 40), bytes, (1, 1), true, label, qp);
        lemma_with_value_line(v1, rect(11, 49, 49, 62), (11, 49), bytes, (0, 0), pw, w, watts, qw, k);
        lemma_with_value_line(v2, rect(11, 56, 49, 62), (11, 56), bytes, (0, 0), pp, pc, percent, qw, k);
        lemma_with_value_line(v1, rect(11, 49, 49, 62), (11, 49), bytes, (0, 0), pw, w, watts, qp, k);
        lemma_with_value_line(v2, rect(11, 56, 49, 62), (11, 56), bytes, (0, 0), pp, pc, percent, qp, k);
    }
}

} // verus!
