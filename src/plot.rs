use vstd::prelude::*;
use crate::canvas::{Image, Color, faded, put};
use crate::table::{LoadError, LoadedTable, csv_records, load_csv, table_of, all_numeric, width_of};
use crate::decimal::{Decimal, pow10, lemma_pow10_18, lemma_pow10_monotone, lemma_pow10_positive};

verus! {

/// The fade applied before each frame, as `DECAY_NUM / DECAY_DEN`.
pub const DECAY_NUM: u8 = 95;

pub const DECAY_DEN: u8 = 100;

/// Distance from the canvas edge or its middle to a lane's left edge.
pub const LANE_INSET: usize = 10;

/// Distance from a lane's left edge to the first sample.
pub const LEFT_MARGIN: usize = 50;

/// Height of one band of series, in pixels.
pub const BAND_HEIGHT: usize = 180;

/// Height of the lowest baseline above the bottom edge.
pub const BASELINE_BOTTOM: usize = 120;

/// The color of series `i`, each channel wrapping modulo 256.
pub open spec fn series_color(i: int) -> Color {
    Color {
        r: ((i * 30) % 256) as u8,
        g: ((255 - i * 20) % 256) as u8,
        b: ((50 + i * 10) % 256) as u8,
    }
}

/// Horizontal offset of series `i`: two lanes side by side.
pub open spec fn lane_offset(i: int, w: int) -> int {
    (i % 2) * (w / 2) + LANE_INSET
}

/// Height of the baseline of series `i` above the bottom edge.
pub open spec fn band_offset(i: int) -> int {
    (i / 2) * BAND_HEIGHT + BASELINE_BOTTOM
}

/// The pixel column of sample `j` at horizontal scale `xs` in a lane that
/// starts at `off`: `None` where `j * xs + 50 + off` lies outside `[0, w)`.
pub open spec fn column_at(j: int, xs: Decimal, off: int, w: int) -> Option<int> {
    let p = pow10(xs.exp as nat);
    let num = j * xs.mant + (LEFT_MARGIN + off) * p;
    if 0 <= num < w * p {
        Some(num / p)
    } else {
        None
    }
}

/// The pixel row of value `v` at vertical scale `ys` over a baseline `off`
/// above the bottom: `None` where `h - (v * ys + off)` lies outside
/// `[0, h)`.
pub open spec fn row_at(v: Decimal, ys: Decimal, off: int, h: int) -> Option<int> {
    let d = pow10((v.exp + ys.exp) as nat);
    let s = v.mant * ys.mant + off * d;
    if 0 < s <= h * d {
        Some((h * d - s) / d)
    } else {
        None
    }
}

/// The pixel row of a baseline `off` above the bottom.
pub open spec fn baseline_row(off: int, h: int) -> Option<int> {
    if 0 < off <= h {
        Some(h - off)
    } else {
        None
    }
}

/// A point to plot: its column, its row, where both are on the canvas, and
/// its color.
pub type Mark = (Option<int>, Option<int>, Color);

/// The marks of series `i`: for each sample, its data point, then its
/// baseline point.
pub open spec fn series_marks(
    i: int,
    col: Seq<Decimal>,
    w: int,
    h: int,
    xs: Decimal,
    ys: Decimal,
) -> Seq<Mark> {
    Seq::new(
        2 * col.len(),
        |k: int|
            {
                let j = k / 2;
                let x = column_at(j, xs, lane_offset(i, w), w);
                if k % 2 == 0 {
                    (x, row_at(col[j], ys, band_offset(i), h), series_color(i))
                } else {
                    (x, baseline_row(band_offset(i), h), Color { r: 160, g: 160, b: 160 })
                }
            },
    )
}

/// The marks of all series, in order.
pub open spec fn table_marks(cols: Seq<Seq<Decimal>>, w: int, h: int, xs: Decimal, ys: Decimal) -> Seq<
    Mark,
>
    decreases cols.len(),
{
    if cols.len() == 0 {
        Seq::empty()
    } else {
        table_marks(cols.drop_last(), w, h, xs, ys) + series_marks(
            cols.len() - 1,
            cols.last(),
            w,
            h,
            xs,
            ys,
        )
    }
}

pub open spec fn put_mark(p: Seq<Color>, w: int, h: int, m: Mark) -> Seq<Color> {
    match (m.0, m.1) {
        (Some(x), Some(y)) => put(p, w, h, x, y, m.2),
        _ => p,
    }
}

/// The pixels after plotting `marks` in order.
pub open spec fn paint(p: Seq<Color>, w: int, h: int, marks: Seq<Mark>) -> Seq<Color>
    decreases marks.len(),
{
    if marks.len() == 0 {
        p
    } else {
        put_mark(paint(p, w, h, marks.drop_last()), w, h, marks.last())
    }
}

/// One frame: the previous pixels faded, then every series plotted.
pub open spec fn rendered(
    p: Seq<Color>,
    w: int,
    h: int,
    cols: Seq<Seq<Decimal>>,
    xs: Decimal,
    ys: Decimal,
) -> Seq<Color> {
    paint(faded(p, DECAY_NUM, DECAY_DEN), w, h, table_marks(cols, w, h, xs, ys))
}

fn pow10_exec(e: u32) -> (r: u64)
    requires
        e <= 18,
    ensures
        r == pow10(e as nat),
{
    let mut r: u64 = 1;
    let mut k: u32 = 0;
    while k < e
        invariant
            k <= e <= 18,
            r == pow10(k as nat),
        decreases e - k,
    {
        proof {
            lemma_pow10_monotone((k + 1) as nat, 18);
            lemma_pow10_18();
        }
        r = r * 10;
        k = k + 1;
    }
    r
}

/// The color of series `i`.
pub fn color_of_series(i: usize) -> (c: Color)
    ensures
        c == series_color(i as int),
{
    let k: usize = i % 256;
    let r = (k * 30 % 256) as u8;
    let g = ((255 + 5120 - k * 20) % 256) as u8;
    let b = ((50 + k * 10) % 256) as u8;
    proof {
        let q = i as int / 256;
        vstd::arithmetic::div_mod::lemma_fundamental_div_mod(i as int, 256);
        assert(i * 30 == 256 * (30 * q) + k * 30) by (nonlinear_arith)
            requires
                i == 256 * q + k,
        ;
        vstd::arithmetic::div_mod::lemma_mod_multiples_vanish(30 * q, k * 30, 256);
        assert(255 - i * 20 == 256 * (-20 * q - 20) + (255 + 5120 - k * 20)) by (nonlinear_arith)
            requires
                i == 256 * q + k,
        ;
        vstd::arithmetic::div_mod::lemma_mod_multiples_vanish(-20 * q - 20, 255 + 5120 - k * 20, 256);
        assert(50 + i * 10 == 256 * (10 * q) + (50 + k * 10)) by (nonlinear_arith)
            requires
                i == 256 * q + k,
        ;
        vstd::arithmetic::div_mod::lemma_mod_multiples_vanish(10 * q, 50 + k * 10, 256);
    }
    Color { r, g, b }
}

/// The pixel column of sample `j` in a lane starting at `off`.
fn sample_column(j: usize, xs: Decimal, off: usize, w: usize) -> (r: Option<usize>)
    requires
        xs.wf(),
    ensures
        r matches Some(x) ==> column_at(j as int, xs, off as int, w as int) == Some(x as int),
        r is None ==> column_at(j as int, xs, off as int, w as int) is None,
{
    let p = pow10_exec(xs.exp);
    proof {
        lemma_pow10_18();
        lemma_pow10_monotone(xs.exp as nat, 9);
        lemma_pow10_positive(xs.exp as nat);
        assert(j * xs.mant <= 0x1_0000_0000_0000_0000 * 1_000_000_000_000_000_000) by (
        nonlinear_arith)
            requires
                0 <= j < 0x1_0000_0000_0000_0000,
                -1_000_000_000_000_000_000 < xs.mant < 1_000_000_000_000_000_000,
        ;
        assert(j * xs.mant >= -0x1_0000_0000_0000_0000 * 1_000_000_000_000_000_000) by (
        nonlinear_arith)
            requires
                0 <= j < 0x1_0000_0000_0000_0000,
                -1_000_000_000_000_000_000 < xs.mant < 1_000_000_000_000_000_000,
        ;
        assert((LEFT_MARGIN + off) * p <= (0x1_0000_0000_0000_0000 + 50) * 1_000_000_000) by (
        nonlinear_arith)
            requires
                0 <= off < 0x1_0000_0000_0000_0000,
                1 <= p <= 1_000_000_000,
        ;
        assert(w * p <= 0x1_0000_0000_0000_0000 * 1_000_000_000) by (nonlinear_arith)
            requires
                0 <= w < 0x1_0000_0000_0000_0000,
                1 <= p <= 1_000_000_000,
        ;
    }
    let pi = p as i128;
    let num: i128 = j as i128 * xs.mant as i128 + (LEFT_MARGIN as i128 + off as i128) * pi;
    if 0 <= num && num < w as i128 * pi {
        let x = num / pi;
        proof {
            let ni = num as int;
            let pp = pi as int;
            vstd::arithmetic::div_mod::lemma_fundamental_div_mod(ni, pp);
            vstd::arithmetic::div_mod::lemma_mod_pos_bound(ni, pp);
            vstd::arithmetic::div_mod::lemma_div_pos_is_pos(ni, pp);
            assert(ni / pp < w) by (nonlinear_arith)
                requires
                    ni == pp * (ni / pp) + ni % pp,
                    0 <= ni % pp,
                    ni < w * pp,
                    pp > 0,
            ;
        }
        Some(x as usize)
    } else {
        None
    }
}

/// The pixel row of value `v` over a baseline `off` above the bottom.
fn sample_row(v: Decimal, ys: Decimal, off: i128, h: usize) -> (r: Option<usize>)
    requires
        v.wf(),
        ys.wf(),
        0 <= off < 0x1_0000_0000_0000_0000_0000,
    ensures
        r matches Some(y) ==> row_at(v, ys, off as int, h as int) == Some(y as int),
        r is None ==> row_at(v, ys, off as int, h as int) is None,
{
    let e: u32 = v.exp + ys.exp;
    let d = pow10_exec(e);
    let ghost big: int = 1_000_000_000_000_000_000;
    proof {
        lemma_pow10_18();
        lemma_pow10_monotone(e as nat, 18);
        lemma_pow10_positive(e as nat);
        assert(-big * big <= v.mant * ys.mant <= big * big) by (nonlinear_arith)
            requires
                -big < v.mant < big,
                -big < ys.mant < big,
                big > 0,
        ;
        assert(h * d <= 0x1_0000_0000_0000_0000 * big) by (nonlinear_arith)
            requires
                0 <= h < 0x1_0000_0000_0000_0000,
                1 <= d <= big,
        ;
    }
    let di = d as i128;
    let mp: i128 = v.mant as i128 * ys.mant as i128;
    let hd: i128 = h as i128 * di;
    let od = match off.checked_mul(di) {
        Some(od) => od,
        None => {
            return None;
        },
    };
    let sum = match mp.checked_add(od) {
        Some(sum) => sum,
        None => {
            return None;
        },
    };
    if 0 < sum && sum <= hd {
        let y = (hd - sum) / di;
        proof {
            let ni = (hd - sum) as int;
            let dd = di as int;
            vstd::arithmetic::div_mod::lemma_fundamental_div_mod(ni, dd);
            vstd::arithmetic::div_mod::lemma_mod_pos_bound(ni, dd);
            vstd::arithmetic::div_mod::lemma_div_pos_is_pos(ni, dd);
            assert(ni / dd < h) by (nonlinear_arith)
                requires
                    ni == dd * (ni / dd) + ni % dd,
                    0 <= ni % dd,
                    ni < h * dd,
                    dd > 0,
            ;
        }
        Some(y as usize)
    } else {
        None
    }
}

/// The pixel row of a baseline `off` above the bottom.
fn base_row(off: i128, h: usize) -> (r: Option<usize>)
    ensures
        r matches Some(y) ==> baseline_row(off as int, h as int) == Some(y as int),
        r is None ==> baseline_row(off as int, h as int) is None,
{
    if 0 < off && off <= h as i128 {
        Some((h as i128 - off) as usize)
    } else {
        None
    }
}

proof fn lemma_paint_push(p: Seq<Color>, w: int, h: int, marks: Seq<Mark>, m: Mark)
    ensures
        paint(p, w, h, marks.push(m)) == put_mark(paint(p, w, h, marks), w, h, m),
{
    assert(marks.push(m).drop_last() =~= marks);
}

/// Draws one frame: fades the canvas, then plots every column of `table`
/// as a series, each sample with its data point and its baseline point.
/// Points off the canvas are dropped.
pub fn render(canvas: &mut Image, table: &LoadedTable, x_scale: Decimal, y_scale: Decimal)
    requires
        old(canvas).wf(),
        table.wf(),
        x_scale.wf(),
        y_scale.wf(),
    ensures
        final(canvas).wf(),
        final(canvas).width == old(canvas).width,
        final(canvas).height == old(canvas).height,
        final(canvas)@ == rendered(
            old(canvas)@,
            old(canvas).width as int,
            old(canvas).height as int,
            table@,
            x_scale,
            y_scale,
        ),
{
    let w = canvas.width;
    let h = canvas.height;
    canvas.decay(DECAY_NUM, DECAY_DEN);
    let ghost base = canvas@;
    let ghost cols = table@;
    let nc = table.columns.len();
    let mut i: usize = 0;
    while i < nc
        invariant
            canvas.wf(),
            canvas.width == w,
            canvas.height == h,
            table.wf(),
            x_scale.wf(),
            y_scale.wf(),
            cols == table@,
            nc == cols.len(),
            i <= nc,
            canvas@ == paint(base, w as int, h as int, table_marks(cols.take(i as int), w as int, h as int, x_scale, y_scale)),
        decreases nc - i,
    {
        let color = color_of_series(i);
        let gray = Color::gray();
        let off_x: usize = if i % 2 == 0 {
            LANE_INSET
        } else {
            w / 2 + LANE_INSET
        };
        let off_y: i128 = (i / 2) as i128 * BAND_HEIGHT as i128 + BASELINE_BOTTOM as i128;
        assert(off_x == lane_offset(i as int, w as int)) by {
            let l = (i as int) % 2;
            assert(l == 0 || l == 1);
            assert(l * (w as int / 2) == if l == 0 { 0 } else { w as int / 2 }) by (nonlinear_arith)
                requires
                    l == 0 || l == 1,
            ;
        }
        assert(off_y == band_offset(i as int));
        let col = &table.columns[i];
        let ghost samples = cols[i as int];
        assert(samples == col@);
        let ghost done = table_marks(cols.take(i as int), w as int, h as int, x_scale, y_scale);
        let ghost marks = series_marks(i as int, samples, w as int, h as int, x_scale, y_scale);
        let n = col.len();
        let mut j: usize = 0;
        while j < n
            invariant
                canvas.wf(),
                canvas.width == w,
                canvas.height == h,
                table.wf(),
                x_scale.wf(),
                y_scale.wf(),
                cols == table@,
                i < nc == cols.len(),
                samples == cols[i as int],
                samples == col@,
                n == samples.len(),
                j <= n,
                color == series_color(i as int),
                gray == (Color { r: 160, g: 160, b: 160 }),
                off_x == lane_offset(i as int, w as int),
                off_y == band_offset(i as int),
                marks == series_marks(i as int, samples, w as int, h as int, x_scale, y_scale),
                canvas@ == paint(base, w as int, h as int, done + marks.take(2 * j)),
            decreases n - j,
        {
            let x = sample_column(j, x_scale, off_x, w);
            let y = sample_row(col[j], y_scale, off_y, h);
            let yb = base_row(off_y, h);
            let ghost m1 = marks[2 * j];
            let ghost m2 = marks[2 * j + 1];
            let ghost prev = done + marks.take(2 * j);
            assert(marks.take(2 * j + 2) =~= marks.take(2 * j).push(m1).push(m2));
            assert(done + marks.take(2 * j + 2) =~= prev.push(m1).push(m2));
            proof {
                lemma_paint_push(base, w as int, h as int, prev, m1);
                lemma_paint_push(base, w as int, h as int, prev.push(m1), m2);
                assert((2 * j) / 2 == j);
                assert((2 * j + 1) / 2 == j);
                assert((2 * j) % 2 == 0);
                assert((2 * j + 1) % 2 == 1);
            }
            match (x, y) {
                (Some(x), Some(y)) => {
                    canvas.set_pixel(x, y, color);
                },
                _ => {},
            }
            match (x, yb) {
                (Some(x), Some(yb)) => {
                    canvas.set_pixel(x, yb, gray);
                },
                _ => {},
            }
            j = j + 1;
        }
        proof {
            assert(marks.take(2 * n) =~= marks);
            assert(cols.take(i + 1).drop_last() =~= cols.take(i as int));
        }
        i = i + 1;
    }
    assert(cols.take(nc as int) =~= cols);
}

/// Loads `text` and draws it as one frame. Where the text cannot be
/// loaded the canvas is left as it was.
pub fn make_plot(canvas: &mut Image, text: &[u8], x_scale: Decimal, y_scale: Decimal) -> (r: Result<
    (),
    LoadError,
>)
    requires
        old(canvas).wf(),
        x_scale.wf(),
        y_scale.wf(),
    ensures
        final(canvas).wf(),
        final(canvas).width == old(canvas).width,
        final(canvas).height == old(canvas).height,
        csv_records(text@) is None ==> r == Err::<(), LoadError>(LoadError::Malformed),
        csv_records(text@) matches Some(rows) ==> (r is Ok <==> all_numeric(rows, width_of(rows))),
        csv_records(text@) matches Some(rows) ==> r is Ok ==> final(canvas)@ == rendered(
            old(canvas)@,
            old(canvas).width as int,
            old(canvas).height as int,
            table_of(rows),
            x_scale,
            y_scale,
        ),
        r is Err ==> r == Err::<(), LoadError>(LoadError::Malformed) || r == Err::<(), LoadError>(
            LoadError::NotANumber,
        ),
        r is Err ==> final(canvas)@ == old(canvas)@,
{
    match load_csv(text) {
        Err(e) => Err(e),
        Ok(table) => {
            render(canvas, &table, x_scale, y_scale);
            Ok(())
        },
    }
}

} // verus!
