//! Line rasterisers.

use vstd::prelude::*;

use crate::plot::coverage::Coverage;
use crate::plot::{absorb, put, stroke, Brush, Emission, Plotter};

verus! {

/// The absolute value.
pub open spec fn abs(v: int) -> int {
    if v < 0 {
        -v
    } else {
        v
    }
}

/// The direction of a step along an axis: `1` or `-1`.
pub open spec fn sign(v: int) -> int {
    if v < 0 {
        -1
    } else {
        1
    }
}

/// The number of steps of the line: the greater of the two absolute deltas.
pub open spec fn line_steps(x0: int, y0: int, x1: int, y1: int) -> int {
    if abs(y1 - y0) > abs(x1 - x0) {
        abs(y1 - y0)
    } else {
        abs(x1 - x0)
    }
}

/// How far the line has moved along its minor axis after `k` steps along the
/// major one: `k * minor / major`, rounded to the nearest integer, a half
/// upwards.
pub open spec fn line_drift(minor: int, major: int, k: int) -> int {
    if major == 0 {
        0
    } else {
        (2 * k * minor + major) / (2 * major)
    }
}

/// The pixel of the line after `k` steps.  The major axis is the one with the
/// greater absolute delta, x where they are equal.
pub open spec fn line_point(x0: int, y0: int, x1: int, y1: int, k: int) -> (int, int) {
    let dx = x1 - x0;
    let dy = y1 - y0;
    if abs(dy) > abs(dx) {
        (x0 + sign(dx) * line_drift(abs(dx), abs(dy), k), y0 + sign(dy) * k)
    } else {
        (x0 + sign(dx) * k, y0 + sign(dy) * line_drift(abs(dy), abs(dx), k))
    }
}

/// The path of the line from `(x0, y0)` to `(x1, y1)`: one fully covered pixel
/// for each step along the major axis, the first endpoint first.
pub open spec fn line_emissions(x0: int, y0: int, x1: int, y1: int) -> Seq<Emission> {
    Seq::new(
        (line_steps(x0, y0, x1, y1) + 1) as nat,
        |k: int|
            Emission {
                x: line_point(x0, y0, x1, y1, k).0,
                y: line_point(x0, y0, x1, y1, k).1,
                coverage: Coverage::spec_full(),
            },
    )
}

/// Quotient and remainder are the only pair with `x == d * q + r` and
/// `0 <= r < d`.
pub(crate) proof fn lemma_div_unique(x: int, d: int, q: int, r: int)
    requires
        d > 0,
        0 <= r < d,
        x == d * q + r,
    ensures
        x / d == q,
        x % d == r,
{
    assert(d * q == q * d) by (nonlinear_arith);
    vstd::arithmetic::div_mod::lemma_fundamental_div_mod_converse(x, d, q, r);
}

/// The drift is what the error accumulator says it is: if
/// `acc == 2 * k * minor + major - 2 * major * off` lies in `[0, 2 * major)`,
/// then `off` is the drift after `k` steps.
proof fn lemma_drift_from_acc(minor: int, major: int, k: int, off: int, acc: int)
    requires
        major > 0,
        0 <= acc < 2 * major,
        acc == 2 * k * minor + major - 2 * major * off,
    ensures
        off == line_drift(minor, major, k),
{
    lemma_div_unique(2 * k * minor + major, 2 * major, off, acc);
}

/// The drift never leaves `[0, minor]` and ends at `minor`.
pub proof fn lemma_drift_bounds(minor: int, major: int, k: int)
    requires
        0 <= minor <= major,
        0 <= k <= major,
    ensures
        0 <= line_drift(minor, major, k) <= minor,
        line_drift(minor, major, 0) == 0,
        line_drift(minor, major, major) == minor,
{
    if major > 0 {
        let d = 2 * major;
        let v = 2 * k * minor + major;
        let q = v / d;
        let r = v % d;
        vstd::arithmetic::div_mod::lemma_fundamental_div_mod(v, d);
        vstd::arithmetic::div_mod::lemma_mod_bound(v, d);
        assert(0 <= q <= minor) by (nonlinear_arith)
            requires
                v == d * q + r,
                0 <= r < d,
                d == 2 * major,
                v == 2 * k * minor + major,
                major > 0,
                0 <= minor,
                0 <= k <= major,
        ;
        assert(2 * 0 * minor + major == d * 0 + major) by (nonlinear_arith);
        lemma_div_unique(2 * 0 * minor + major, d, 0, major);
        assert(2 * major * minor + major == d * minor + major) by (nonlinear_arith)
            requires
                d == 2 * major,
        ;
        lemma_div_unique(2 * major * minor + major, d, minor, major);
    }
}

/// One more step moves the drift by nothing or by one.
pub proof fn lemma_drift_step(minor: int, major: int, k: int)
    requires
        0 <= minor <= major,
        0 <= k < major,
    ensures
        line_drift(minor, major, k + 1) == line_drift(minor, major, k) || line_drift(
            minor,
            major,
            k + 1,
        ) == line_drift(minor, major, k) + 1,
{
    let d = 2 * major;
    let v = 2 * k * minor + major;
    let w = 2 * (k + 1) * minor + major;
    assert(w == v + 2 * minor) by (nonlinear_arith)
        requires
            v == 2 * k * minor + major,
            w == 2 * (k + 1) * minor + major,
    ;
    vstd::arithmetic::div_mod::lemma_fundamental_div_mod(v, d);
    vstd::arithmetic::div_mod::lemma_mod_bound(v, d);
    let q = v / d;
    let r = v % d;
    assert(d * (q + 1) == d * q + d) by (nonlinear_arith);
    if r + 2 * minor < d {
        lemma_div_unique(w, d, q, r + 2 * minor);
    } else {
        lemma_div_unique(w, d, q + 1, r + 2 * minor - d);
    }
}

/// Whether two pixels touch, by a side or by a corner, and differ.
pub open spec fn adjacent(p: (int, int), q: (int, int)) -> bool {
    &&& abs(q.0 - p.0) <= 1
    &&& abs(q.1 - p.1) <= 1
    &&& p != q
}

/// Where along its major axis the `k`-th pixel of the line lies, counted from
/// the first endpoint.
proof fn lemma_line_point(x0: int, y0: int, x1: int, y1: int, k: int)
    requires
        0 <= k <= line_steps(x0, y0, x1, y1),
    ensures
        ({
            let p = line_point(x0, y0, x1, y1, k);
            let steep = abs(y1 - y0) > abs(x1 - x0);
            let minor = if steep { abs(x1 - x0) } else { abs(y1 - y0) };
            let drift = line_drift(minor, line_steps(x0, y0, x1, y1), k);
            &&& 0 <= drift <= minor
            &&& steep ==> p.1 == y0 + (if y1 < y0 { -k } else { k }) && p.0 == x0 + (if x1 < x0 {
                -drift
            } else {
                drift
            })
            &&& !steep ==> p.0 == x0 + (if x1 < x0 { -k } else { k }) && p.1 == y0 + (if y1
                < y0 {
                -drift
            } else {
                drift
            })
        }),
{
    let steep = abs(y1 - y0) > abs(x1 - x0);
    let major = line_steps(x0, y0, x1, y1);
    let minor = if steep { abs(x1 - x0) } else { abs(y1 - y0) };
    let drift = line_drift(minor, major, k);
    lemma_drift_bounds(minor, major, k);
    assert(sign(x1 - x0) * k == if x1 < x0 { -k } else { k }) by (nonlinear_arith)
        requires
            sign(x1 - x0) == (if x1 < x0 { -1int } else { 1int }),
    ;
    assert(sign(y1 - y0) * k == if y1 < y0 { -k } else { k }) by (nonlinear_arith)
        requires
            sign(y1 - y0) == (if y1 < y0 { -1int } else { 1int }),
    ;
    assert(sign(x1 - x0) * drift == if x1 < x0 { -drift } else { drift }) by (nonlinear_arith)
        requires
            sign(x1 - x0) == (if x1 < x0 { -1int } else { 1int }),
    ;
    assert(sign(y1 - y0) * drift == if y1 < y0 { -drift } else { drift }) by (nonlinear_arith)
        requires
            sign(y1 - y0) == (if y1 < y0 { -1int } else { 1int }),
    ;
}

/// Each pixel of the line touches the next.
pub proof fn lemma_line_adjacent(x0: int, y0: int, x1: int, y1: int, k: int)
    requires
        0 <= k < line_steps(x0, y0, x1, y1),
    ensures
        adjacent(line_point(x0, y0, x1, y1, k), line_point(x0, y0, x1, y1, k + 1)),
{
    let steep = abs(y1 - y0) > abs(x1 - x0);
    let minor = if steep { abs(x1 - x0) } else { abs(y1 - y0) };
    lemma_line_point(x0, y0, x1, y1, k);
    lemma_line_point(x0, y0, x1, y1, k + 1);
    lemma_drift_step(minor, line_steps(x0, y0, x1, y1), k);
}

/// No pixel of the line comes twice.
pub proof fn lemma_line_distinct(x0: int, y0: int, x1: int, y1: int, i: int, j: int)
    requires
        0 <= i < j <= line_steps(x0, y0, x1, y1),
    ensures
        line_point(x0, y0, x1, y1, i) != line_point(x0, y0, x1, y1, j),
{
    lemma_line_point(x0, y0, x1, y1, i);
    lemma_line_point(x0, y0, x1, y1, j);
}

/// The line starts at its first endpoint and ends at its second.
pub proof fn lemma_line_ends(x0: int, y0: int, x1: int, y1: int)
    ensures
        line_point(x0, y0, x1, y1, 0) == (x0, y0),
        line_point(x0, y0, x1, y1, line_steps(x0, y0, x1, y1)) == (x1, y1),
{
    let steps = line_steps(x0, y0, x1, y1);
    let steep = abs(y1 - y0) > abs(x1 - x0);
    let minor = if steep { abs(x1 - x0) } else { abs(y1 - y0) };
    lemma_line_point(x0, y0, x1, y1, 0);
    lemma_line_point(x0, y0, x1, y1, steps);
    lemma_drift_bounds(minor, steps, 0);
}

/// The line is a path from the first endpoint to the second: it has
/// `max(|dx|, |dy|) + 1` pixels, each fully covered, each touching the next,
/// and none of them twice.
pub proof fn lemma_line_path(x0: int, y0: int, x1: int, y1: int)
    ensures
        line_emissions(x0, y0, x1, y1).len() == line_steps(x0, y0, x1, y1) + 1,
        line_steps(x0, y0, x1, y1) == if abs(x1 - x0) > abs(y1 - y0) {
            abs(x1 - x0)
        } else {
            abs(y1 - y0)
        },
        line_point(x0, y0, x1, y1, 0) == (x0, y0),
        line_point(x0, y0, x1, y1, line_steps(x0, y0, x1, y1)) == (x1, y1),
        forall|k: int|
            0 <= k <= line_steps(x0, y0, x1, y1) ==> {
                let e = #[trigger] line_emissions(x0, y0, x1, y1)[k];
                (e.x, e.y) == line_point(x0, y0, x1, y1, k) && e.coverage == Coverage::spec_full()
            },
        forall|k: int|
            0 <= k < line_steps(x0, y0, x1, y1) ==> adjacent(
                #[trigger] line_point(x0, y0, x1, y1, k),
                line_point(x0, y0, x1, y1, k + 1),
            ),
        forall|i: int, j: int|
            0 <= i < j <= line_steps(x0, y0, x1, y1) ==> #[trigger] line_point(x0, y0, x1, y1, i)
                != #[trigger] line_point(x0, y0, x1, y1, j),
{
    lemma_line_ends(x0, y0, x1, y1);
    assert forall|k: int| 0 <= k < line_steps(x0, y0, x1, y1) implies adjacent(
        #[trigger] line_point(x0, y0, x1, y1, k),
        line_point(x0, y0, x1, y1, k + 1),
    ) by {
        lemma_line_adjacent(x0, y0, x1, y1, k);
    }
    assert forall|i: int, j: int| 0 <= i < j <= line_steps(x0, y0, x1, y1) implies #[trigger] line_point(
        x0,
        y0,
        x1,
        y1,
        i,
    ) != #[trigger] line_point(x0, y0, x1, y1, j) by {
        lemma_line_distinct(x0, y0, x1, y1, i, j);
    }
}

/// Draws the line from `(x0, y0)` to `(x1, y1)` by integer error accumulation.
///
/// The brush is put on `max(|dx|, |dy|) + 1` pixels, both endpoints among
/// them: one for each step along the major axis, the minor coordinate being
/// the ideal one rounded to the nearest integer.
#[verifier::rlimit(50)]
pub fn draw_line_bresenham<P: Plotter>(
    x0: i64,
    y0: i64,
    x1: i64,
    y1: i64,
    plot: &mut P,
    brush: Brush,
)
    requires
        (*old(plot)).inv(),
        brush.fits(x0 as int, y0 as int),
        brush.fits(x1 as int, y1 as int),
    ensures
        (*final(plot)).inv(),
        (*final(plot)).size() == (*old(plot)).size(),
        (*final(plot)).model() == absorb::<P>(
            (*old(plot)).model(),
            stroke(line_emissions(x0 as int, y0 as int, x1 as int, y1 as int), brush),
        ),
{
    let dx: i128 = x1 as i128 - x0 as i128;
    let dy: i128 = y1 as i128 - y0 as i128;
    let adx: i128 = if dx < 0 { -dx } else { dx };
    let ady: i128 = if dy < 0 { -dy } else { dy };
    let sx: i128 = if dx < 0 { -1 } else { 1 };
    let sy: i128 = if dy < 0 { -1 } else { 1 };
    let steep: bool = ady > adx;
    let major: i128 = if steep { ady } else { adx };
    let minor: i128 = if steep { adx } else { ady };
    let ghost start = (*plot).model();
    let ghost wanted = line_emissions(x0 as int, y0 as int, x1 as int, y1 as int);
    let ghost mut done: Seq<Emission> = Seq::empty();
    let mut k: i128 = 0;
    let mut off: i128 = 0;
    let mut acc: i128 = major;
    proof {
        lemma_drift_bounds(minor as int, major as int, 0);
    }
    loop
        invariant_except_break
            0 <= k <= major,
            done == wanted.subrange(0, k as int),
        invariant
            (*plot).inv(),
            (*plot).size() == (*old(plot)).size(),
            brush.fits(x0 as int, y0 as int),
            brush.fits(x1 as int, y1 as int),
            dx == x1 - x0,
            dy == y1 - y0,
            adx == abs(dx as int),
            ady == abs(dy as int),
            sx == sign(dx as int),
            sy == sign(dy as int),
            steep == (ady > adx),
            major == line_steps(x0 as int, y0 as int, x1 as int, y1 as int),
            major == if steep { ady } else { adx },
            minor == if steep { adx } else { ady },
            0 <= minor <= major,
            off == line_drift(minor as int, major as int, k as int),
            major > 0 ==> 0 <= acc < 2 * major,
            acc == 2 * k * minor + major - 2 * major * off,
            wanted == line_emissions(x0 as int, y0 as int, x1 as int, y1 as int),
            (*plot).model() == absorb::<P>(start, stroke(done, brush)),
        ensures
            done == wanted,
        decreases major - k,
    {
        proof {
            lemma_drift_bounds(minor as int, major as int, k as int);
        }
        let px: i128 = if steep { x0 as i128 + sx * off } else { x0 as i128 + sx * k };
        let py: i128 = if steep { y0 as i128 + sy * k } else { y0 as i128 + sy * off };
        proof {
            assert(px == line_point(x0 as int, y0 as int, x1 as int, y1 as int, k as int).0);
            assert(py == line_point(x0 as int, y0 as int, x1 as int, y1 as int, k as int).1);
            assert(sx * off == if sx == 1 { off as int } else { -off }) by (nonlinear_arith)
                requires
                    sx == 1 || sx == -1,
            ;
            assert(sx * k == if sx == 1 { k as int } else { -k }) by (nonlinear_arith)
                requires
                    sx == 1 || sx == -1,
            ;
            assert(sy * off == if sy == 1 { off as int } else { -off }) by (nonlinear_arith)
                requires
                    sy == 1 || sy == -1,
            ;
            assert(sy * k == if sy == 1 { k as int } else { -k }) by (nonlinear_arith)
                requires
                    sy == 1 || sy == -1,
            ;
        }
        put(plot, px as i64, py as i64, Coverage::full(), brush, Ghost(start), Ghost(done));
        proof {
            let e = Emission { x: px as int, y: py as int, coverage: Coverage::spec_full() };
            assert(wanted[k as int] == e);
            assert(wanted.subrange(0, k + 1) =~= wanted.subrange(0, k as int).push(e));
            done = done.push(e);
        }
        if k == major {
            proof {
                assert(done =~= wanted);
            }
            break ;
        }
        proof {
            assert(2 * (k + 1) * minor == 2 * k * minor + 2 * minor) by (nonlinear_arith);
            assert(2 * major * (off + 1) == 2 * major * off + 2 * major) by (nonlinear_arith);
        }
        acc = acc + 2 * minor;
        if acc >= 2 * major {
            acc = acc - 2 * major;
            off = off + 1;
        }
        k = k + 1;
        proof {
            lemma_drift_from_acc(minor as int, major as int, k as int, off as int, acc as int);
        }
    }
}

/// One pixel in the units of fractional coordinates: a coordinate `v` stands
/// for the position `v / 65536`, and pixel `n` has its centre at `n * 65536`.
pub const SUBPIXEL: i64 = 65536;

/// The greatest magnitude of a fractional coordinate.
pub const WU_LIMIT: i64 = 0x2000_0000_0000_0000;

/// The pixel nearest to the fractional coordinate `v`, a half upwards.
pub open spec fn nearest(v: int) -> int {
    (v + SUBPIXEL / 2) / (SUBPIXEL as int)
}

/// The pixel nearest to the fractional coordinate `v`, a half away from zero.
pub open spec fn rounded(v: int) -> int {
    if v >= 0 {
        (v + SUBPIXEL / 2) / (SUBPIXEL as int)
    } else {
        -((-v + SUBPIXEL / 2) / (SUBPIXEL as int))
    }
}

/// A line made ready for the antialiased walk: its axes exchanged if it is
/// steeper than 45 degrees, and its endpoints exchanged if it ran backwards,
/// so that `x0 <= x1` and the slope `rise / run` lies in `[-1, 1]`.  A line
/// without length has the slope one.
pub ghost struct Slope {
    pub steep: bool,
    pub x0: int,
    pub y0: int,
    pub x1: int,
    pub y1: int,
    pub rise: int,
    pub run: int,
}

/// The line from `(x0, y0)` to `(x1, y1)`, in fractional coordinates, made
/// ready for the antialiased walk.
pub open spec fn wu_slope(x0: int, y0: int, x1: int, y1: int) -> Slope {
    let steep = abs(y1 - y0) > abs(x1 - x0);
    let ax0 = if steep { y0 } else { x0 };
    let ay0 = if steep { x0 } else { y0 };
    let ax1 = if steep { y1 } else { x1 };
    let ay1 = if steep { x1 } else { y1 };
    let back = ax0 > ax1;
    let bx0 = if back { ax1 } else { ax0 };
    let by0 = if back { ay1 } else { ay0 };
    let bx1 = if back { ax0 } else { ax1 };
    let by1 = if back { ay0 } else { ay1 };
    Slope {
        steep: steep,
        x0: bx0,
        y0: by0,
        x1: bx1,
        y1: by1,
        rise: if bx1 == bx0 { 1 } else { by1 - by0 },
        run: if bx1 == bx0 { 1 } else { bx1 - bx0 },
    }
}

/// One pixel in the units of `wu_height`.
pub open spec fn wu_unit(s: Slope) -> int {
    s.run * SUBPIXEL
}

/// The height of the line over the centre of the column `col`, in fractional
/// units times the run: `wu_height / wu_unit` is the height in pixels.
pub open spec fn wu_height(s: Slope, col: int) -> int {
    s.y0 * s.run + s.rise * (col * SUBPIXEL - s.x0)
}

/// The row of the pixel that the line passes through, or along the lower edge
/// of, over the centre of the column `col`.
pub open spec fn wu_row(s: Slope, col: int) -> int {
    wu_height(s, col) / wu_unit(s)
}

/// How far above the centre of that pixel the line passes, in the units of
/// `wu_height`.
pub open spec fn wu_part(s: Slope, col: int) -> int {
    wu_height(s, col) % wu_unit(s)
}

/// The pixel in the column `col` and the row `row` of the walk, covered by
/// `num / den`.
pub open spec fn wu_pixel(s: Slope, col: int, row: int, num: int, den: int) -> Emission {
    if s.steep {
        Emission { x: row, y: col, coverage: Coverage::spec_ratio(num, den) }
    } else {
        Emission { x: col, y: row, coverage: Coverage::spec_ratio(num, den) }
    }
}

/// The two pixels that straddle the line in an inner column: the lower one
/// covered by one less the fractional part of the height, the upper one by
/// the fractional part.
pub open spec fn wu_pair(s: Slope, col: int) -> Seq<Emission> {
    seq![
        wu_pixel(s, col, wu_row(s, col), wu_unit(s) - wu_part(s, col), wu_unit(s)),
        wu_pixel(s, col, wu_row(s, col) + 1, wu_part(s, col), wu_unit(s)),
    ]
}

/// The two pixels that straddle the line in the column of an endpoint,
/// weakened by the share `gap / 65536` of the column that the line covers.
pub open spec fn wu_end_pair(s: Slope, col: int, gap: int) -> Seq<Emission> {
    seq![
        wu_pixel(
            s,
            col,
            wu_row(s, col),
            (wu_unit(s) - wu_part(s, col)) * gap,
            wu_unit(s) * SUBPIXEL,
        ),
        wu_pixel(s, col, wu_row(s, col) + 1, wu_part(s, col) * gap, wu_unit(s) * SUBPIXEL),
    ]
}

/// The pairs of the columns from `from` up to, not including, `to`.
pub open spec fn wu_inner(s: Slope, from: int, to: int) -> Seq<Emission>
    decreases to - from,
{
    if from >= to {
        Seq::empty()
    } else {
        wu_pair(s, from) + wu_inner(s, from + 1, to)
    }
}

/// The share of its column that the line covers at its first endpoint, in
/// 1/65536.
pub open spec fn wu_first_gap(s: Slope) -> int {
    SUBPIXEL - (s.x0 + SUBPIXEL / 2) % (SUBPIXEL as int)
}

/// The share of its column that the line covers at its second endpoint, in
/// 1/65536.
pub open spec fn wu_last_gap(s: Slope) -> int {
    (s.x1 + SUBPIXEL / 2) % (SUBPIXEL as int)
}

/// The path of the antialiased line between two points in fractional
/// coordinates: the pair of the first endpoint's column, the pair of the
/// second one's, then the pairs of the columns between them.
pub open spec fn wu_emissions(x0: int, y0: int, x1: int, y1: int) -> Seq<Emission> {
    let s = wu_slope(x0, y0, x1, y1);
    wu_end_pair(s, nearest(s.x0), wu_first_gap(s)) + wu_end_pair(s, nearest(s.x1), wu_last_gap(s))
        + wu_inner(s, nearest(s.x0) + 1, nearest(s.x1))
}

/// Whether a slope is one of a line between points within `WU_LIMIT`.
pub open spec fn wu_slope_ok(s: Slope) -> bool {
    &&& -WU_LIMIT <= s.x0 <= s.x1 <= WU_LIMIT
    &&& -WU_LIMIT <= s.y0 <= WU_LIMIT
    &&& 1 <= s.run <= 2 * WU_LIMIT
    &&& -s.run <= s.rise <= s.run
    &&& s.run == s.x1 - s.x0 || (s.x1 == s.x0 && s.run == 1)
}

/// A line between points within the limit has a slope within it.
pub proof fn lemma_wu_slope_ok(x0: int, y0: int, x1: int, y1: int)
    requires
        -WU_LIMIT <= x0 <= WU_LIMIT,
        -WU_LIMIT <= y0 <= WU_LIMIT,
        -WU_LIMIT <= x1 <= WU_LIMIT,
        -WU_LIMIT <= y1 <= WU_LIMIT,
    ensures
        wu_slope_ok(wu_slope(x0, y0, x1, y1)),
{
}

/// The height of the line over a column from the first endpoint's to the
/// second one's stays within a few limits, and so does its row.
#[verifier::rlimit(50)]
pub proof fn lemma_wu_height_bounds(s: Slope, col: int)
    requires
        wu_slope_ok(s),
        nearest(s.x0) <= col <= nearest(s.x1),
    ensures
        1 <= wu_unit(s) <= 2 * WU_LIMIT * SUBPIXEL,
        -4 * WU_LIMIT * s.run <= wu_height(s, col) <= 4 * WU_LIMIT * s.run,
        -4 * WU_LIMIT <= s.run * (4 * WU_LIMIT),
        -0x1_0000_0000_0000 <= wu_row(s, col) <= 0x1_0000_0000_0000,
        0 <= wu_part(s, col) < wu_unit(s),
        -SUBPIXEL <= col * SUBPIXEL - s.x0 <= s.run + SUBPIXEL,
        -0x1_0000_0000_0000 <= col <= 0x1_0000_0000_0000,
{
    let unit = wu_unit(s);
    let h = wu_height(s, col);
    let k = col * SUBPIXEL - s.x0;
    assert(1 <= s.run * SUBPIXEL <= 2 * WU_LIMIT * SUBPIXEL) by (nonlinear_arith)
        requires
            1 <= s.run <= 2 * WU_LIMIT,
            SUBPIXEL == 65536,
    ;
    // the centre of the nearest column lies within half a pixel
    vstd::arithmetic::div_mod::lemma_fundamental_div_mod(s.x0 + SUBPIXEL / 2, SUBPIXEL as int);
    vstd::arithmetic::div_mod::lemma_mod_bound(s.x0 + SUBPIXEL / 2, SUBPIXEL as int);
    vstd::arithmetic::div_mod::lemma_fundamental_div_mod(s.x1 + SUBPIXEL / 2, SUBPIXEL as int);
    vstd::arithmetic::div_mod::lemma_mod_bound(s.x1 + SUBPIXEL / 2, SUBPIXEL as int);
    assert(-SUBPIXEL <= k <= s.run + SUBPIXEL);
    let run = s.run;
    let t = s.rise * k;
    let u = s.y0 * run;
    assert(-(0x6000_0000_0000_0000 * run) <= t <= 0x6000_0000_0000_0000 * run)
        by (nonlinear_arith)
        requires
            t == s.rise * k,
            -run <= s.rise <= run,
            -65536 <= k <= run + 65536,
            1 <= run <= 0x4000_0000_0000_0000,
    ;
    assert(-(0x2000_0000_0000_0000 * run) <= u <= 0x2000_0000_0000_0000 * run)
        by (nonlinear_arith)
        requires
            u == s.y0 * run,
            -0x2000_0000_0000_0000 <= s.y0 <= 0x2000_0000_0000_0000,
            run >= 1,
    ;
    assert(h == u + t);
    assert(-4 * WU_LIMIT <= s.run * (4 * WU_LIMIT)) by (nonlinear_arith)
        requires
            s.run >= 1,
            WU_LIMIT >= 0,
    ;
    vstd::arithmetic::div_mod::lemma_fundamental_div_mod(h, unit);
    vstd::arithmetic::div_mod::lemma_mod_bound(h, unit);
    let q = h / unit;
    assert(-0x1_0000_0000_0000 <= q <= 0x1_0000_0000_0000) by (nonlinear_arith)
        requires
            unit == run * 65536,
            run >= 1,
            unit * q <= h,
            h < unit * q + unit,
            -(0x8000_0000_0000_0000 * run) <= h <= 0x8000_0000_0000_0000 * run,
    ;
}

/// In every inner column the two coverages add up to one.
pub proof fn lemma_wu_pair_sums_to_one(x0: int, y0: int, x1: int, y1: int, col: int)
    requires
        -WU_LIMIT <= x0 <= WU_LIMIT,
        -WU_LIMIT <= y0 <= WU_LIMIT,
        -WU_LIMIT <= x1 <= WU_LIMIT,
        -WU_LIMIT <= y1 <= WU_LIMIT,
    ensures
        ({
            let pair = wu_pair(wu_slope(x0, y0, x1, y1), col);
            &&& pair.len() == 2
            &&& pair[0].coverage.wf() && pair[1].coverage.wf()
            &&& pair[0].coverage.fraction.denom() == pair[1].coverage.fraction.denom()
            &&& pair[0].coverage.fraction.numer() + pair[1].coverage.fraction.numer()
                == pair[0].coverage.fraction.denom()
            &&& pair[0].coverage.fraction.numer() >= 0 && pair[1].coverage.fraction.numer() >= 0
        }),
{
    let s = wu_slope(x0, y0, x1, y1);
    lemma_wu_slope_ok(x0, y0, x1, y1);
    assert(1 <= s.run * SUBPIXEL <= 2 * WU_LIMIT * SUBPIXEL) by (nonlinear_arith)
        requires
            1 <= s.run <= 2 * WU_LIMIT,
            SUBPIXEL == 65536,
    ;
    vstd::arithmetic::div_mod::lemma_mod_bound(wu_height(s, col), wu_unit(s));
}

/// The inner columns come in order, two pixels each.
pub proof fn lemma_wu_inner(s: Slope, from: int, to: int, k: int)
    requires
        0 <= k < to - from,
    ensures
        wu_inner(s, from, to).len() == 2 * (to - from),
        wu_inner(s, from, to)[2 * k] == wu_pair(s, from + k)[0],
        wu_inner(s, from, to)[2 * k + 1] == wu_pair(s, from + k)[1],
    decreases to - from,
{
    lemma_wu_inner_len(s, from + 1, to);
    let rest = wu_inner(s, from + 1, to);
    let pair = wu_pair(s, from);
    assert(wu_inner(s, from, to) == pair + rest);
    if k > 0 {
        lemma_wu_inner(s, from + 1, to, k - 1);
        assert((pair + rest)[2 * k] == rest[2 * (k - 1)]);
        assert((pair + rest)[2 * k + 1] == rest[2 * (k - 1) + 1]);
    }
}

/// The inner columns have two pixels each.
pub proof fn lemma_wu_inner_len(s: Slope, from: int, to: int)
    ensures
        wu_inner(s, from, to).len() == if to > from { 2 * (to - from) } else { 0 },
    decreases to - from,
{
    if from < to {
        lemma_wu_inner_len(s, from + 1, to);
    }
}

/// After the four pixels of the two endpoints, an antialiased line has two
/// pixels for each column strictly between the endpoints' columns, and the
/// coverages of the two add up to one.
pub proof fn lemma_wu_interior_sums(x0: int, y0: int, x1: int, y1: int, k: int)
    requires
        -WU_LIMIT <= x0 <= WU_LIMIT,
        -WU_LIMIT <= y0 <= WU_LIMIT,
        -WU_LIMIT <= x1 <= WU_LIMIT,
        -WU_LIMIT <= y1 <= WU_LIMIT,
        0 <= k < nearest(wu_slope(x0, y0, x1, y1).x1) - nearest(wu_slope(x0, y0, x1, y1).x0) - 1,
    ensures
        ({
            let s = wu_slope(x0, y0, x1, y1);
            let path = wu_emissions(x0, y0, x1, y1);
            let lower = path[4 + 2 * k];
            let upper = path[4 + 2 * k + 1];
            &&& path.len() == 4 + 2 * (nearest(s.x1) - nearest(s.x0) - 1)
            &&& lower == wu_pair(s, nearest(s.x0) + 1 + k)[0]
            &&& upper == wu_pair(s, nearest(s.x0) + 1 + k)[1]
            &&& lower.coverage.wf() && upper.coverage.wf()
            &&& lower.coverage.fraction.denom() == upper.coverage.fraction.denom()
            &&& lower.coverage.fraction.numer() + upper.coverage.fraction.numer()
                == lower.coverage.fraction.denom()
            &&& lower.coverage.fraction.numer() >= 0 && upper.coverage.fraction.numer() >= 0
        }),
{
    let s = wu_slope(x0, y0, x1, y1);
    let c1 = nearest(s.x0);
    let c2 = nearest(s.x1);
    let ends = wu_end_pair(s, c1, wu_first_gap(s)) + wu_end_pair(s, c2, wu_last_gap(s));
    let inner = wu_inner(s, c1 + 1, c2);
    lemma_wu_inner(s, c1 + 1, c2, k);
    lemma_wu_pair_sums_to_one(x0, y0, x1, y1, c1 + 1 + k);
    assert(wu_emissions(x0, y0, x1, y1) == ends + inner);
    assert((ends + inner)[4 + 2 * k] == inner[2 * k]);
    assert((ends + inner)[4 + 2 * k + 1] == inner[2 * k + 1]);
}

/// Quotient and remainder of a division that rounds towards minus infinity.
fn div_floor(n: i128, d: i128) -> (r: (i128, i128))
    requires
        d > 0,
        n - d > i128::MIN,
        n + d < i128::MAX,
    ensures
        r.0 == n / d,
        r.1 == n % d,
        0 <= r.1 < d,
{
    if n >= 0 {
        proof {
            vstd::arithmetic::div_mod::lemma_mod_bound(n as int, d as int);
        }
        (n / d, n % d)
    } else {
        let m: i128 = -n + (d - 1);
        let q: i128 = m / d;
        let r: i128 = m % d;
        proof {
            vstd::arithmetic::div_mod::lemma_fundamental_div_mod(m as int, d as int);
            vstd::arithmetic::div_mod::lemma_mod_bound(m as int, d as int);
            assert(d * (-q) == -(d * q)) by (nonlinear_arith);
            assert(0 <= q <= m) by (nonlinear_arith)
                requires
                    m == d * q + r,
                    0 <= r < d,
                    d >= 1,
                    m >= 0,
            ;
            lemma_div_unique(n as int, d as int, -q, d - 1 - r);
        }
        (-q, d - 1 - r)
    }
}

/// Puts the brush on one pixel of the antialiased walk.
fn put_wu<P: Plotter>(
    plot: &mut P,
    steep: bool,
    col: i128,
    row: i128,
    num: i128,
    den: i128,
    brush: Brush,
    Ghost(s): Ghost<Slope>,
    Ghost(start): Ghost<P::Model>,
    Ghost(done): Ghost<Seq<Emission>>,
)
    requires
        (*old(plot)).inv(),
        steep == s.steep,
        den > 0,
        -0x1_0000_0000_0001 <= col <= 0x1_0000_0000_0001,
        -0x1_0000_0000_0001 <= row <= 0x1_0000_0000_0001,
        (*old(plot)).model() == absorb::<P>(start, stroke(done, brush)),
    ensures
        (*final(plot)).inv(),
        (*final(plot)).size() == (*old(plot)).size(),
        (*final(plot)).model() == absorb::<P>(
            start,
            stroke(done.push(wu_pixel(s, col as int, row as int, num as int, den as int)), brush),
        ),
{
    let c = Coverage::ratio(num, den);
    proof {
        crate::plot::dot::lemma_dot_reach_bound(brush);
    }
    if steep {
        put(plot, row as i64, col as i64, c, brush, Ghost(start), Ghost(done));
    } else {
        put(plot, col as i64, row as i64, c, brush, Ghost(start), Ghost(done));
    }
}

/// Draws the antialiased line between two points given in fractional
/// coordinates, 65536 to the pixel.
///
/// The line is walked along its major axis, one column of pixels at a time.
/// In each column the two pixels that straddle the line share a coverage of
/// one: the upper one gets the fractional part of the line's height over the
/// column's centre, the lower one the rest.  In the columns of the two
/// endpoints, which come first, both are weakened by the share of the column
/// that the line covers.
#[verifier::rlimit(50)]
pub fn draw_line_xiaolin_wu<P: Plotter>(
    x0: i64,
    y0: i64,
    x1: i64,
    y1: i64,
    plot: &mut P,
    brush: Brush,
)
    requires
        (*old(plot)).inv(),
        -WU_LIMIT <= x0 <= WU_LIMIT,
        -WU_LIMIT <= y0 <= WU_LIMIT,
        -WU_LIMIT <= x1 <= WU_LIMIT,
        -WU_LIMIT <= y1 <= WU_LIMIT,
    ensures
        (*final(plot)).inv(),
        (*final(plot)).size() == (*old(plot)).size(),
        (*final(plot)).model() == absorb::<P>(
            (*old(plot)).model(),
            stroke(wu_emissions(x0 as int, y0 as int, x1 as int, y1 as int), brush),
        ),
{
    let ghost s = wu_slope(x0 as int, y0 as int, x1 as int, y1 as int);
    proof {
        lemma_wu_slope_ok(x0 as int, y0 as int, x1 as int, y1 as int);
    }
    let dx: i128 = x1 as i128 - x0 as i128;
    let dy: i128 = y1 as i128 - y0 as i128;
    let adx: i128 = if dx < 0 { -dx } else { dx };
    let ady: i128 = if dy < 0 { -dy } else { dy };
    let steep: bool = ady > adx;
    let ax0: i128 = if steep { y0 as i128 } else { x0 as i128 };
    let ay0: i128 = if steep { x0 as i128 } else { y0 as i128 };
    let ax1: i128 = if steep { y1 as i128 } else { x1 as i128 };
    let ay1: i128 = if steep { x1 as i128 } else { y1 as i128 };
    let back: bool = ax0 > ax1;
    let sx0: i128 = if back { ax1 } else { ax0 };
    let sy0: i128 = if back { ay1 } else { ay0 };
    let sx1: i128 = if back { ax0 } else { ax1 };
    let sy1: i128 = if back { ay0 } else { ay1 };
    let rise: i128 = if sx1 == sx0 { 1 } else { sy1 - sy0 };
    let run: i128 = if sx1 == sx0 { 1 } else { sx1 - sx0 };
    let one: i128 = 65536;
    let unit: i128 = run * one;
    let first = div_floor(sx0 + one / 2, one);
    let last = div_floor(sx1 + one / 2, one);
    let c1: i128 = first.0;
    let c2: i128 = last.0;
    let ghost start = (*plot).model();
    let ghost wanted = wu_emissions(x0 as int, y0 as int, x1 as int, y1 as int);
    let ghost mut done: Seq<Emission> = Seq::empty();
    proof {
        assert(s.x0 == sx0 && s.y0 == sy0 && s.x1 == sx1 && s.rise == rise && s.run == run
            && s.steep == steep);
        assert(c1 == nearest(s.x0) && c2 == nearest(s.x1));
        vstd::arithmetic::div_mod::lemma_div_is_ordered(
            s.x0 + SUBPIXEL / 2,
            s.x1 + SUBPIXEL / 2,
            SUBPIXEL as int,
        );
        crate::plot::lemma_stroke_nothing::<P>(start, brush);
    }
    put_wu_pair(plot, steep, sx0, sy0, rise, run, c1, one - first.1, true, brush, Ghost(s), Ghost(start), Ghost(done));
    proof {
        done = done + wu_end_pair(s, c1 as int, wu_first_gap(s));
    }
    put_wu_pair(plot, steep, sx0, sy0, rise, run, c2, last.1, true, brush, Ghost(s), Ghost(start), Ghost(done));
    proof {
        done = done + wu_end_pair(s, c2 as int, wu_last_gap(s));
    }
    let ghost ends = done;
    let mut col: i128 = c1 + 1;
    proof {
        assert(ends + wu_inner(s, col as int, c2 as int) =~= wanted);
    }
    while col < c2
        invariant
            (*plot).inv(),
            (*plot).size() == (*old(plot)).size(),
            wu_slope_ok(s),
            one == 65536,
            s.x0 == sx0 && s.y0 == sy0 && s.x1 == sx1 && s.rise == rise && s.run == run && s.steep
                == steep,
            c1 == nearest(s.x0),
            c2 == nearest(s.x1),
            c1 + 1 <= col,
            col <= c2 || c1 + 1 == col,
            done + wu_inner(s, col as int, c2 as int) == wanted,
            (*plot).model() == absorb::<P>(start, stroke(done, brush)),
        decreases c2 - col,
    {
        let ghost before = done;
        put_wu_pair(plot, steep, sx0, sy0, rise, run, col, one, false, brush, Ghost(s), Ghost(start), Ghost(done));
        proof {
            done = done + wu_pair(s, col as int);
            assert(before + wu_pair(s, col as int) + wu_inner(s, col + 1, c2 as int) =~= before + (
            wu_pair(s, col as int) + wu_inner(s, col + 1, c2 as int)));
        }
        col = col + 1;
    }
    proof {
        assert(wu_inner(s, col as int, c2 as int) =~= Seq::<Emission>::empty());
        assert(done =~= wanted);
    }
}

/// Emits the two pixels that straddle the line in the column `col`: an inner
/// pair, or the pair of an endpoint with the given gap.
#[verifier::rlimit(50)]
fn put_wu_pair<P: Plotter>(
    plot: &mut P,
    steep: bool,
    sx0: i128,
    sy0: i128,
    rise: i128,
    run: i128,
    col: i128,
    gap: i128,
    at_end: bool,
    brush: Brush,
    Ghost(s): Ghost<Slope>,
    Ghost(start): Ghost<P::Model>,
    Ghost(done): Ghost<Seq<Emission>>,
)
    requires
        (*old(plot)).inv(),
        wu_slope_ok(s),
        s.x0 == sx0 && s.y0 == sy0 && s.rise == rise && s.run == run && s.steep == steep,
        nearest(s.x0) <= col <= nearest(s.x1),
        0 <= gap <= SUBPIXEL,
        (*old(plot)).model() == absorb::<P>(start, stroke(done, brush)),
    ensures
        (*final(plot)).inv(),
        (*final(plot)).size() == (*old(plot)).size(),
        (*final(plot)).model() == absorb::<P>(
            start,
            stroke(
                done + (if at_end {
                    wu_end_pair(s, col as int, gap as int)
                } else {
                    wu_pair(s, col as int)
                }),
                brush,
            ),
        ),
{
    let one: i128 = 65536;
    proof {
        lemma_wu_height_bounds(s, col as int);
        assert(-s.run * (s.run + SUBPIXEL) <= s.rise * (col * SUBPIXEL - s.x0) <= s.run * (s.run
            + SUBPIXEL)) by (nonlinear_arith)
            requires
                -s.run <= s.rise <= s.run,
                -SUBPIXEL <= col * SUBPIXEL - s.x0 <= s.run + SUBPIXEL,
                s.run >= 1,
                SUBPIXEL >= 1,
        ;
        assert(s.run * (s.run + SUBPIXEL) <= 3 * WU_LIMIT * (2 * WU_LIMIT)) by (nonlinear_arith)
            requires
                1 <= s.run <= 2 * WU_LIMIT,
                SUBPIXEL <= WU_LIMIT,
                WU_LIMIT >= 1,
        ;
        assert(-s.run * (s.run + SUBPIXEL) == -(s.run * (s.run + SUBPIXEL))) by (nonlinear_arith);
        assert(-WU_LIMIT * (2 * WU_LIMIT) <= s.y0 * s.run <= WU_LIMIT * (2 * WU_LIMIT))
            by (nonlinear_arith)
            requires
                -WU_LIMIT <= s.y0 <= WU_LIMIT,
                1 <= s.run <= 2 * WU_LIMIT,
                WU_LIMIT >= 1,
        ;
        assert(1 <= s.run * 65536 <= 2 * WU_LIMIT * 65536) by (nonlinear_arith)
            requires
                1 <= s.run <= 2 * WU_LIMIT,
        ;
    }
    let unit: i128 = run * one;
    let height: i128 = sy0 * run + rise * (col * one - sx0);
    let at = div_floor(height, unit);
    let row: i128 = at.0;
    let part: i128 = at.1;
    if at_end {
        proof {
            assert(0 <= (unit - part) * gap <= unit * 65536 && 0 <= part * gap <= unit * 65536
                && unit * 65536 <= 2 * WU_LIMIT * 65536 * 65536) by (nonlinear_arith)
                requires
                    0 <= part < unit,
                    0 <= gap <= 65536,
                    unit <= 2 * WU_LIMIT * 65536,
            ;
        }
        let ghost lower = wu_pixel(s, col as int, row as int, (unit - part) * gap, unit * one);
        let ghost higher = wu_pixel(s, col as int, row + 1, part * gap, unit * one);
        put_wu(plot, steep, col, row, (unit - part) * gap, unit * one, brush, Ghost(s), Ghost(start), Ghost(done));
        put_wu(plot, steep, col, row + 1, part * gap, unit * one, brush, Ghost(s), Ghost(start), Ghost(done.push(lower)));
        assert(done.push(lower).push(higher) =~= done + wu_end_pair(s, col as int, gap as int));
    } else {
        let ghost lower = wu_pixel(s, col as int, row as int, unit - part, unit as int);
        let ghost higher = wu_pixel(s, col as int, row + 1, part as int, unit as int);
        put_wu(plot, steep, col, row, unit - part, unit, brush, Ghost(s), Ghost(start), Ghost(done));
        put_wu(plot, steep, col, row + 1, part, unit, brush, Ghost(s), Ghost(start), Ghost(done.push(lower)));
        assert(done.push(lower).push(higher) =~= done + wu_pair(s, col as int));
    }
}

} // verus!
