//! Ellipse rasterisers.

use vstd::prelude::*;

use crate::plot::coverage::{lemma_edge_not_positive, Coverage, Falloff, Fraction, EDGE_LIMIT};
use crate::plot::line::{abs, draw_line_bresenham, line_emissions};
use crate::plot::{absorb, off_axis, put, put_off_axis, stroke, Brush, Emission, Plotter};
use crate::utils::min_max;

verus! {

/// The greatest width and height of a box whose ellipse can be drawn.
pub const ELLIPSE_MAX: i64 = 0x4000_0000;

/// The four pixels that the rasteriser stands on: `left <= right` are the
/// two columns, `lower <= upper` the two rows, mirror images of each other
/// across the centre of the ellipse.
pub ghost struct Frame {
    pub left: int,
    pub right: int,
    pub lower: int,
    pub upper: int,
}

/// The error of a point against the ellipse with the diameters `a` and `b`
/// round the origin.  The point is given by twice its offsets from the
/// centre, `u` across and `v` up, so that both are integers whatever the
/// parity of the diameters: negative inside, zero on the ellipse, positive
/// outside.
pub open spec fn ellipse_error(a: int, b: int, u: int, v: int) -> int {
    b * b * (u * u) + a * a * (v * v) - a * a * (b * b)
}

/// The error of the diagonal neighbour of the frame's upper left pixel, the
/// one that lies one column further in and one row further out.
pub open spec fn ellipse_diagonal(a: int, b: int, f: Frame) -> int {
    ellipse_error(a, b, f.right - f.left - 2, f.upper - f.lower + 2)
}

/// What a step to the next row adds to the error of the diagonal neighbour.
pub open spec fn ellipse_rise(a: int, f: Frame) -> int {
    4 * (a * a) * (f.upper - f.lower + 1)
}

/// What a step to the next column adds to the error of the diagonal
/// neighbour, less `8 * b * b`.
pub open spec fn ellipse_run(b: int, f: Frame) -> int {
    4 * (b * b) * (1 - (f.right - f.left))
}

/// The frame one row further out.
pub open spec fn frame_taller(f: Frame) -> Frame {
    Frame { left: f.left, right: f.right, lower: f.lower - 1, upper: f.upper + 1 }
}

/// The frame one column further in.
pub open spec fn frame_narrower(f: Frame) -> Frame {
    Frame { left: f.left + 1, right: f.right - 1, lower: f.lower, upper: f.upper }
}

/// The frame that follows `f` on the way from the ends of the horizontal
/// axis to the poles.
///
/// With `e` the error of the diagonal neighbour: the frame grows by a row
/// when `2 * e` is at most the rise; it shrinks by a column when `2 * e` is at
/// least the run, or when twice the error of the diagonal neighbour of the
/// frame then reached exceeds that frame's rise.
pub open spec fn ellipse_next(a: int, b: int, f: Frame) -> Frame {
    let e = ellipse_diagonal(a, b, f);
    let g = if 2 * e <= ellipse_rise(a, f) {
        frame_taller(f)
    } else {
        f
    };
    if 2 * e >= ellipse_run(b, f) || 2 * ellipse_diagonal(a, b, g) > ellipse_rise(a, g) {
        frame_narrower(g)
    } else {
        g
    }
}

/// The four fully covered pixels of a frame, one in each quadrant.
pub open spec fn ellipse_quad(f: Frame) -> Seq<Emission> {
    seq![
        Emission { x: f.right, y: f.upper, coverage: Coverage::spec_full() },
        Emission { x: f.left, y: f.upper, coverage: Coverage::spec_full() },
        Emission { x: f.left, y: f.lower, coverage: Coverage::spec_full() },
        Emission { x: f.right, y: f.lower, coverage: Coverage::spec_full() },
    ]
}

/// The pixels that close the poles of a flat ellipse: once the columns have
/// met, the rows still missing up to the height `b` get the pixels just
/// outside the two columns.
pub open spec fn ellipse_tips(b: int, f: Frame) -> Seq<Emission>
    decreases b - (f.upper - f.lower) + 1,
{
    if f.upper - f.lower < b {
        seq![
            Emission { x: f.left - 1, y: f.upper, coverage: Coverage::spec_full() },
            Emission { x: f.right + 1, y: f.upper, coverage: Coverage::spec_full() },
            Emission { x: f.left - 1, y: f.lower, coverage: Coverage::spec_full() },
            Emission { x: f.right + 1, y: f.lower, coverage: Coverage::spec_full() },
        ] + ellipse_tips(b, frame_taller(f))
    } else {
        Seq::empty()
    }
}

/// How far the diagonal neighbour of the frame lies inside the ellipse; zero
/// where it does not.
pub open spec fn ellipse_slack(a: int, b: int, f: Frame) -> int {
    if ellipse_diagonal(a, b, f) < 0 {
        -ellipse_diagonal(a, b, f)
    } else {
        0
    }
}

/// The pixels from the frame `f` onwards: its four, then those of the frames
/// that follow until the columns have passed each other, then the tips.
pub open spec fn ellipse_arc(a: int, b: int, f: Frame) -> Seq<Emission>
    decreases f.right - f.left, ellipse_slack(a, b, f),
    when a >= 1 && f.upper >= f.lower
{
    let next = ellipse_next(a, b, f);
    if next.left <= next.right {
        proof {
            lemma_ellipse_error_step(a, b, f.right - f.left - 2, f.upper - f.lower + 2);
            assert(a * a >= 1) by (nonlinear_arith)
                requires
                    a >= 1,
            ;
            assert(4 * (a * a) * (f.upper - f.lower + 3) > 0) by (nonlinear_arith)
                requires
                    a * a >= 1,
                    f.upper - f.lower >= 0,
            ;
        }
        ellipse_quad(f) + ellipse_arc(a, b, next)
    } else {
        ellipse_quad(f) + ellipse_tips(b, next)
    }
}

/// The frame that the rasteriser starts on in the box with the lower left
/// corner `(xl, yl)`, the width `a` and the height `b`: the two ends of the
/// horizontal axis, which for an odd height spans two rows.
pub open spec fn frame_at(xl: int, yl: int, a: int, b: int) -> Frame {
    Frame { left: xl, right: xl + a, lower: yl + (b + 1) / 2 - b % 2, upper: yl + (b + 1) / 2 }
}

/// The frame that the rasteriser starts on in the box with the corners
/// `(x0, y0)` and `(x1, y1)`, given in any order.
pub open spec fn ellipse_start(x0: int, y0: int, x1: int, y1: int) -> Frame {
    frame_at(
        if x0 > x1 { x1 } else { x0 },
        if y0 > y1 { y1 } else { y0 },
        abs(x1 - x0),
        abs(y1 - y0),
    )
}

/// The path of the ellipse inscribed in the box with the corners `(x0, y0)`
/// and `(x1, y1)`, given in any order.  A box without width or without
/// height gives the line between the two corners.
pub open spec fn ellipse_emissions(x0: int, y0: int, x1: int, y1: int) -> Seq<Emission> {
    if x1 == x0 || y1 == y0 {
        line_emissions(x0, y0, x1, y1)
    } else {
        ellipse_arc(abs(x1 - x0), abs(y1 - y0), ellipse_start(x0, y0, x1, y1))
    }
}

/// One row further out, and one column further in, change the error by a
/// multiple of four.
pub proof fn lemma_ellipse_error_step(a: int, b: int, u: int, v: int)
    ensures
        ellipse_error(a, b, u, v + 2) == ellipse_error(a, b, u, v) + 4 * (a * a) * (v + 1),
        ellipse_error(a, b, u - 2, v) == ellipse_error(a, b, u, v) + 4 * (b * b) * (1 - u),
{
    let aa = a * a;
    let bb = b * b;
    assert(aa * ((v + 2) * (v + 2)) == aa * (v * v) + 4 * aa * (v + 1)) by (nonlinear_arith);
    assert(bb * ((u - 2) * (u - 2)) == bb * (u * u) + 4 * bb * (1 - u)) by (nonlinear_arith);
}

/// A degenerate box: the ellipse is the line between its corners.
pub proof fn lemma_ellipse_degenerate(x0: int, y0: int, x1: int, y1: int)
    requires
        x0 == x1 || y0 == y1,
    ensures
        ellipse_emissions(x0, y0, x1, y1) == line_emissions(x0, y0, x1, y1),
{
}

/// How the rise, the run and the error of the diagonal neighbour change
/// from a frame to the taller and to the narrower one.
pub proof fn lemma_ellipse_increments(a: int, b: int, f: Frame)
    ensures
        ellipse_rise(a, frame_taller(f)) == ellipse_rise(a, f) + 8 * (a * a),
        ellipse_rise(a, frame_narrower(f)) == ellipse_rise(a, f),
        ellipse_run(b, frame_narrower(f)) == ellipse_run(b, f) + 8 * (b * b),
        ellipse_run(b, frame_taller(f)) == ellipse_run(b, f),
        ellipse_diagonal(a, b, frame_taller(f)) == ellipse_diagonal(a, b, f) + ellipse_rise(
            a,
            frame_taller(f),
        ),
        ellipse_diagonal(a, b, frame_narrower(f)) == ellipse_diagonal(a, b, f) + ellipse_run(
            b,
            frame_narrower(f),
        ),
{
    let w = f.right - f.left;
    let h = f.upper - f.lower;
    let aa = a * a;
    let bb = b * b;
    lemma_ellipse_error_step(a, b, w - 2, h + 2);
    assert(4 * aa * (h + 3) == 4 * aa * (h + 1) + 8 * aa) by (nonlinear_arith);
    assert(4 * bb * (1 - (w - 2)) == 4 * bb * (1 - w) + 8 * bb) by (nonlinear_arith);
}

/// Whether a frame is one that the rasteriser can stand on inside the box
/// from `(x0, y0)` to `(x0 + a, y0 + b)`: centred in it and no larger.
pub open spec fn frame_in_box(x0: int, y0: int, a: int, b: int, f: Frame) -> bool {
    &&& f.left + f.right == 2 * x0 + a
    &&& f.lower + f.upper == 2 * y0 + b
    &&& f.right - f.left <= a
    &&& 0 <= f.upper - f.lower <= b
}

/// A frame in its box grows by a row only while it is lower than the box:
/// each step keeps it in the box, moves it, and narrows it by at most one
/// column on each side.
#[verifier::rlimit(50)]
pub proof fn lemma_ellipse_step(a: int, b: int, f: Frame)
    requires
        a >= 1,
        b >= 1,
        0 <= f.upper - f.lower <= b,
    ensures
        ({
            let next = ellipse_next(a, b, f);
            &&& next == f || next == frame_taller(f) || next == frame_narrower(f) || next
                == frame_narrower(frame_taller(f))
            &&& next != f
            &&& next.upper - next.lower <= b
        }),
{
    let w = f.right - f.left;
    let h = f.upper - f.lower;
    let e = ellipse_diagonal(a, b, f);
    if 2 * e <= ellipse_rise(a, f) {
        let aa = a * a;
        let bb = b * b;
        let k = (h + 2) * (h + 2) - bb - 2 * (h + 1);
        assert(bb * ((w - 2) * (w - 2)) >= 0) by (nonlinear_arith)
            requires
                bb == b * b,
        ;
        assert(2 * (aa * ((h + 2) * (h + 2)) - aa * bb) - 4 * aa * (h + 1) == 2 * (aa * k))
            by (nonlinear_arith)
            requires
                k == (h + 2) * (h + 2) - bb - 2 * (h + 1),
        ;
        assert(aa * k <= 0);
        assert(k <= 0) by (nonlinear_arith)
            requires
                aa * k <= 0,
                aa == a * a,
                a >= 1,
        ;
        assert(h + 2 <= b) by (nonlinear_arith)
            requires
                (h + 2) * (h + 2) - b * b - 2 * (h + 1) <= 0,
                h >= 0,
                b >= 1,
        ;
    }
}

/// Whether the pixel lies in the box with the lower left corner `(xl, yl)`,
/// the width `a` and the height `b`, and is fully covered.
pub open spec fn solid_in_box(xl: int, yl: int, a: int, b: int, e: Emission) -> bool {
    &&& xl <= e.x <= xl + a
    &&& yl <= e.y <= yl + b
    &&& e.coverage == Coverage::spec_full()
}

/// The tips of a frame centred in its box lie in the box.
pub proof fn lemma_ellipse_tips_in_box(xl: int, yl: int, a: int, b: int, f: Frame)
    requires
        f.left + f.right == 2 * xl + a,
        f.lower + f.upper == 2 * yl + b,
        -2 <= f.right - f.left <= a - 2,
        0 <= f.upper - f.lower,
    ensures
        forall|i: int|
            0 <= i < ellipse_tips(b, f).len() ==> solid_in_box(
                xl,
                yl,
                a,
                b,
                #[trigger] ellipse_tips(b, f)[i],
            ),
    decreases b - (f.upper - f.lower) + 1,
{
    if f.upper - f.lower < b {
        let rest = ellipse_tips(b, frame_taller(f));
        let four = seq![
            Emission { x: f.left - 1, y: f.upper, coverage: Coverage::spec_full() },
            Emission { x: f.right + 1, y: f.upper, coverage: Coverage::spec_full() },
            Emission { x: f.left - 1, y: f.lower, coverage: Coverage::spec_full() },
            Emission { x: f.right + 1, y: f.lower, coverage: Coverage::spec_full() },
        ];
        lemma_ellipse_tips_in_box(xl, yl, a, b, frame_taller(f));
        assert(ellipse_tips(b, f) == four + rest);
        assert forall|i: int| 0 <= i < (four + rest).len() implies solid_in_box(
            xl,
            yl,
            a,
            b,
            #[trigger] (four + rest)[i],
        ) by {
            if i < 4 {
                assert((four + rest)[i] == four[i]);
            } else {
                assert((four + rest)[i] == rest[i - 4]);
            }
        }
    }
}

/// From a frame in its box onwards, every pixel of the arc lies in the box
/// and is fully covered.
pub proof fn lemma_ellipse_arc_in_box(xl: int, yl: int, a: int, b: int, f: Frame)
    requires
        a >= 1,
        b >= 1,
        frame_in_box(xl, yl, a, b, f),
        0 <= f.right - f.left,
    ensures
        forall|i: int|
            0 <= i < ellipse_arc(a, b, f).len() ==> solid_in_box(
                xl,
                yl,
                a,
                b,
                #[trigger] ellipse_arc(a, b, f)[i],
            ),
    decreases f.right - f.left, ellipse_slack(a, b, f),
{
    let next = ellipse_next(a, b, f);
    let quad = ellipse_quad(f);
    lemma_ellipse_step(a, b, f);
    lemma_ellipse_increments(a, b, f);
    assert(a * a >= 1) by (nonlinear_arith)
        requires
            a >= 1,
    ;
    assert(4 * (a * a) * (f.upper - f.lower + 3) > 0) by (nonlinear_arith)
        requires
            a * a >= 1,
            f.upper - f.lower >= 0,
    ;
    let rest = if next.left <= next.right {
        lemma_ellipse_arc_in_box(xl, yl, a, b, next);
        ellipse_arc(a, b, next)
    } else {
        lemma_ellipse_tips_in_box(xl, yl, a, b, next);
        ellipse_tips(b, next)
    };
    assert(ellipse_arc(a, b, f) == quad + rest);
    assert forall|i: int| 0 <= i < (quad + rest).len() implies solid_in_box(
        xl,
        yl,
        a,
        b,
        #[trigger] (quad + rest)[i],
    ) by {
        if i < 4 {
            assert((quad + rest)[i] == quad[i]);
        } else {
            assert((quad + rest)[i] == rest[i - 4]);
        }
    }
}

/// The outline of an ellipse stays in its box: every pixel lies between the
/// two corners and is fully covered.
pub proof fn lemma_ellipse_in_box(x0: int, y0: int, x1: int, y1: int)
    requires
        x0 != x1,
        y0 != y1,
    ensures
        forall|i: int|
            0 <= i < ellipse_emissions(x0, y0, x1, y1).len() ==> solid_in_box(
                if x0 > x1 { x1 } else { x0 },
                if y0 > y1 { y1 } else { y0 },
                abs(x1 - x0),
                abs(y1 - y0),
                #[trigger] ellipse_emissions(x0, y0, x1, y1)[i],
            ),
{
    lemma_ellipse_arc_in_box(
        if x0 > x1 { x1 } else { x0 },
        if y0 > y1 { y1 } else { y0 },
        abs(x1 - x0),
        abs(y1 - y0),
        ellipse_start(x0, y0, x1, y1),
    );
}

/// A degenerate box: the antialiased ellipse, too, is the line between its
/// corners.
pub proof fn lemma_ellipse_aa_degenerate(x0: int, y0: int, x1: int, y1: int)
    requires
        x0 == x1 || y0 == y1,
    ensures
        ellipse_aa_emissions(x0, y0, x1, y1) == line_emissions(x0, y0, x1, y1),
{
}

/// The sizes of the error, the rise and the run of a frame in a box no
/// larger than `ELLIPSE_MAX`, or up to a row taller or a column narrower.
pub proof fn lemma_ellipse_bounds(a: int, b: int, f: Frame)
    requires
        1 <= a <= ELLIPSE_MAX,
        1 <= b <= ELLIPSE_MAX,
        -2 <= f.right - f.left <= a,
        0 <= f.upper - f.lower <= b + 2,
    ensures
        -0x1000_0000_0000_0000_0000_0000_0000_0000 <= ellipse_diagonal(a, b, f)
            <= 0x1000_0000_0000_0000_0000_0000_0000_0000,
        0 <= ellipse_rise(a, f) <= 0x1_0000_0000_0000_0000_0000_0000,
        -0x1_0000_0000_0000_0000_0000_0000 <= ellipse_run(b, f)
            <= 0x1_0000_0000_0000_0000_0000_0000,
        1 <= a * a <= 0x1000_0000_0000_0000,
        1 <= b * b <= 0x1000_0000_0000_0000,
{
    let w = f.right - f.left;
    let h = f.upper - f.lower;
    let aa = a * a;
    let bb = b * b;
    assert(1 <= aa <= 0x1000_0000_0000_0000) by (nonlinear_arith)
        requires
            aa == a * a,
            1 <= a <= 0x4000_0000,
    ;
    assert(1 <= bb <= 0x1000_0000_0000_0000) by (nonlinear_arith)
        requires
            bb == b * b,
            1 <= b <= 0x4000_0000,
    ;
    assert(0 <= (w - 2) * (w - 2) <= 0x1000_0000_0000_0000) by (nonlinear_arith)
        requires
            -2 <= w <= 0x4000_0000,
    ;
    assert(0 <= (h + 2) * (h + 2) <= 0x2000_0000_0000_0000) by (nonlinear_arith)
        requires
            0 <= h <= 0x4000_0002,
    ;
    assert(0 <= bb * ((w - 2) * (w - 2)) <= 0x1000_0000_0000_0000 * 0x1000_0000_0000_0000)
        by (nonlinear_arith)
        requires
            0 <= bb <= 0x1000_0000_0000_0000,
            0 <= (w - 2) * (w - 2) <= 0x1000_0000_0000_0000,
    ;
    assert(0 <= aa * ((h + 2) * (h + 2)) <= 0x1000_0000_0000_0000 * 0x2000_0000_0000_0000)
        by (nonlinear_arith)
        requires
            0 <= aa <= 0x1000_0000_0000_0000,
            0 <= (h + 2) * (h + 2) <= 0x2000_0000_0000_0000,
    ;
    assert(0 <= aa * bb <= 0x1000_0000_0000_0000 * 0x1000_0000_0000_0000) by (nonlinear_arith)
        requires
            0 <= aa <= 0x1000_0000_0000_0000,
            0 <= bb <= 0x1000_0000_0000_0000,
    ;
    assert(0 <= 4 * aa * (h + 1) <= 4 * 0x1000_0000_0000_0000 * 0x4000_0003) by (nonlinear_arith)
        requires
            0 <= aa <= 0x1000_0000_0000_0000,
            0 <= h + 1 <= 0x4000_0003,
    ;
    assert(-4 * 0x1000_0000_0000_0000 * 0x4000_0000 <= 4 * bb * (1 - w) <= 4
        * 0x1000_0000_0000_0000 * 3) by (nonlinear_arith)
        requires
            0 <= bb <= 0x1000_0000_0000_0000,
            -0x4000_0000 <= 1 - w <= 3,
    ;
}

/// Draws the outline of the ellipse inscribed in the box with the corners
/// `(x0, y0)` and `(x1, y1)`, given in any order.
///
/// A box without width or without height gives the line between the two
/// corners.  Otherwise an integer error decides each step from the ends of
/// the horizontal axis to the poles; each step's pixel is mirrored into the
/// four quadrants, and the poles of a flat ellipse are closed at the end.
#[verifier::rlimit(50)]
pub fn draw_ellipse<P: Plotter>(x0: i64, y0: i64, x1: i64, y1: i64, plot: &mut P, brush: Brush)
    requires
        (*old(plot)).inv(),
        brush.fits(x0 as int, y0 as int),
        brush.fits(x1 as int, y1 as int),
        x0 != x1 && y0 != y1 ==> abs(x1 - x0) <= ELLIPSE_MAX && abs(y1 - y0) <= ELLIPSE_MAX,
    ensures
        (*final(plot)).inv(),
        (*final(plot)).size() == (*old(plot)).size(),
        (*final(plot)).model() == absorb::<P>(
            (*old(plot)).model(),
            stroke(ellipse_emissions(x0 as int, y0 as int, x1 as int, y1 as int), brush),
        ),
{
    if x0 == x1 || y0 == y1 {
        draw_line_bresenham(x0, y0, x1, y1, plot, brush);
        return ;
    }
    let a: i128 = if x1 < x0 { x0 as i128 - x1 as i128 } else { x1 as i128 - x0 as i128 };
    let b: i128 = if y1 < y0 { y0 as i128 - y1 as i128 } else { y1 as i128 - y0 as i128 };
    let b1: i128 = b % 2;
    let xl: i128 = if x0 > x1 { x1 as i128 } else { x0 as i128 };
    let yl: i128 = if y0 > y1 { y1 as i128 } else { y0 as i128 };
    let mut left: i128 = xl;
    let mut right: i128 = xl + a;
    let mut upper: i128 = yl + (b + 1) / 2;
    let mut lower: i128 = upper - b1;
    let ghost start = (*plot).model();
    let ghost wanted = ellipse_emissions(x0 as int, y0 as int, x1 as int, y1 as int);
    let ghost mut done: Seq<Emission> = Seq::empty();
    let ghost mut f = Frame { left: left as int, right: right as int, lower: lower as int, upper: upper as int };
    proof {
        assert(f == ellipse_start(x0 as int, y0 as int, x1 as int, y1 as int));
        lemma_ellipse_bounds(a as int, b as int, f);
        assert(done + ellipse_arc(a as int, b as int, f) =~= wanted);
    }
    let aa: i128 = a * a;
    let bb: i128 = b * b;
    let a8: i128 = 8 * aa;
    let b8: i128 = 8 * bb;
    proof {
        assert(4 * (1 - a) * bb == 4 * bb * (1 - a)) by (nonlinear_arith);
        assert(4 * (b1 + 1) * aa == 4 * aa * (b1 + 1)) by (nonlinear_arith);
        assert(b1 * aa == aa * b1) by (nonlinear_arith);
        assert(ellipse_diagonal(a as int, b as int, f) == ellipse_run(b as int, f) + ellipse_rise(
            a as int,
            f,
        ) + aa * b1) by (nonlinear_arith)
            requires
                f.right - f.left == a,
                f.upper - f.lower == b1,
                b1 == 0 || b1 == 1,
                aa == a * a,
                bb == b * b,
        ;
        assert(0 <= aa * b1 <= aa) by (nonlinear_arith)
            requires
                b1 == 0 || b1 == 1,
                aa >= 0,
        ;
    }
    let mut dx: i128 = 4 * (1 - a) * bb;
    let mut dy: i128 = 4 * (b1 + 1) * aa;
    let mut err: i128 = dx + dy + b1 * aa;
    loop
        invariant_except_break
            done + ellipse_arc(a as int, b as int, f) == wanted,
            0 <= right - left,
            err == ellipse_diagonal(a as int, b as int, f),
            dx == ellipse_run(b as int, f),
            dy == ellipse_rise(a as int, f),
        invariant
            (*plot).inv(),
            (*plot).size() == (*old(plot)).size(),
            1 <= a <= ELLIPSE_MAX,
            1 <= b <= ELLIPSE_MAX,
            aa == a * a,
            bb == b * b,
            a8 == 8 * aa,
            b8 == 8 * bb,
            i64::MIN <= xl,
            xl + a <= i64::MAX,
            i64::MIN <= yl,
            yl + b <= i64::MAX,
            brush.fits(xl as int, yl as int),
            brush.fits(xl + a, yl + b),
            f == (Frame {
                left: left as int,
                right: right as int,
                lower: lower as int,
                upper: upper as int,
            }),
            frame_in_box(xl as int, yl as int, a as int, b as int, f),
            -2 <= right - left,
            wanted == ellipse_emissions(x0 as int, y0 as int, x1 as int, y1 as int),
            (*plot).model() == absorb::<P>(start, stroke(done, brush)),
        ensures
            done + ellipse_tips(b as int, f) == wanted,
            right - left <= a - 2,
        decreases right - left, ellipse_slack(a as int, b as int, f),
    {
        let ghost quad = ellipse_quad(f);
        let ghost before = done;
        let ghost f0 = f;
        put(plot, right as i64, upper as i64, Coverage::full(), brush, Ghost(start), Ghost(done));
        proof {
            done = done.push(quad[0]);
        }
        put(plot, left as i64, upper as i64, Coverage::full(), brush, Ghost(start), Ghost(done));
        proof {
            done = done.push(quad[1]);
        }
        put(plot, left as i64, lower as i64, Coverage::full(), brush, Ghost(start), Ghost(done));
        proof {
            done = done.push(quad[2]);
        }
        put(plot, right as i64, lower as i64, Coverage::full(), brush, Ghost(start), Ghost(done));
        proof {
            done = done.push(quad[3]);
            assert(done =~= before + quad);
            lemma_ellipse_step(a as int, b as int, f);
            lemma_ellipse_bounds(a as int, b as int, f);
            lemma_ellipse_increments(a as int, b as int, f);
            lemma_ellipse_bounds(a as int, b as int, frame_taller(f));
            lemma_ellipse_increments(a as int, b as int, frame_taller(f));
            lemma_ellipse_bounds(a as int, b as int, frame_narrower(f));
            lemma_ellipse_bounds(a as int, b as int, frame_narrower(frame_taller(f)));
        }
        let e2: i128 = 2 * err;
        if e2 <= dy {
            upper = upper + 1;
            lower = lower - 1;
            dy = dy + a8;
            err = err + dy;
            proof {
                f = frame_taller(f);
            }
        }
        if e2 >= dx || 2 * err > dy {
            left = left + 1;
            right = right - 1;
            dx = dx + b8;
            err = err + dx;
            proof {
                f = frame_narrower(f);
            }
        }
        proof {
            assert(f == ellipse_next(a as int, b as int, f0));
            if left <= right {
                assert(before + quad + ellipse_arc(a as int, b as int, f) =~= before + (quad
                    + ellipse_arc(a as int, b as int, f)));
            } else {
                assert(before + quad + ellipse_tips(b as int, f) =~= before + (quad + ellipse_tips(
                    b as int,
                    f,
                )));
            }
        }
        if left > right {
            break ;
        }
    }
    while upper - lower < b
        invariant
            (*plot).inv(),
            (*plot).size() == (*old(plot)).size(),
            1 <= b <= ELLIPSE_MAX,
            1 <= a <= ELLIPSE_MAX,
            i64::MIN <= xl,
            xl + a <= i64::MAX,
            i64::MIN <= yl,
            yl + b <= i64::MAX,
            brush.fits(xl as int, yl as int),
            brush.fits(xl + a, yl + b),
            f == (Frame {
                left: left as int,
                right: right as int,
                lower: lower as int,
                upper: upper as int,
            }),
            f.left + f.right == 2 * xl + a,
            f.lower + f.upper == 2 * yl + b,
            0 <= f.upper - f.lower <= b + 1,
            -2 <= right - left <= a - 2,
            done + ellipse_tips(b as int, f) == wanted,
            (*plot).model() == absorb::<P>(start, stroke(done, brush)),
        decreases b + 1 - (upper - lower),
    {
        let ghost before = done;
        let ghost tips = ellipse_tips(b as int, f);
        put(plot, (left - 1) as i64, upper as i64, Coverage::full(), brush, Ghost(start), Ghost(done));
        proof {
            done = done.push(tips[0]);
        }
        put(plot, (right + 1) as i64, upper as i64, Coverage::full(), brush, Ghost(start), Ghost(done));
        proof {
            done = done.push(tips[1]);
        }
        put(plot, (left - 1) as i64, lower as i64, Coverage::full(), brush, Ghost(start), Ghost(done));
        proof {
            done = done.push(tips[2]);
        }
        put(plot, (right + 1) as i64, lower as i64, Coverage::full(), brush, Ghost(start), Ghost(done));
        upper = upper + 1;
        lower = lower - 1;
        proof {
            done = done.push(tips[3]);
            f = frame_taller(f);
            assert(before + tips =~= done + ellipse_tips(b as int, f));
        }
    }
    proof {
        assert(ellipse_tips(b as int, f) =~= Seq::<Emission>::empty());
        assert(done =~= wanted);
    }
}

/// The greatest width and height of a box whose antialiased ellipse can be
/// drawn.
pub const ELLIPSE_AA_MAX: i64 = 0x8_0000;

/// Half of `v`, rounded towards zero.
pub open spec fn half_toward_zero(v: int) -> int {
    if v >= 0 {
        v / 2
    } else {
        -((-v) / 2)
    }
}

/// The error of the frame's own pixels.
pub open spec fn ellipse_own(a: int, b: int, f: Frame) -> int {
    ellipse_error(a, b, f.right - f.left, f.upper - f.lower)
}

/// The horizontal component of the gradient of the error at the frame, less
/// `4 * b * b`: what a step to the next column takes from the error of the
/// diagonal neighbour, plus `8 * b * b`.
pub open spec fn ellipse_lean(b: int, f: Frame) -> int {
    4 * (b * b) * (f.right - f.left - 1)
}

/// Four pixels in two columns and two rows, a column at a time, each with the
/// coverage `alpha`, without those on an axis through `(xm, ym)`.
pub open spec fn quad_by_column(xm: int, ym: int, f: Frame, alpha: Coverage) -> Seq<Emission> {
    off_axis(xm, ym, Emission { x: f.left, y: f.upper, coverage: alpha }) + off_axis(
        xm,
        ym,
        Emission { x: f.left, y: f.lower, coverage: alpha },
    ) + off_axis(xm, ym, Emission { x: f.right, y: f.upper, coverage: alpha }) + off_axis(
        xm,
        ym,
        Emission { x: f.right, y: f.lower, coverage: alpha },
    )
}

/// Four pixels in two columns and two rows, a row at a time, each with the
/// coverage `alpha`, without those on an axis through `(xm, ym)`.
pub open spec fn quad_by_row(xm: int, ym: int, f: Frame, alpha: Coverage) -> Seq<Emission> {
    off_axis(xm, ym, Emission { x: f.left, y: f.upper, coverage: alpha }) + off_axis(
        xm,
        ym,
        Emission { x: f.right, y: f.upper, coverage: alpha },
    ) + off_axis(xm, ym, Emission { x: f.left, y: f.lower, coverage: alpha }) + off_axis(
        xm,
        ym,
        Emission { x: f.right, y: f.lower, coverage: alpha },
    )
}

/// The coverage of a pixel whose error has the size `deficit`, seen from the
/// frame `f`: one less the deficit over the length of the gradient of the
/// error there.
///
/// The length is estimated from the two components of the gradient, the lean
/// and the rise.  At the very tip of a wide ellipse, where the frame is one
/// row high, `a > b` and the diagonal neighbour lies outside by more than the
/// rise, the length is taken as `2 * a * a`.
pub open spec fn ellipse_aa_cover(a: int, b: int, f: Frame, deficit: int) -> Coverage {
    let lean = ellipse_lean(b, f);
    let rise = ellipse_rise(a, f);
    if f.upper - f.lower == 1 && ellipse_diagonal(a, b, f) > rise && a > b {
        Coverage::spec_ratio(2 * (a * a) - deficit, 2 * (a * a))
    } else if lean > rise {
        Coverage::spec_edge(deficit, lean, rise)
    } else {
        Coverage::spec_edge(deficit, rise, lean)
    }
}

/// Whether the antialiased arc ends at the frame `f`: the columns have met
/// and the diagonal neighbour does not lie inside by more than half the rise.
pub open spec fn ellipse_aa_stop(a: int, b: int, f: Frame) -> bool {
    2 * ellipse_diagonal(a, b, f) + ellipse_rise(a, f) >= 0 && f.left >= f.right
}

/// The frame that follows `f` on the antialiased arc.  With `e` the error of
/// the diagonal neighbour: the frame grows by a row when `2 * e` is at most
/// the lean, and shrinks by a column when `2 * e` exceeds the rise taken
/// negative.
pub open spec fn ellipse_aa_next(a: int, b: int, f: Frame) -> Frame {
    let e = ellipse_diagonal(a, b, f);
    let g = if 2 * e <= ellipse_lean(b, f) {
        frame_taller(f)
    } else {
        f
    };
    if 2 * e + ellipse_rise(a, f) > 0 {
        frame_narrower(g)
    } else {
        g
    }
}

/// What the antialiased arc emits at the frame `f`.
///
/// First the frame's own four pixels.  Then, where the arc does not end here:
/// if a step in x is due or nearly so, the four pixels above and below the
/// frame; and before a step in y the four pixels inside the frame in x.
/// Every pixel is covered by one less its error's size over the length of the
/// gradient; neighbours are left out where that is not above zero.
#[verifier::opaque]
pub open spec fn ellipse_aa_at(xm: int, ym: int, a: int, b: int, f: Frame) -> Seq<Emission> {
    let e = ellipse_diagonal(a, b, f);
    let rise = ellipse_rise(a, f);
    let lean = ellipse_lean(b, f);
    let own = ellipse_own(a, b, f);
    let above = e + lean;
    let inside = rise - e;
    quad_by_column(xm, ym, f, ellipse_aa_cover(a, b, f, if own < 0 { -own } else { own })) + (if 2
        * e + rise >= 0 && f.left < f.right && ellipse_aa_cover(
        a,
        b,
        f,
        above,
    ).fraction.positive() {
        quad_by_column(xm, ym, frame_taller(f), ellipse_aa_cover(a, b, f, above))
    } else {
        Seq::empty()
    }) + (if !ellipse_aa_stop(a, b, f) && 2 * e <= lean && ellipse_aa_cover(
        a,
        b,
        f,
        inside,
    ).fraction.positive() {
        quad_by_row(xm, ym, frame_narrower(f), ellipse_aa_cover(a, b, f, inside))
    } else {
        Seq::empty()
    })
}

/// The pixels that close the poles of a flat antialiased ellipse of odd
/// width: once the columns have passed each other, each row still missing up
/// to the height `b` gets the two middle columns, covered by one less the
/// size of the pixel's error over `2 * b * b`.
pub open spec fn ellipse_aa_tips(xm: int, ym: int, a: int, b: int, f: Frame) -> Seq<Emission>
    decreases b - (f.upper - f.lower) + 1,
{
    if f.left - 1 == f.right && f.upper - f.lower < b {
        let e = ellipse_diagonal(a, b, f) + ellipse_lean(b, f);
        let g = Frame {
            left: f.left - 1,
            right: f.right + 1,
            lower: f.lower - 1,
            upper: f.upper + 1,
        };
        quad_by_row(
            xm,
            ym,
            g,
            Coverage::spec_ratio(2 * (b * b) - (if e < 0 { -e } else { e }), 2 * (b * b)),
        ) + ellipse_aa_tips(xm, ym, a, b, frame_taller(f))
    } else {
        Seq::empty()
    }
}

/// The pixels of the antialiased arc from the frame `f` onwards.
pub open spec fn ellipse_aa_arc(xm: int, ym: int, a: int, b: int, f: Frame) -> Seq<Emission>
    decreases f.right - f.left + 1, ellipse_slack(a, b, f),
    when a >= 1 && f.upper >= f.lower && (f.right - f.left >= 1 || 2 * ellipse_diagonal(a, b, f)
        + ellipse_rise(a, f) > 0)
{
    if ellipse_aa_stop(a, b, f) {
        ellipse_aa_at(xm, ym, a, b, f) + ellipse_aa_tips(xm, ym, a, b, f)
    } else {
        proof {
            lemma_ellipse_increments(a, b, f);
            assert(a * a >= 1) by (nonlinear_arith)
                requires
                    a >= 1,
            ;
            assert(4 * (a * a) * (f.upper - f.lower + 3) > 0) by (nonlinear_arith)
                requires
                    a * a >= 1,
                    f.upper - f.lower >= 0,
            ;
            assert(4 * (a * a) * (f.upper - f.lower + 1) > 0) by (nonlinear_arith)
                requires
                    a * a >= 1,
                    f.upper - f.lower >= 0,
            ;
            assert(f.right - f.left >= 1 ==> 4 * (b * b) * (f.right - f.left - 1) >= 0)
                by (nonlinear_arith);
        }
        ellipse_aa_at(xm, ym, a, b, f) + ellipse_aa_arc(xm, ym, a, b, ellipse_aa_next(a, b, f))
    }
}

/// The path of the antialiased ellipse inscribed in the box with the corners
/// `(x0, y0)` and `(x1, y1)`, given in any order: the four fully covered
/// pixels where the axes through the centre meet the box, then the arc.  A
/// box without width or without height gives the line between the corners.
pub open spec fn ellipse_aa_emissions(x0: int, y0: int, x1: int, y1: int) -> Seq<Emission> {
    if x1 == x0 || y1 == y0 {
        line_emissions(x0, y0, x1, y1)
    } else {
        let xm = half_toward_zero(x0 + x1);
        let ym = half_toward_zero(y0 + y1);
        ellipse_aa_poles(xm, ym, x0, y0, x1, y1) + ellipse_aa_arc(
            xm,
            ym,
            abs(x1 - x0),
            abs(y1 - y0),
            ellipse_start(x0, y0, x1, y1),
        )
    }
}

/// Whether the ellipse is wide for its height: `4 * a^2 * (b + 1) > 3 * b^2`.
pub open spec fn ellipse_is_wide(a: int, b: int) -> bool {
    4 * (a * a) * (b + 1) > 3 * (b * b)
}

/// Whether the error of the diagonal neighbour of the frame is as small as
/// one of the two ways of arriving at the frame leaves it: after a step in y
/// alone at most `2 * a^2 * (h + 3)`, after a step in x at most
/// `4 * a^2 * (h + 1) - 2 * b^2 * (w - 3)`, for a frame `w` wide and `h` high.
pub open spec fn ellipse_aa_near(a: int, b: int, f: Frame) -> bool {
    let e = ellipse_diagonal(a, b, f);
    let w = f.right - f.left;
    let h = f.upper - f.lower;
    e <= 2 * (a * a) * (h + 3) || e <= 4 * (a * a) * (h + 1) - 2 * (b * b) * (w - 3)
}

/// Whether a frame is one that the antialiased arc can stand on: no higher
/// than the box and of its parity; while the columns are apart, near the
/// ellipse (unless the ellipse is wide) and at full height only when the
/// columns touch; once they have met, with the diagonal neighbour outside.
pub open spec fn ellipse_aa_on_track(a: int, b: int, f: Frame) -> bool {
    let w = f.right - f.left;
    let h = f.upper - f.lower;
    &&& a >= 1
    &&& b >= 1
    &&& -1 <= w <= a
    &&& 0 <= h <= b
    &&& (b - h) % 2 == 0
    &&& w >= 1 ==> ellipse_is_wide(a, b) || (ellipse_aa_near(a, b, f) && (h == b ==> w <= 1))
    &&& w <= 0 ==> 2 * ellipse_diagonal(a, b, f) + ellipse_rise(a, f) > 0
}

/// The frame that the rasteriser starts on is on track.
pub proof fn lemma_ellipse_aa_start(a: int, b: int, f: Frame)
    requires
        a >= 1,
        b >= 1,
        f.right - f.left == a,
        f.upper - f.lower == b % 2,
    ensures
        ellipse_aa_on_track(a, b, f),
{
    let aa = a * a;
    let bb = b * b;
    let h = b % 2;
    let e = ellipse_diagonal(a, b, f);
    assert(aa >= 1 && bb >= 1) by (nonlinear_arith)
        requires
            aa == a * a,
            bb == b * b,
            a >= 1,
            b >= 1,
    ;
    if !ellipse_is_wide(a, b) {
        // the ellipse is tall: a * a <= b * b
        assert(aa <= bb) by (nonlinear_arith)
            requires
                4 * aa * (b + 1) <= 3 * bb,
                b >= 1,
                aa >= 1,
        ;
        assert(b >= 2) by (nonlinear_arith)
            requires
                4 * aa * (b + 1) <= 3 * (b * b),
                aa >= 1,
                b >= 1,
        ;
        assert(e == bb * ((a - 2) * (a - 2)) + aa * ((h + 2) * (h + 2)) - aa * bb);
        assert(e <= 4 * aa * (h + 1) - 2 * bb * (a - 3)) by (nonlinear_arith)
            requires
                e == bb * ((a - 2) * (a - 2)) + aa * ((h + 2) * (h + 2)) - aa * bb,
                h == 0 || h == 1,
                1 <= aa <= bb,
                aa == a * a,
                a >= 1,
        ;
    }
}

/// Each step of the antialiased arc keeps the frame on track: it moves, it
/// stays within the height of the box, and it narrows by at most a column on
/// each side.
#[verifier::rlimit(50)]
pub proof fn lemma_ellipse_aa_step(a: int, b: int, f: Frame)
    requires
        ellipse_aa_on_track(a, b, f),
        f.right - f.left >= 1,
    ensures
        ({
            let next = ellipse_aa_next(a, b, f);
            &&& next == frame_taller(f) || next == frame_narrower(f) || next == frame_narrower(
                frame_taller(f),
            )
            &&& ellipse_aa_on_track(a, b, next)
        }),
{
    let w = f.right - f.left;
    let h = f.upper - f.lower;
    let aa = a * a;
    let bb = b * b;
    let e = ellipse_diagonal(a, b, f);
    let rise = ellipse_rise(a, f);
    let lean = ellipse_lean(b, f);
    let next = ellipse_aa_next(a, b, f);
    let ah = aa * h;
    let bw = bb * w;
    let ab = aa * b;
    assert(aa >= 1 && bb >= 1) by (nonlinear_arith)
        requires
            aa == a * a,
            bb == b * b,
            a >= 1,
            b >= 1,
    ;
    assert(ah >= 0 && bw >= bb && ab >= aa) by (nonlinear_arith)
        requires
            ah == aa * h,
            bw == bb * w,
            ab == aa * b,
            aa >= 1,
            bb >= 1,
            h >= 0,
            w >= 1,
            b >= 1,
    ;
    lemma_ellipse_increments(a, b, f);
    lemma_ellipse_increments(a, b, frame_taller(f));
    // everything that the argument compares, as sums of a few products
    assert(rise == 4 * ah + 4 * aa) by (nonlinear_arith)
        requires
            rise == 4 * aa * (h + 1),
            ah == aa * h,
    ;
    assert(lean == 4 * bw - 4 * bb) by (nonlinear_arith)
        requires
            lean == 4 * bb * (w - 1),
            bw == bb * w,
    ;
    assert(ellipse_rise(a, frame_taller(f)) == rise + 8 * aa);
    assert(ellipse_run(b, frame_narrower(f)) == 12 * bb - 4 * bw) by (nonlinear_arith)
        requires
            ellipse_run(b, frame_narrower(f)) == 4 * bb * (1 - (w - 2)),
            bw == bb * w,
    ;
    assert(ellipse_run(b, frame_narrower(frame_taller(f))) == 12 * bb - 4 * bw)
        by (nonlinear_arith)
        requires
            ellipse_run(b, frame_narrower(frame_taller(f))) == 4 * bb * (1 - (w - 2)),
            bw == bb * w,
    ;
    assert(2 * aa * (h + 3) == 2 * ah + 6 * aa) by (nonlinear_arith)
        requires
            ah == aa * h,
    ;
    assert(2 * aa * (h + 2 + 3) == 2 * ah + 10 * aa) by (nonlinear_arith)
        requires
            ah == aa * h,
    ;
    assert(4 * aa * (h + 1) - 2 * bb * (w - 3) == 4 * ah + 4 * aa - 2 * bw + 6 * bb)
        by (nonlinear_arith)
        requires
            ah == aa * h,
            bw == bb * w,
    ;
    assert(4 * aa * (h + 1) - 2 * bb * (w - 2 - 3) == 4 * ah + 4 * aa - 2 * bw + 10 * bb)
        by (nonlinear_arith)
        requires
            ah == aa * h,
            bw == bb * w,
    ;
    assert(4 * aa * (h + 2 + 1) - 2 * bb * (w - 2 - 3) == 4 * ah + 12 * aa - 2 * bw + 10 * bb)
        by (nonlinear_arith)
        requires
            ah == aa * h,
            bw == bb * w,
    ;
    assert(4 * aa * (b + 1) == 4 * ab + 4 * aa) by (nonlinear_arith)
        requires
            ab == aa * b,
    ;
    // at full height the diagonal neighbour lies outside by the rise at least
    if h == b {
        assert(e == bb * ((w - 2) * (w - 2)) + rise) by (nonlinear_arith)
            requires
                e == bb * ((w - 2) * (w - 2)) + aa * ((h + 2) * (h + 2)) - aa * bb,
                rise == 4 * aa * (h + 1),
                h == b,
                bb == b * b,
        ;
        assert(bb * ((w - 2) * (w - 2)) == bw * w - 4 * bw + 4 * bb) by (nonlinear_arith)
            requires
                bw == bb * w,
        ;
        assert(bw * w >= 6 * bw - 9 * bb) by (nonlinear_arith)
            requires
                bw == bb * w,
                bb >= 1,
        ;
    }
    // two rows below full height it lies on the vertical through the ellipse's side
    if h + 2 == b {
        assert(e == bb * ((w - 2) * (w - 2))) by (nonlinear_arith)
            requires
                e == bb * ((w - 2) * (w - 2)) + aa * ((h + 2) * (h + 2)) - aa * bb,
                h + 2 == b,
                bb == b * b,
        ;
        assert(bb * ((w - 2) * (w - 2)) == bw * w - 4 * bw + 4 * bb) by (nonlinear_arith)
            requires
                bw == bb * w,
        ;
        assert(e >= 0) by (nonlinear_arith)
            requires
                e == bb * ((w - 2) * (w - 2)),
                bb >= 1,
        ;
        if w >= 5 {
            assert(bw * w >= 6 * bw - 5 * bb) by (nonlinear_arith)
                requires
                    bw == bb * w,
                    bb >= 1,
                    w >= 5,
            ;
        }
        if w == 4 {
            assert(bw == 4 * bb && bw * w == 16 * bb) by (nonlinear_arith)
                requires
                    bw == bb * w,
                    w == 4,
            ;
        }
        assert(ah + 2 * aa == ab) by (nonlinear_arith)
            requires
                ah == aa * h,
                ab == aa * b,
                h + 2 == b,
        ;
    }
    assert(next.upper - next.lower <= b);
    assert(ellipse_aa_on_track(a, b, next));
}

/// The sizes of the error, the rise and the lean of a frame on track in a
/// box no larger than `ELLIPSE_AA_MAX`, or up to a row taller.
pub proof fn lemma_ellipse_aa_bounds(a: int, b: int, f: Frame)
    requires
        1 <= a <= ELLIPSE_AA_MAX,
        1 <= b <= ELLIPSE_AA_MAX,
        -3 <= f.right - f.left <= a,
        0 <= f.upper - f.lower <= b + 2,
    ensures
        -0x1_0000_0000_0000_0000_0000 <= ellipse_diagonal(a, b, f) <= 0x1_0000_0000_0000_0000_0000,
        -0x1_0000_0000_0000_0000_0000 <= ellipse_own(a, b, f) <= 0x1_0000_0000_0000_0000_0000,
        1 <= ellipse_rise(a, f) < 0x1000_0000_0000_0000,
        -0x1000_0000_0000_0000 < ellipse_lean(b, f) < 0x1000_0000_0000_0000,
        1 <= a * a <= 0x40_0000_0000,
        1 <= b * b <= 0x40_0000_0000,
{
    let w = f.right - f.left;
    let h = f.upper - f.lower;
    let aa = a * a;
    let bb = b * b;
    assert(1 <= aa <= 0x40_0000_0000) by (nonlinear_arith)
        requires
            aa == a * a,
            1 <= a <= 0x8_0000,
    ;
    assert(1 <= bb <= 0x40_0000_0000) by (nonlinear_arith)
        requires
            bb == b * b,
            1 <= b <= 0x8_0000,
    ;
    assert(0 <= (w - 2) * (w - 2) <= 0x40_0000_0000) by (nonlinear_arith)
        requires
            -3 <= w <= 0x8_0000,
    ;
    assert(0 <= w * w <= 0x40_0000_0000) by (nonlinear_arith)
        requires
            -3 <= w <= 0x8_0000,
    ;
    assert(0 <= (h + 2) * (h + 2) <= 0x80_0000_0000) by (nonlinear_arith)
        requires
            0 <= h <= 0x8_0002,
    ;
    assert(0 <= h * h <= 0x80_0000_0000) by (nonlinear_arith)
        requires
            0 <= h <= 0x8_0002,
    ;
    assert(0 <= bb * ((w - 2) * (w - 2)) <= 0x40_0000_0000 * 0x40_0000_0000) by (nonlinear_arith)
        requires
            0 <= bb <= 0x40_0000_0000,
            0 <= (w - 2) * (w - 2) <= 0x40_0000_0000,
    ;
    assert(0 <= bb * (w * w) <= 0x40_0000_0000 * 0x40_0000_0000) by (nonlinear_arith)
        requires
            0 <= bb <= 0x40_0000_0000,
            0 <= w * w <= 0x40_0000_0000,
    ;
    assert(0 <= aa * ((h + 2) * (h + 2)) <= 0x40_0000_0000 * 0x80_0000_0000) by (nonlinear_arith)
        requires
            0 <= aa <= 0x40_0000_0000,
            0 <= (h + 2) * (h + 2) <= 0x80_0000_0000,
    ;
    assert(0 <= aa * (h * h) <= 0x40_0000_0000 * 0x80_0000_0000) by (nonlinear_arith)
        requires
            0 <= aa <= 0x40_0000_0000,
            0 <= h * h <= 0x80_0000_0000,
    ;
    assert(0 <= aa * bb <= 0x40_0000_0000 * 0x40_0000_0000) by (nonlinear_arith)
        requires
            0 <= aa <= 0x40_0000_0000,
            0 <= bb <= 0x40_0000_0000,
    ;
    assert(4 <= 4 * aa * (h + 1) <= 4 * 0x40_0000_0000 * 0x8_0003) by (nonlinear_arith)
        requires
            1 <= aa <= 0x40_0000_0000,
            1 <= h + 1 <= 0x8_0003,
    ;
    assert(-4 * 0x40_0000_0000 * 4 <= 4 * bb * (w - 1) <= 4 * 0x40_0000_0000 * 0x8_0000)
        by (nonlinear_arith)
        requires
            0 <= bb <= 0x40_0000_0000,
            -4 <= w - 1 <= 0x8_0000,
    ;
}

/// What the antialiased arc compares and shades with, in terms of the error
/// of the diagonal neighbour: the frame's own error, that of the pixel above
/// it and that of the pixel inside it.
pub proof fn lemma_ellipse_aa_errors(a: int, b: int, f: Frame)
    ensures
        ellipse_own(a, b, f) == ellipse_diagonal(a, b, f) + ellipse_lean(b, f) - ellipse_rise(
            a,
            f,
        ),
        ellipse_lean(b, f) == -ellipse_run(b, f),
        ellipse_lean(b, frame_narrower(f)) == ellipse_lean(b, f) - 8 * (b * b),
        ellipse_lean(b, frame_taller(f)) == ellipse_lean(b, f),
{
    let w = f.right - f.left;
    let h = f.upper - f.lower;
    let aa = a * a;
    let bb = b * b;
    assert(bb * (w * w) == bb * ((w - 2) * (w - 2)) + 4 * bb * (w - 1)) by (nonlinear_arith);
    assert(aa * (h * h) == aa * ((h + 2) * (h + 2)) - 4 * aa * (h + 1)) by (nonlinear_arith);
    assert(4 * bb * (w - 1) == -(4 * bb * (1 - w))) by (nonlinear_arith);
    assert(4 * bb * (w - 2 - 1) == 4 * bb * (w - 1) - 8 * bb) by (nonlinear_arith);
}

/// At full height the pixels above the frame are not covered.
#[verifier::rlimit(50)]
pub proof fn lemma_ellipse_aa_top(a: int, b: int, f: Frame)
    requires
        1 <= a <= ELLIPSE_AA_MAX,
        1 <= b <= ELLIPSE_AA_MAX,
        1 <= f.right - f.left <= a,
        f.upper - f.lower == b,
    ensures
        !ellipse_aa_cover(
            a,
            b,
            f,
            ellipse_diagonal(a, b, f) + ellipse_lean(b, f),
        ).fraction.positive(),
{
    let w = f.right - f.left;
    let aa = a * a;
    let bb = b * b;
    let e = ellipse_diagonal(a, b, f);
    let rise = ellipse_rise(a, f);
    let lean = ellipse_lean(b, f);
    let above = e + lean;
    lemma_ellipse_aa_bounds(a, b, f);
    assert(above == bb * (w * w) + rise) by (nonlinear_arith)
        requires
            above == bb * ((w - 2) * (w - 2)) + aa * ((b + 2) * (b + 2)) - aa * bb + 4 * bb * (w
                - 1),
            rise == 4 * aa * (b + 1),
            bb == b * b,
    ;
    assert(bb * (w * w) >= 4 * bb * (w - 1) - 2 * bb * (w - 1)) by (nonlinear_arith)
        requires
            bb >= 1,
    ;
    assert(bb * (w * w) - 4 * bb * (w - 1) >= 0) by (nonlinear_arith)
        requires
            bb >= 1,
    ;
    assert(4 * bb * (w - 1) >= 0) by (nonlinear_arith)
        requires
            bb >= 1,
            w >= 1,
    ;
    assert(2 * bb * (w - 1) + 2 * bb * (w - 1) == 4 * bb * (w - 1)) by (nonlinear_arith);
    if b == 1 && e > rise && a > b {
        assert(rise == 8 * aa) by (nonlinear_arith)
            requires
                rise == 4 * aa * (b + 1),
                b == 1,
        ;
        assert(bb * (w * w) >= 0) by (nonlinear_arith)
            requires
                bb >= 1,
        ;
    } else if lean > rise {
        lemma_edge_not_positive(above as i128, lean as i128, rise as i128);
    } else {
        lemma_edge_not_positive(above as i128, rise as i128, lean as i128);
    }
}

/// Whether the pixel lies in the box with the lower left corner `(xl, yl)`,
/// the width `a` and the height `b`, with a coverage that a sink can
/// evaluate.
pub open spec fn boxed(xl: int, yl: int, a: int, b: int, e: Emission) -> bool {
    &&& xl <= e.x <= xl + a
    &&& yl <= e.y <= yl + b
    &&& e.coverage.wf()
}

/// Whether every pixel of a sequence is boxed.
pub open spec fn all_boxed(xl: int, yl: int, a: int, b: int, s: Seq<Emission>) -> bool {
    forall|i: int| 0 <= i < s.len() ==> boxed(xl, yl, a, b, #[trigger] s[i])
}

/// Two sequences of boxed pixels make one.
pub proof fn lemma_all_boxed_concat(
    xl: int,
    yl: int,
    a: int,
    b: int,
    s: Seq<Emission>,
    t: Seq<Emission>,
)
    requires
        all_boxed(xl, yl, a, b, s),
        all_boxed(xl, yl, a, b, t),
    ensures
        all_boxed(xl, yl, a, b, s + t),
{
    assert forall|i: int| 0 <= i < (s + t).len() implies boxed(xl, yl, a, b, #[trigger] (s + t)[i]) by {
        if i < s.len() {
            assert((s + t)[i] == s[i]);
        } else {
            assert((s + t)[i] == t[i - s.len()]);
        }
    }
}

/// The four pixels of a frame in the box, in either order, are boxed.
pub proof fn lemma_quad_boxed(
    xm: int,
    ym: int,
    xl: int,
    yl: int,
    a: int,
    b: int,
    f: Frame,
    alpha: Coverage,
)
    requires
        alpha.wf(),
        xl <= f.left <= xl + a,
        xl <= f.right <= xl + a,
        yl <= f.lower <= yl + b,
        yl <= f.upper <= yl + b,
    ensures
        all_boxed(xl, yl, a, b, quad_by_column(xm, ym, f, alpha)),
        all_boxed(xl, yl, a, b, quad_by_row(xm, ym, f, alpha)),
{
    let lu = off_axis(xm, ym, Emission { x: f.left, y: f.upper, coverage: alpha });
    let ll = off_axis(xm, ym, Emission { x: f.left, y: f.lower, coverage: alpha });
    let ru = off_axis(xm, ym, Emission { x: f.right, y: f.upper, coverage: alpha });
    let rl = off_axis(xm, ym, Emission { x: f.right, y: f.lower, coverage: alpha });
    assert(all_boxed(xl, yl, a, b, lu));
    assert(all_boxed(xl, yl, a, b, ll));
    assert(all_boxed(xl, yl, a, b, ru));
    assert(all_boxed(xl, yl, a, b, rl));
    lemma_all_boxed_concat(xl, yl, a, b, lu, ll);
    lemma_all_boxed_concat(xl, yl, a, b, lu + ll, ru);
    lemma_all_boxed_concat(xl, yl, a, b, lu + ll + ru, rl);
    lemma_all_boxed_concat(xl, yl, a, b, lu, ru);
    lemma_all_boxed_concat(xl, yl, a, b, lu + ru, ll);
    lemma_all_boxed_concat(xl, yl, a, b, lu + ru + ll, rl);
}

/// The coverage that the antialiased arc gives a pixel is one that a sink
/// can evaluate.
pub proof fn lemma_ellipse_aa_cover_wf(a: int, b: int, f: Frame, deficit: int)
    requires
        1 <= a <= ELLIPSE_AA_MAX,
        1 <= b <= ELLIPSE_AA_MAX,
        -3 <= f.right - f.left <= a,
        0 <= f.upper - f.lower <= b + 2,
    ensures
        ellipse_aa_cover(a, b, f, deficit).wf(),
{
    lemma_ellipse_aa_bounds(a, b, f);
}

/// What the antialiased arc emits at a frame on track and centred in its box
/// is boxed.
pub proof fn lemma_ellipse_aa_at_boxed(xm: int, ym: int, xl: int, yl: int, a: int, b: int, f: Frame)
    requires
        a <= ELLIPSE_AA_MAX,
        b <= ELLIPSE_AA_MAX,
        ellipse_aa_on_track(a, b, f),
        f.left + f.right == 2 * xl + a,
        f.lower + f.upper == 2 * yl + b,
    ensures
        all_boxed(xl, yl, a, b, ellipse_aa_at(xm, ym, a, b, f)),
{
    reveal(ellipse_aa_at);
    let e = ellipse_diagonal(a, b, f);
    let rise = ellipse_rise(a, f);
    let lean = ellipse_lean(b, f);
    let own = ellipse_own(a, b, f);
    let size = if own < 0 { -own } else { own };
    let above = e + lean;
    let inside = rise - e;
    let main = quad_by_column(xm, ym, f, ellipse_aa_cover(a, b, f, size));
    let over = if 2 * e + rise >= 0 && f.left < f.right && ellipse_aa_cover(
        a,
        b,
        f,
        above,
    ).fraction.positive() {
        quad_by_column(xm, ym, frame_taller(f), ellipse_aa_cover(a, b, f, above))
    } else {
        Seq::empty()
    };
    let within = if !ellipse_aa_stop(a, b, f) && 2 * e <= lean && ellipse_aa_cover(
        a,
        b,
        f,
        inside,
    ).fraction.positive() {
        quad_by_row(xm, ym, frame_narrower(f), ellipse_aa_cover(a, b, f, inside))
    } else {
        Seq::empty()
    };
    lemma_ellipse_aa_cover_wf(a, b, f, size);
    lemma_ellipse_aa_cover_wf(a, b, f, above);
    lemma_ellipse_aa_cover_wf(a, b, f, inside);
    lemma_quad_boxed(xm, ym, xl, yl, a, b, f, ellipse_aa_cover(a, b, f, size));
    if 2 * e + rise >= 0 && f.left < f.right && ellipse_aa_cover(a, b, f, above).fraction.positive() {
        if f.upper - f.lower == b {
            lemma_ellipse_aa_top(a, b, f);
        }
        lemma_quad_boxed(
            xm,
            ym,
            xl,
            yl,
            a,
            b,
            frame_taller(f),
            ellipse_aa_cover(a, b, f, above),
        );
    }
    if !ellipse_aa_stop(a, b, f) && 2 * e <= lean && ellipse_aa_cover(
        a,
        b,
        f,
        inside,
    ).fraction.positive() {
        lemma_quad_boxed(
            xm,
            ym,
            xl,
            yl,
            a,
            b,
            frame_narrower(f),
            ellipse_aa_cover(a, b, f, inside),
        );
    }
    lemma_all_boxed_concat(xl, yl, a, b, main, over);
    lemma_all_boxed_concat(xl, yl, a, b, main + over, within);
}

/// The antialiased tips of a frame centred in its box are boxed.
pub proof fn lemma_ellipse_aa_tips_boxed(
    xm: int,
    ym: int,
    xl: int,
    yl: int,
    a: int,
    b: int,
    f: Frame,
)
    requires
        1 <= a,
        1 <= b <= ELLIPSE_AA_MAX,
        f.left + f.right == 2 * xl + a,
        f.lower + f.upper == 2 * yl + b,
        0 <= f.upper - f.lower <= b,
        (b - (f.upper - f.lower)) % 2 == 0,
    ensures
        all_boxed(xl, yl, a, b, ellipse_aa_tips(xm, ym, a, b, f)),
    decreases b - (f.upper - f.lower) + 1,
{
    if f.left - 1 == f.right && f.upper - f.lower < b {
        let e = ellipse_diagonal(a, b, f) + ellipse_lean(b, f);
        let g = Frame {
            left: f.left - 1,
            right: f.right + 1,
            lower: f.lower - 1,
            upper: f.upper + 1,
        };
        let alpha = Coverage::spec_ratio(
            2 * (b * b) - (if e < 0 { -e } else { e }),
            2 * (b * b),
        );
        assert(1 <= b * b <= 0x40_0000_0000) by (nonlinear_arith)
            requires
                1 <= b <= 0x8_0000,
        ;
        lemma_quad_boxed(xm, ym, xl, yl, a, b, g, alpha);
        lemma_ellipse_aa_tips_boxed(xm, ym, xl, yl, a, b, frame_taller(f));
        lemma_all_boxed_concat(
            xl,
            yl,
            a,
            b,
            quad_by_row(xm, ym, g, alpha),
            ellipse_aa_tips(xm, ym, a, b, frame_taller(f)),
        );
    }
}

/// From a frame on track and centred in its box onwards, every pixel of the
/// antialiased arc is boxed.
pub proof fn lemma_ellipse_aa_arc_boxed(
    xm: int,
    ym: int,
    xl: int,
    yl: int,
    a: int,
    b: int,
    f: Frame,
)
    requires
        a <= ELLIPSE_AA_MAX,
        b <= ELLIPSE_AA_MAX,
        ellipse_aa_on_track(a, b, f),
        f.left + f.right == 2 * xl + a,
        f.lower + f.upper == 2 * yl + b,
    ensures
        all_boxed(xl, yl, a, b, ellipse_aa_arc(xm, ym, a, b, f)),
    decreases f.right - f.left + 1, ellipse_slack(a, b, f),
{
    lemma_ellipse_aa_at_boxed(xm, ym, xl, yl, a, b, f);
    if ellipse_aa_stop(a, b, f) {
        lemma_ellipse_aa_tips_boxed(xm, ym, xl, yl, a, b, f);
        lemma_all_boxed_concat(
            xl,
            yl,
            a,
            b,
            ellipse_aa_at(xm, ym, a, b, f),
            ellipse_aa_tips(xm, ym, a, b, f),
        );
    } else {
        let next = ellipse_aa_next(a, b, f);
        lemma_ellipse_aa_step(a, b, f);
        lemma_ellipse_increments(a, b, f);
        assert(a * a >= 1) by (nonlinear_arith)
            requires
                a >= 1,
        ;
        assert(4 * (a * a) * (f.upper - f.lower + 3) > 0) by (nonlinear_arith)
            requires
                a * a >= 1,
                f.upper - f.lower >= 0,
        ;
        assert(4 * (a * a) * (f.upper - f.lower + 1) > 0) by (nonlinear_arith)
            requires
                a * a >= 1,
                f.upper - f.lower >= 0,
        ;
        assert(4 * (b * b) * (f.right - f.left - 1) >= 0) by (nonlinear_arith)
            requires
                f.right - f.left >= 1,
        ;
        lemma_ellipse_aa_arc_boxed(xm, ym, xl, yl, a, b, next);
        lemma_all_boxed_concat(
            xl,
            yl,
            a,
            b,
            ellipse_aa_at(xm, ym, a, b, f),
            ellipse_aa_arc(xm, ym, a, b, next),
        );
    }
}

/// The antialiased outline of an ellipse stays in its box: after the four
/// poles, every pixel lies between the two corners and has a coverage that a
/// sink can evaluate.
pub proof fn lemma_ellipse_aa_in_box(x0: int, y0: int, x1: int, y1: int)
    requires
        x0 != x1,
        y0 != y1,
        abs(x1 - x0) <= ELLIPSE_AA_MAX,
        abs(y1 - y0) <= ELLIPSE_AA_MAX,
    ensures
        ellipse_aa_emissions(x0, y0, x1, y1).len() >= 4,
        forall|i: int|
            4 <= i < ellipse_aa_emissions(x0, y0, x1, y1).len() ==> boxed(
                if x0 > x1 { x1 } else { x0 },
                if y0 > y1 { y1 } else { y0 },
                abs(x1 - x0),
                abs(y1 - y0),
                #[trigger] ellipse_aa_emissions(x0, y0, x1, y1)[i],
            ),
{
    let xl = if x0 > x1 { x1 } else { x0 };
    let yl = if y0 > y1 { y1 } else { y0 };
    let a = abs(x1 - x0);
    let b = abs(y1 - y0);
    let xm = half_toward_zero(x0 + x1);
    let ym = half_toward_zero(y0 + y1);
    let f = ellipse_start(x0, y0, x1, y1);
    let poles = ellipse_aa_poles(xm, ym, x0, y0, x1, y1);
    let arc = ellipse_aa_arc(xm, ym, a, b, f);
    lemma_ellipse_aa_start(a, b, f);
    lemma_ellipse_aa_arc_boxed(xm, ym, xl, yl, a, b, f);
    assert forall|i: int| 4 <= i < (poles + arc).len() implies boxed(
        xl,
        yl,
        a,
        b,
        #[trigger] (poles + arc)[i],
    ) by {
        assert((poles + arc)[i] == arc[i - 4]);
    }
}

/// Puts the brush on four pixels in two columns and two rows, a column at a
/// time (`by_row` false) or a row at a time (`by_row` true), leaving out those
/// on an axis through `(xm, ym)`.
#[verifier::rlimit(50)]
fn put_quad<P: Plotter>(
    plot: &mut P,
    xm: i64,
    ym: i64,
    left: i128,
    right: i128,
    lower: i128,
    upper: i128,
    by_row: bool,
    alpha: Coverage,
    brush: Brush,
    Ghost(start): Ghost<P::Model>,
    Ghost(done): Ghost<Seq<Emission>>,
)
    requires
        (*old(plot)).inv(),
        alpha.wf(),
        brush.fits(left as int, lower as int),
        brush.fits(left as int, upper as int),
        brush.fits(right as int, lower as int),
        brush.fits(right as int, upper as int),
        (*old(plot)).model() == absorb::<P>(start, stroke(done, brush)),
    ensures
        (*final(plot)).inv(),
        (*final(plot)).size() == (*old(plot)).size(),
        (*final(plot)).model() == absorb::<P>(
            start,
            stroke(
                done + (if by_row {
                    quad_by_row(
                        xm as int,
                        ym as int,
                        (Frame {
                            left: left as int,
                            right: right as int,
                            lower: lower as int,
                            upper: upper as int,
                        }),
                        alpha,
                    )
                } else {
                    quad_by_column(
                        xm as int,
                        ym as int,
                        (Frame {
                            left: left as int,
                            right: right as int,
                            lower: lower as int,
                            upper: upper as int,
                        }),
                        alpha,
                    )
                }),
                brush,
            ),
        ),
{
    let l: i64 = left as i64;
    let r: i64 = right as i64;
    let lo: i64 = lower as i64;
    let up: i64 = upper as i64;
    let ghost lu = off_axis(xm as int, ym as int, Emission { x: l as int, y: up as int, coverage: alpha });
    let ghost ll = off_axis(xm as int, ym as int, Emission { x: l as int, y: lo as int, coverage: alpha });
    let ghost ru = off_axis(xm as int, ym as int, Emission { x: r as int, y: up as int, coverage: alpha });
    let ghost rl = off_axis(xm as int, ym as int, Emission { x: r as int, y: lo as int, coverage: alpha });
    put_off_axis(plot, xm, ym, l, up, alpha, brush, Ghost(start), Ghost(done));
    if by_row {
        put_off_axis(plot, xm, ym, r, up, alpha, brush, Ghost(start), Ghost(done + lu));
        put_off_axis(plot, xm, ym, l, lo, alpha, brush, Ghost(start), Ghost(done + lu + ru));
        put_off_axis(plot, xm, ym, r, lo, alpha, brush, Ghost(start), Ghost(done + lu + ru + ll));
        assert(done + lu + ru + ll + rl =~= done + (lu + ru + ll + rl));
    } else {
        put_off_axis(plot, xm, ym, l, lo, alpha, brush, Ghost(start), Ghost(done + lu));
        put_off_axis(plot, xm, ym, r, up, alpha, brush, Ghost(start), Ghost(done + lu + ll));
        put_off_axis(plot, xm, ym, r, lo, alpha, brush, Ghost(start), Ghost(done + lu + ll + ru));
        assert(done + lu + ll + ru + rl =~= done + (lu + ll + ru + rl));
    }
}

/// One less `deficit` over the edge estimate for the two components of a
/// gradient, the greater of which is the major one.
fn edge_between(deficit: i128, lean: i128, rise: i128) -> (c: Coverage)
    requires
        1 <= rise < EDGE_LIMIT,
        -EDGE_LIMIT < lean < EDGE_LIMIT,
    ensures
        c.wf(),
        lean > rise ==> c == (Coverage {
            fraction: Fraction::Edge { deficit, major: lean, minor: rise },
            falloff: Falloff::Flat,
        }),
        lean <= rise ==> c == (Coverage {
            fraction: Fraction::Edge { deficit, major: rise, minor: lean },
            falloff: Falloff::Flat,
        }),
{
    let (minor, major) = min_max(lean, rise);
    Coverage::edge(deficit, major, minor)
}

/// The coverage of a pixel whose error has the size `deficit`, seen from a
/// frame `height` high with the given error of its diagonal neighbour, lean
/// and rise.
fn aa_cover(
    a: i128,
    b: i128,
    height: i128,
    diagonal: i128,
    lean: i128,
    rise: i128,
    deficit: i128,
    Ghost(f): Ghost<Frame>,
) -> (c: Coverage)
    requires
        1 <= a <= ELLIPSE_AA_MAX,
        1 <= b <= ELLIPSE_AA_MAX,
        height == f.upper - f.lower,
        diagonal == ellipse_diagonal(a as int, b as int, f),
        lean == ellipse_lean(b as int, f),
        rise == ellipse_rise(a as int, f),
        1 <= rise < EDGE_LIMIT,
        -EDGE_LIMIT < lean < EDGE_LIMIT,
        -0x4_0000_0000_0000_0000_0000 <= deficit <= 0x4_0000_0000_0000_0000_0000,
    ensures
        c == ellipse_aa_cover(a as int, b as int, f, deficit as int),
        c.wf(),
{
    if height == 1 && diagonal > rise && a > b {
        proof {
            assert(1 <= a * a <= 0x40_0000_0000) by (nonlinear_arith)
                requires
                    1 <= a <= 0x8_0000,
            ;
        }
        let span: i128 = 2 * (a * a);
        Coverage::ratio(span - deficit, span)
    } else {
        edge_between(deficit, lean, rise)
    }
}

/// Emits what the antialiased arc has at the frame `f`.
#[verifier::rlimit(50)]
fn put_ellipse_aa_at<P: Plotter>(
    plot: &mut P,
    xm: i64,
    ym: i64,
    a: i128,
    b: i128,
    left: i128,
    right: i128,
    lower: i128,
    upper: i128,
    diagonal: i128,
    lean: i128,
    rise: i128,
    brush: Brush,
    Ghost(corner): Ghost<(int, int)>,
    Ghost(start): Ghost<P::Model>,
    Ghost(done): Ghost<Seq<Emission>>,
)
    requires
        (*old(plot)).inv(),
        1 <= a <= ELLIPSE_AA_MAX,
        1 <= b <= ELLIPSE_AA_MAX,
        ({
            let f = Frame {
                left: left as int,
                right: right as int,
                lower: lower as int,
                upper: upper as int,
            };
            &&& ellipse_aa_on_track(a as int, b as int, f)
            &&& diagonal == ellipse_diagonal(a as int, b as int, f)
            &&& lean == ellipse_lean(b as int, f)
            &&& rise == ellipse_rise(a as int, f)
            &&& f.left + f.right == 2 * corner.0 + a
            &&& f.lower + f.upper == 2 * corner.1 + b
        }),
        brush.fits(corner.0, corner.1),
        brush.fits(corner.0 + a, corner.1 + b),
        (*old(plot)).model() == absorb::<P>(start, stroke(done, brush)),
    ensures
        (*final(plot)).inv(),
        (*final(plot)).size() == (*old(plot)).size(),
        (*final(plot)).model() == absorb::<P>(
            start,
            stroke(
                done + ellipse_aa_at(
                    xm as int,
                    ym as int,
                    a as int,
                    b as int,
                    (Frame {
                        left: left as int,
                        right: right as int,
                        lower: lower as int,
                        upper: upper as int,
                    }),
                ),
                brush,
            ),
        ),
{
    let ghost f = Frame {
        left: left as int,
        right: right as int,
        lower: lower as int,
        upper: upper as int,
    };
    proof {
        lemma_ellipse_aa_bounds(a as int, b as int, f);
        lemma_ellipse_aa_errors(a as int, b as int, f);
    }
    let height: i128 = upper - lower;
    let own: i128 = diagonal + lean - rise;
    let size: i128 = if own < 0 { -own } else { own };
    let above: i128 = diagonal + lean;
    let inside: i128 = rise - diagonal;
    let ghost main = quad_by_column(
        xm as int,
        ym as int,
        f,
        ellipse_aa_cover(a as int, b as int, f, size as int),
    );
    let ghost over = if 2 * diagonal + rise >= 0 && left < right && ellipse_aa_cover(
        a as int,
        b as int,
        f,
        above as int,
    ).fraction.positive() {
        quad_by_column(
            xm as int,
            ym as int,
            frame_taller(f),
            ellipse_aa_cover(a as int, b as int, f, above as int),
        )
    } else {
        Seq::empty()
    };
    let ghost within = if !ellipse_aa_stop(a as int, b as int, f) && 2 * diagonal <= lean
        && ellipse_aa_cover(a as int, b as int, f, inside as int).fraction.positive() {
        quad_by_row(
            xm as int,
            ym as int,
            frame_narrower(f),
            ellipse_aa_cover(a as int, b as int, f, inside as int),
        )
    } else {
        Seq::empty()
    };
    assert(ellipse_aa_at(xm as int, ym as int, a as int, b as int, f) == main + over + within) by {
        reveal(ellipse_aa_at);
    }
    let c = aa_cover(a, b, height, diagonal, lean, rise, size, Ghost(f));
    put_quad(plot, xm, ym, left, right, lower, upper, false, c, brush, Ghost(start), Ghost(done));
    let turn: i128 = 2 * diagonal + rise;
    let mut shown: bool = false;
    if turn >= 0 && left < right {
        let c = aa_cover(a, b, height, diagonal, lean, rise, above, Ghost(f));
        if c.is_positive() {
            proof {
                if height == b {
                    lemma_ellipse_aa_top(a as int, b as int, f);
                }
            }
            put_quad(
                plot,
                xm,
                ym,
                left,
                right,
                lower - 1,
                upper + 1,
                false,
                c,
                brush,
                Ghost(start),
                Ghost(done + main),
            );
            shown = true;
        }
    }
    proof {
        if !shown {
            assert(done + main + over =~= done + main);
        }
    }
    let stop: bool = turn >= 0 && left >= right;
    let mut filled: bool = false;
    if !stop && 2 * diagonal <= lean {
        let c = aa_cover(a, b, height, diagonal, lean, rise, inside, Ghost(f));
        if c.is_positive() {
            put_quad(
                plot,
                xm,
                ym,
                left + 1,
                right - 1,
                lower,
                upper,
                true,
                c,
                brush,
                Ghost(start),
                Ghost(done + main + over),
            );
            filled = true;
        }
    }
    proof {
        if !filled {
            assert(done + main + over + within =~= done + main + over);
        }
        assert(done + main + over + within =~= done + (main + over + within));
    }
}

/// The four fully covered pixels where the axes through `(xm, ym)` meet the
/// box with the corners `(x0, y0)` and `(x1, y1)`.
pub open spec fn ellipse_aa_poles(xm: int, ym: int, x0: int, y0: int, x1: int, y1: int) -> Seq<
    Emission,
> {
    seq![
        Emission { x: xm, y: y0, coverage: Coverage::spec_full() },
        Emission { x: x0, y: ym, coverage: Coverage::spec_full() },
        Emission { x: xm, y: y1, coverage: Coverage::spec_full() },
        Emission { x: x1, y: ym, coverage: Coverage::spec_full() },
    ]
}

/// Emits the four poles onto a sink.
fn put_poles<P: Plotter>(
    plot: &mut P,
    xm: i64,
    ym: i64,
    x0: i64,
    y0: i64,
    x1: i64,
    y1: i64,
    brush: Brush,
)
    requires
        (*old(plot)).inv(),
        brush.fits(xm as int, y0 as int),
        brush.fits(x0 as int, ym as int),
        brush.fits(xm as int, y1 as int),
        brush.fits(x1 as int, ym as int),
    ensures
        (*final(plot)).inv(),
        (*final(plot)).size() == (*old(plot)).size(),
        (*final(plot)).model() == absorb::<P>(
            (*old(plot)).model(),
            stroke(
                ellipse_aa_poles(xm as int, ym as int, x0 as int, y0 as int, x1 as int, y1 as int),
                brush,
            ),
        ),
{
    let ghost start = (*plot).model();
    let ghost poles = ellipse_aa_poles(
        xm as int,
        ym as int,
        x0 as int,
        y0 as int,
        x1 as int,
        y1 as int,
    );
    let ghost mut done: Seq<Emission> = Seq::empty();
    proof {
        crate::plot::lemma_stroke_nothing::<P>(start, brush);
    }
    put(plot, xm, y0, Coverage::full(), brush, Ghost(start), Ghost(done));
    proof {
        done = done.push(poles[0]);
    }
    put(plot, x0, ym, Coverage::full(), brush, Ghost(start), Ghost(done));
    proof {
        done = done.push(poles[1]);
    }
    put(plot, xm, y1, Coverage::full(), brush, Ghost(start), Ghost(done));
    proof {
        done = done.push(poles[2]);
    }
    put(plot, x1, ym, Coverage::full(), brush, Ghost(start), Ghost(done));
    proof {
        done = done.push(poles[3]);
        assert(done =~= poles);
    }
}

/// The error of the diagonal neighbour of the starting frame, the lean and
/// the rise there, as the rasteriser computes them.
proof fn lemma_ellipse_aa_first(a: int, b: int, f: Frame)
    requires
        1 <= a <= ELLIPSE_AA_MAX,
        1 <= b <= ELLIPSE_AA_MAX,
        f.right - f.left == a,
        f.upper - f.lower == b % 2,
    ensures
        ellipse_lean(b, f) == 4 * (a - 1) * (b * b),
        ellipse_rise(a, f) == 4 * (b % 2 + 1) * (a * a),
        ellipse_diagonal(a, b, f) == (b % 2) * (a * a) - ellipse_lean(b, f) + ellipse_rise(a, f),
        0 <= (b % 2) * (a * a) <= a * a,
{
    let b1 = b % 2;
    let aa = a * a;
    let bb = b * b;
    assert(4 * (a - 1) * bb == 4 * bb * (a - 1)) by (nonlinear_arith);
    assert(4 * (b1 + 1) * aa == 4 * aa * (b1 + 1)) by (nonlinear_arith);
    assert(0 <= b1 * aa <= aa) by (nonlinear_arith)
        requires
            b1 == 0 || b1 == 1,
            aa == a * a,
    ;
    assert(bb * ((a - 2) * (a - 2)) + aa * ((b1 + 2) * (b1 + 2)) - aa * bb == b1 * aa - 4 * bb
        * (a - 1) + 4 * aa * (b1 + 1)) by (nonlinear_arith)
        requires
            b1 == 0 || b1 == 1,
            aa == a * a,
            bb == b * b,
    ;
}

/// Draws the antialiased outline of the ellipse inscribed in the box with the
/// corners `(x0, y0)` and `(x1, y1)`, given in any order.
///
/// A box without width or without height gives the line between the two
/// corners.  Otherwise the four pixels where the axes through the centre meet
/// the box come first, fully covered.  Then the arc is walked from the ends
/// of the horizontal axis to the poles as for the plain ellipse; each of its
/// pixels, and on each side the neighbour that the ellipse still touches, is
/// mirrored into the four quadrants with a coverage of one less its error
/// over the length of the gradient there.  Pixels on the axes are left to the
/// first four.  The poles of a flat ellipse of odd width are closed at the
/// end.
#[verifier::rlimit(50)]
pub fn draw_ellipse_aa<P: Plotter>(
    x0: i64,
    y0: i64,
    x1: i64,
    y1: i64,
    plot: &mut P,
    brush: Brush,
)
    requires
        (*old(plot)).inv(),
        brush.fits(x0 as int, y0 as int),
        brush.fits(x1 as int, y1 as int),
        x0 != x1 && y0 != y1 ==> abs(x1 - x0) <= ELLIPSE_AA_MAX && abs(y1 - y0)
            <= ELLIPSE_AA_MAX,
    ensures
        (*final(plot)).inv(),
        (*final(plot)).size() == (*old(plot)).size(),
        (*final(plot)).model() == absorb::<P>(
            (*old(plot)).model(),
            stroke(ellipse_aa_emissions(x0 as int, y0 as int, x1 as int, y1 as int), brush),
        ),
{
    if x0 == x1 || y0 == y1 {
        draw_line_bresenham(x0, y0, x1, y1, plot, brush);
        return ;
    }
    let a: i128 = if x1 < x0 { x0 as i128 - x1 as i128 } else { x1 as i128 - x0 as i128 };
    let b: i128 = if y1 < y0 { y0 as i128 - y1 as i128 } else { y1 as i128 - y0 as i128 };
    let xs: i128 = x0 as i128 + x1 as i128;
    let ys: i128 = y0 as i128 + y1 as i128;
    let xm: i64 = (if xs >= 0 { xs / 2 } else { -((-xs) / 2) }) as i64;
    let ym: i64 = (if ys >= 0 { ys / 2 } else { -((-ys) / 2) }) as i64;
    let ghost start = (*plot).model();
    let ghost poles = ellipse_aa_poles(xm as int, ym as int, x0 as int, y0 as int, x1 as int, y1 as int);
    put_poles(plot, xm, ym, x0, y0, x1, y1, brush);
    let xl: i64 = if x0 > x1 { x1 } else { x0 };
    let yl: i64 = if y0 > y1 { y1 } else { y0 };
    put_ellipse_aa_arc(plot, xm, ym, xl, yl, a, b, brush, Ghost(start), Ghost(poles));
    proof {
        let f = ellipse_start(x0 as int, y0 as int, x1 as int, y1 as int);
        assert(f == frame_at(xl as int, yl as int, a as int, b as int));
    }
}

/// Emits the antialiased arc and the tips of the ellipse in the box with the
/// lower left corner `(xl, yl)`, the width `a` and the height `b`.
#[verifier::rlimit(50)]
fn put_ellipse_aa_arc<P: Plotter>(
    plot: &mut P,
    xm: i64,
    ym: i64,
    xl: i64,
    yl: i64,
    a: i128,
    b: i128,
    brush: Brush,
    Ghost(start): Ghost<P::Model>,
    Ghost(poles): Ghost<Seq<Emission>>,
)
    requires
        (*old(plot)).inv(),
        1 <= a <= ELLIPSE_AA_MAX,
        1 <= b <= ELLIPSE_AA_MAX,
        brush.fits(xl as int, yl as int),
        brush.fits(xl + a, yl + b),
        (*old(plot)).model() == absorb::<P>(start, stroke(poles, brush)),
    ensures
        (*final(plot)).inv(),
        (*final(plot)).size() == (*old(plot)).size(),
        (*final(plot)).model() == absorb::<P>(
            start,
            stroke(
                poles + ellipse_aa_arc(
                    xm as int,
                    ym as int,
                    a as int,
                    b as int,
                    frame_at(xl as int, yl as int, a as int, b as int),
                ),
                brush,
            ),
        ),
{
    let ghost wanted = poles + ellipse_aa_arc(
        xm as int,
        ym as int,
        a as int,
        b as int,
        frame_at(xl as int, yl as int, a as int, b as int),
    );
    let ghost mut done: Seq<Emission> = poles;
    let b1: i128 = b % 2;
    let mut left: i128 = xl as i128;
    let mut right: i128 = xl as i128 + a;
    let mut upper: i128 = yl as i128 + (b + 1) / 2;
    let mut lower: i128 = upper - b1;
    let ghost mut f = Frame {
        left: left as int,
        right: right as int,
        lower: lower as int,
        upper: upper as int,
    };
    proof {
        assert(f == frame_at(xl as int, yl as int, a as int, b as int));
        lemma_ellipse_aa_bounds(a as int, b as int, f);
        lemma_ellipse_aa_start(a as int, b as int, f);
        lemma_ellipse_aa_first(a as int, b as int, f);
    }
    let aa: i128 = a * a;
    let bb: i128 = b * b;
    let a8: i128 = 8 * aa;
    let b8: i128 = 8 * bb;
    let mut dx: i128 = 4 * (a - 1) * bb;
    let mut dy: i128 = 4 * (b1 + 1) * aa;
    let mut err: i128 = b1 * aa - dx + dy;
    loop
        invariant_except_break
            done + ellipse_aa_arc(xm as int, ym as int, a as int, b as int, f) == wanted,
        invariant
            (*plot).inv(),
            (*plot).size() == (*old(plot)).size(),
            1 <= a <= ELLIPSE_AA_MAX,
            1 <= b <= ELLIPSE_AA_MAX,
            aa == a * a,
            bb == b * b,
            a8 == 8 * aa,
            b8 == 8 * bb,
            i64::MIN <= xl,
            xl + a <= i64::MAX,
            i64::MIN <= yl,
            yl + b <= i64::MAX,
            brush.fits(xl as int, yl as int),
            brush.fits(xl + a, yl + b),
            f == (Frame {
                left: left as int,
                right: right as int,
                lower: lower as int,
                upper: upper as int,
            }),
            f.left + f.right == 2 * xl + a,
            f.lower + f.upper == 2 * yl + b,
            ellipse_aa_on_track(a as int, b as int, f),
            err == ellipse_diagonal(a as int, b as int, f),
            dx == ellipse_lean(b as int, f),
            dy == ellipse_rise(a as int, f),
            (*plot).model() == absorb::<P>(start, stroke(done, brush)),
        ensures
            done + ellipse_aa_tips(xm as int, ym as int, a as int, b as int, f) == wanted,
        decreases f.right - f.left + 1, ellipse_slack(a as int, b as int, f),
    {
        let ghost before = done;
        let ghost f0 = f;
        let ghost at = ellipse_aa_at(xm as int, ym as int, a as int, b as int, f);
        put_ellipse_aa_at(
            plot,
            xm,
            ym,
            a,
            b,
            left,
            right,
            lower,
            upper,
            err,
            dx,
            dy,
            brush,
            Ghost((xl as int, yl as int)),
            Ghost(start),
            Ghost(done),
        );
        proof {
            done = done + at;
            lemma_ellipse_aa_bounds(a as int, b as int, f);
        }
        let turn: i128 = 2 * err + dy;
        if turn >= 0 && left >= right {
            proof {
                assert(before + at + ellipse_aa_tips(xm as int, ym as int, a as int, b as int, f)
                    =~= before + (at + ellipse_aa_tips(
                    xm as int,
                    ym as int,
                    a as int,
                    b as int,
                    f,
                )));
            }
            break ;
        }
        proof {
            lemma_ellipse_aa_step(a as int, b as int, f);
            lemma_ellipse_increments(a as int, b as int, f);
            lemma_ellipse_increments(a as int, b as int, frame_taller(f));
            lemma_ellipse_aa_errors(a as int, b as int, f);
            lemma_ellipse_aa_errors(a as int, b as int, frame_taller(f));
            lemma_ellipse_aa_bounds(a as int, b as int, frame_taller(f));
            lemma_ellipse_aa_bounds(a as int, b as int, frame_narrower(f));
            lemma_ellipse_aa_bounds(a as int, b as int, frame_narrower(frame_taller(f)));
        }
        if 2 * err <= dx {
            upper = upper + 1;
            lower = lower - 1;
            dy = dy + a8;
            err = err + dy;
            proof {
                f = frame_taller(f);
            }
        }
        if turn > 0 {
            left = left + 1;
            right = right - 1;
            dx = dx - b8;
            err = err - dx;
            proof {
                f = frame_narrower(f);
            }
        }
        proof {
            assert(f == ellipse_aa_next(a as int, b as int, f0));
            assert(before + at + ellipse_aa_arc(xm as int, ym as int, a as int, b as int, f)
                =~= before + (at + ellipse_aa_arc(xm as int, ym as int, a as int, b as int, f)));
        }
    }
    if left - 1 == right {
        while upper - lower < b
            invariant
                (*plot).inv(),
                (*plot).size() == (*old(plot)).size(),
                1 <= a <= ELLIPSE_AA_MAX,
                1 <= b <= ELLIPSE_AA_MAX,
                aa == a * a,
                bb == b * b,
                a8 == 8 * aa,
                i64::MIN <= xl,
                xl + a <= i64::MAX,
                i64::MIN <= yl,
                yl + b <= i64::MAX,
                brush.fits(xl as int, yl as int),
                brush.fits(xl + a, yl + b),
                f == (Frame {
                    left: left as int,
                    right: right as int,
                    lower: lower as int,
                    upper: upper as int,
                }),
                left - 1 == right,
                f.left + f.right == 2 * xl + a,
                f.lower + f.upper == 2 * yl + b,
                0 <= f.upper - f.lower <= b,
                (b - (f.upper - f.lower)) % 2 == 0,
                err == ellipse_diagonal(a as int, b as int, f),
                dx == ellipse_lean(b as int, f),
                dy == ellipse_rise(a as int, f),
                done + ellipse_aa_tips(xm as int, ym as int, a as int, b as int, f) == wanted,
                (*plot).model() == absorb::<P>(start, stroke(done, brush)),
            decreases b + 1 - (upper - lower),
        {
            let ghost before = done;
            proof {
                lemma_ellipse_aa_bounds(a as int, b as int, f);
                lemma_ellipse_aa_bounds(a as int, b as int, frame_taller(f));
                lemma_ellipse_increments(a as int, b as int, f);
                lemma_ellipse_aa_errors(a as int, b as int, f);
            }
            let e: i128 = err + dx;
            let size: i128 = if e < 0 { -e } else { e };
            let span: i128 = 2 * bb;
            let c = Coverage::ratio(span - size, span);
            let ghost g = Frame {
                left: left - 1,
                right: right + 1,
                lower: lower - 1,
                upper: upper + 1,
            };
            put_quad(
                plot,
                xm,
                ym,
                left - 1,
                right + 1,
                lower - 1,
                upper + 1,
                true,
                c,
                brush,
                Ghost(start),
                Ghost(done),
            );
            upper = upper + 1;
            lower = lower - 1;
            dy = dy + a8;
            err = err + dy;
            proof {
                done = done + quad_by_row(xm as int, ym as int, g, c);
                let f_old = f;
                f = frame_taller(f);
                assert(before + ellipse_aa_tips(xm as int, ym as int, a as int, b as int, f_old)
                    =~= done + ellipse_aa_tips(xm as int, ym as int, a as int, b as int, f));
            }
        }
    }
    proof {
        assert(ellipse_aa_tips(xm as int, ym as int, a as int, b as int, f)
            =~= Seq::<Emission>::empty());
        assert(done =~= wanted);
    }
}

} // verus!
