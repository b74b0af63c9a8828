//! Circle rasterisers.

use vstd::prelude::*;

use crate::plot::coverage::Coverage;
use crate::plot::{absorb, off_axis, put, put_off_axis, stroke, Brush, Emission, Plotter};

verus! {

/// The error of the lattice point `(x, y)` against the circle of radius `r`
/// round the origin: negative inside, zero on it, positive outside.
pub open spec fn circle_error(r: int, x: int, y: int) -> int {
    x * x + y * y - r * r
}

/// The point that follows `(x, y)` on the way from `(-r, 0)` up and round to
/// the top of the circle.
///
/// The choice goes by the error `d` of the diagonal neighbour: y grows when
/// `d <= y`; x grows when `d > x`, or when y grew and the diagonal neighbour
/// of the point then reached lies outside by more than its y.
pub open spec fn circle_next(r: int, x: int, y: int) -> (int, int) {
    let d = circle_error(r, x + 1, y + 1);
    let y1 = if d <= y {
        y + 1
    } else {
        y
    };
    let x1 = if d > x || circle_error(r, x + 1, y1 + 1) > y1 {
        x + 1
    } else {
        x
    };
    (x1, y1)
}

/// The four fully covered pixels that the point `(x, y)` of the arc stands
/// for, one in each quadrant round the centre `(xm, ym)`.
pub open spec fn circle_quad(xm: int, ym: int, x: int, y: int) -> Seq<Emission> {
    seq![
        Emission { x: xm - x, y: ym + y, coverage: Coverage::spec_full() },
        Emission { x: xm - y, y: ym - x, coverage: Coverage::spec_full() },
        Emission { x: xm + x, y: ym - y, coverage: Coverage::spec_full() },
        Emission { x: xm + y, y: ym + x, coverage: Coverage::spec_full() },
    ]
}

/// How far the diagonal neighbour of `(x, y)` lies inside the circle; zero
/// where it does not.
pub open spec fn circle_slack(r: int, x: int, y: int) -> int {
    if circle_error(r, x + 1, y + 1) < 0 {
        -circle_error(r, x + 1, y + 1)
    } else {
        0
    }
}

/// The pixels from the point `(x, y)` of the arc onwards: its four, then
/// those of the points that follow while x stays negative.
pub open spec fn circle_arc(xm: int, ym: int, r: int, x: int, y: int) -> Seq<Emission>
    decreases -x, circle_slack(r, x, y),
    when y >= 0
{
    let next = circle_next(r, x, y);
    if next.0 < 0 {
        proof {
            lemma_circle_error_up(r, x + 1, y + 1);
        }
        circle_quad(xm, ym, x, y) + circle_arc(xm, ym, r, next.0, next.1)
    } else {
        circle_quad(xm, ym, x, y)
    }
}

/// The path of the circle of the given radius round `(xm, ym)`.
pub open spec fn circle_emissions(xm: int, ym: int, radius: int) -> Seq<Emission> {
    circle_arc(xm, ym, radius, -radius, 0)
}

/// One step up, and one step right, change the error by an odd number.
pub proof fn lemma_circle_error_up(r: int, x: int, y: int)
    ensures
        circle_error(r, x, y + 1) == circle_error(r, x, y) + 2 * y + 1,
        circle_error(r, x + 1, y) == circle_error(r, x, y) + 2 * x + 1,
{
    assert((y + 1) * (y + 1) == y * y + 2 * y + 1) by (nonlinear_arith);
    assert((x + 1) * (x + 1) == x * x + 2 * x + 1) by (nonlinear_arith);
}

/// Whether a point of the arc is one that the rasteriser can stand on for
/// a radius of at least one: left of the centre, not below it, and off the
/// circle by no more than `r` in the error.
pub open spec fn circle_on_track(r: int, x: int, y: int) -> bool {
    &&& r >= 1
    &&& -r <= x < 0
    &&& 0 <= y <= r
    &&& -r < circle_error(r, x, y) <= r
}

/// Each step moves by one in x, in y or in both, and stays on track for as
/// long as x is negative.
pub proof fn lemma_circle_step(r: int, x: int, y: int)
    requires
        circle_on_track(r, x, y),
    ensures
        ({
            let next = circle_next(r, x, y);
            &&& next.0 == x || next.0 == x + 1
            &&& next.1 == y || next.1 == y + 1
            &&& next != (x, y)
            &&& next.1 <= r
            &&& next.0 < 0 ==> circle_on_track(r, next.0, next.1)
        }),
{
    let e = circle_error(r, x, y);
    let d = circle_error(r, x + 1, y + 1);
    lemma_circle_error_up(r, x, y);
    lemma_circle_error_up(r, x, y + 1);
    lemma_circle_error_up(r, x + 1, y);
    lemma_circle_error_up(r, x + 1, y + 1);
    assert(d == e + 2 * x + 2 * y + 2);
    let next = circle_next(r, x, y);
    // y cannot grow beyond r
    if d <= y {
        assert(y < r) by (nonlinear_arith)
            requires
                (x + 1) * (x + 1) + (y + 1) * (y + 1) - r * r <= y,
                0 <= y,
                r >= 1,
        ;
    }
    if next.0 < 0 {
        let e1 = circle_error(r, next.0, next.1);
        if next.1 >= r {
            assert(e1 >= 0) by (nonlinear_arith)
                requires
                    e1 == next.0 * next.0 + next.1 * next.1 - r * r,
                    next.1 >= r,
                    r >= 1,
            ;
        }
    }
}

/// Whether the pixel lies on the circle of radius `r` round `(xm, ym)` as
/// well as a pixel can: its distance from the centre, rounded to the nearest
/// integer, is `r`.  For integers that is `r * r - r < d2 <= r * r + r`,
/// where `d2` is the squared distance.
pub open spec fn rounds_to_radius(xm: int, ym: int, r: int, e: Emission) -> bool {
    let dx = e.x - xm;
    let dy = e.y - ym;
    r * r - r < dx * dx + dy * dy <= r * r + r
}

/// From a point on track onwards, the arc has four pixels for each of its
/// points, all fully covered and all at the rounded distance `r` from the
/// centre.
pub proof fn lemma_circle_arc(xm: int, ym: int, r: int, x: int, y: int)
    requires
        circle_on_track(r, x, y),
    ensures
        circle_arc(xm, ym, r, x, y).len() >= 4,
        circle_arc(xm, ym, r, x, y).len() % 4 == 0,
        forall|i: int|
            0 <= i < circle_arc(xm, ym, r, x, y).len() ==> {
                &&& rounds_to_radius(xm, ym, r, #[trigger] circle_arc(xm, ym, r, x, y)[i])
                &&& circle_arc(xm, ym, r, x, y)[i].coverage == Coverage::spec_full()
            },
    decreases -x, circle_slack(r, x, y),
{
    let next = circle_next(r, x, y);
    let quad = circle_quad(xm, ym, x, y);
    lemma_circle_step(r, x, y);
    lemma_circle_error_up(r, x + 1, y + 1);
    assert forall|i: int| 0 <= i < 4 implies rounds_to_radius(xm, ym, r, #[trigger] quad[i]) by {
        assert((-x) * (-x) == x * x) by (nonlinear_arith);
        assert((-y) * (-y) == y * y) by (nonlinear_arith);
    }
    if next.0 < 0 {
        lemma_circle_arc(xm, ym, r, next.0, next.1);
        let rest = circle_arc(xm, ym, r, next.0, next.1);
        assert(circle_arc(xm, ym, r, x, y) == quad + rest);
        assert forall|i: int| 0 <= i < (quad + rest).len() implies {
            &&& rounds_to_radius(xm, ym, r, #[trigger] (quad + rest)[i])
            &&& (quad + rest)[i].coverage == Coverage::spec_full()
        } by {
            if i < 4 {
                assert((quad + rest)[i] == quad[i]);
            } else {
                assert((quad + rest)[i] == rest[i - 4]);
            }
        }
    } else {
        assert(circle_arc(xm, ym, r, x, y) == quad);
    }
}

/// The outline of a circle of radius at least one: the number of pixels is a
/// positive multiple of four, each is fully covered, and each lies at the
/// rounded distance `radius` from the centre.
pub proof fn lemma_circle_emissions(xm: int, ym: int, radius: int)
    requires
        radius >= 1,
    ensures
        circle_emissions(xm, ym, radius).len() >= 4,
        circle_emissions(xm, ym, radius).len() % 4 == 0,
        forall|i: int|
            0 <= i < circle_emissions(xm, ym, radius).len() ==> {
                &&& rounds_to_radius(xm, ym, radius, #[trigger] circle_emissions(xm, ym, radius)[i])
                &&& circle_emissions(xm, ym, radius)[i].coverage == Coverage::spec_full()
            },
{
    assert(circle_error(radius, -radius, 0) == 0) by (nonlinear_arith);
    lemma_circle_arc(xm, ym, radius, -radius, 0);
}

/// Draws the outline of the circle of the given radius round `(xm, ym)` by
/// the midpoint method: an integer error decides each step of an arc from the
/// leftmost point to the top, and each point of the arc is mirrored into the
/// four quadrants.
///
/// A radius below one gives the four pixels at that distance on the axes (for
/// zero the centre four times).
#[verifier::rlimit(50)]
pub fn draw_circle<P: Plotter>(xm: i64, ym: i64, radius: i64, plot: &mut P, brush: Brush)
    requires
        (*old(plot)).inv(),
        brush.fits(xm - radius, ym - radius),
        brush.fits(xm + radius, ym + radius),
    ensures
        (*final(plot)).inv(),
        (*final(plot)).size() == (*old(plot)).size(),
        (*final(plot)).model() == absorb::<P>(
            (*old(plot)).model(),
            stroke(circle_emissions(xm as int, ym as int, radius as int), brush),
        ),
{
    let r: i128 = radius as i128;
    let cx: i128 = xm as i128;
    let cy: i128 = ym as i128;
    let mut x: i128 = -r;
    let mut y: i128 = 0;
    let mut err: i128 = 2 - 2 * r;
    let ghost start = (*plot).model();
    let ghost wanted = circle_emissions(xm as int, ym as int, radius as int);
    let ghost mut done: Seq<Emission> = Seq::empty();
    proof {
        assert(circle_error(r as int, -r + 1, 1) == 2 - 2 * r) by (nonlinear_arith);
        assert(circle_error(r as int, -r as int, 0) == 0) by (nonlinear_arith);
        assert(done + circle_arc(xm as int, ym as int, r as int, x as int, y as int) =~= wanted);
    }
    loop
        invariant_except_break
            done + circle_arc(xm as int, ym as int, r as int, x as int, y as int) == wanted,
            (r < 1 && x == -r && y == 0) || circle_on_track(r as int, x as int, y as int),
            err == circle_error(r as int, x + 1, y + 1),
            r < 1 ==> err == 2 - 2 * r,
        invariant
            (*plot).inv(),
            (*plot).size() == (*old(plot)).size(),
            r == radius,
            cx == xm,
            cy == ym,
            brush.fits(xm - radius, ym - radius),
            brush.fits(xm + radius, ym + radius),
            wanted == circle_emissions(xm as int, ym as int, radius as int),
            (*plot).model() == absorb::<P>(start, stroke(done, brush)),
        ensures
            done == wanted,
        decreases -x, circle_slack(r as int, x as int, y as int),
    {
        let ghost quad = circle_quad(xm as int, ym as int, x as int, y as int);
        let ghost before = done;
        put(plot, (cx - x) as i64, (cy + y) as i64, Coverage::full(), brush, Ghost(start), Ghost(done));
        proof {
            done = done.push(quad[0]);
        }
        put(plot, (cx - y) as i64, (cy - x) as i64, Coverage::full(), brush, Ghost(start), Ghost(done));
        proof {
            done = done.push(quad[1]);
        }
        put(plot, (cx + x) as i64, (cy - y) as i64, Coverage::full(), brush, Ghost(start), Ghost(done));
        proof {
            done = done.push(quad[2]);
        }
        put(plot, (cx + y) as i64, (cy + x) as i64, Coverage::full(), brush, Ghost(start), Ghost(done));
        proof {
            done = done.push(quad[3]);
            assert(done =~= before + quad);
            lemma_circle_error_up(r as int, x + 1, y + 1);
            lemma_circle_error_up(r as int, x + 1, y + 2);
            lemma_circle_error_up(r as int, x + 1, y as int);
            if r >= 1 {
                lemma_circle_step(r as int, x as int, y as int);
                lemma_circle_error_up(r as int, x as int, y as int);
                lemma_circle_error_up(r as int, x as int, y + 1);
                assert(err == circle_error(r as int, x as int, y as int) + 2 * x + 2 * y + 2);
            }
        }
        let ghost x_old = x;
        let ghost y_old = y;
        let d: i128 = err;
        if d <= y {
            y = y + 1;
            err = err + (y * 2 + 1);
        }
        if d > x || err > y {
            x = x + 1;
            err = err + (x * 2 + 1);
        }
        proof {
            assert((x as int, y as int) == circle_next(r as int, x_old as int, y_old as int));
            lemma_circle_error_up(r as int, x as int, y + 1);
            assert(before + quad + circle_arc(xm as int, ym as int, r as int, x as int, y as int)
                =~= before + (quad + circle_arc(xm as int, ym as int, r as int, x as int, y as int)));
        }
        if x >= 0 {
            break ;
        }
    }
}

/// The four mirror images of the point `(x, y)` round `(xm, ym)`, each with
/// the coverage `alpha`, without those that lie on an axis through the
/// centre.
pub open spec fn mirrored_quad(xm: int, ym: int, x: int, y: int, alpha: Coverage) -> Seq<
    Emission,
> {
    off_axis(xm, ym, Emission { x: xm + x, y: ym - y, coverage: alpha }) + off_axis(
        xm,
        ym,
        Emission { x: xm + y, y: ym + x, coverage: alpha },
    ) + off_axis(xm, ym, Emission { x: xm - x, y: ym + y, coverage: alpha }) + off_axis(
        xm,
        ym,
        Emission { x: xm - y, y: ym - x, coverage: alpha },
    )
}

/// The coverage `1 - deficit / span`.
pub open spec fn shortfall(deficit: int, span: int) -> Coverage {
    Coverage::spec_ratio(span - deficit, span)
}

/// The span over which the coverage of the antialiased circle falls from one
/// to zero, in units of the error: `2 * r - 1`.
pub open spec fn circle_aa_span(r: int) -> int {
    2 * r - 1
}

/// The point that follows `(x, y)` on the antialiased arc, which runs from
/// `(r, 0)` down and round to `(0, -r)`.  With `d` the error of the diagonal
/// neighbour `(x - 1, y - 1)`: x shrinks when `d > y`, y shrinks when
/// `d <= x`.
pub open spec fn circle_aa_next(r: int, x: int, y: int) -> (int, int) {
    let d = circle_error(r, x - 1, y - 1);
    (
        if d > y {
            x - 1
        } else {
            x
        },
        if d <= x {
            y - 1
        } else {
            y
        },
    )
}

/// What the antialiased arc emits at the point `(x, y)`.
///
/// First the point itself, covered the more the nearer it lies to the circle:
/// `1 - |e| / span`, where `e` is its error.  Then, where x is not yet zero:
/// before a step in x the neighbour beyond the point in y, with
/// `1 - e / span` for its own error `e`; before a step in y the neighbour
/// inside the point in x, with `1 + e / span`.  A neighbour is left out where
/// that coverage is not above zero.  Each is mirrored into the four
/// quadrants, the axes excepted.
#[verifier::opaque]
pub open spec fn circle_aa_at(xm: int, ym: int, r: int, x: int, y: int) -> Seq<Emission> {
    let span = circle_aa_span(r);
    let d = circle_error(r, x - 1, y - 1);
    let own = circle_error(r, x, y);
    let outer = circle_error(r, x, y - 1);
    let inner = -circle_error(r, x - 1, y);
    mirrored_quad(xm, ym, x, y, shortfall(if own < 0 { -own } else { own }, span)) + (if x != 0
        && d > y && outer < span {
        mirrored_quad(xm, ym, x, y - 1, shortfall(outer, span))
    } else {
        Seq::empty()
    }) + (if x != 0 && d <= x && inner < span {
        mirrored_quad(xm, ym, x - 1, y, shortfall(inner, span))
    } else {
        Seq::empty()
    })
}

/// What is left to decide before the antialiased arc must step in x.
pub open spec fn circle_aa_slack(r: int, x: int, y: int) -> int {
    if circle_error(r, x - 1, y - 1) <= y {
        1 - circle_error(r, x - 1, y - 1)
    } else {
        0
    }
}

/// The pixels of the antialiased arc from the point `(x, y)` onwards, down to
/// the point where x is zero.
pub open spec fn circle_aa_arc(xm: int, ym: int, r: int, x: int, y: int) -> Seq<Emission>
    decreases x, circle_aa_slack(r, x, y),
    when x >= 0 && y <= 0
{
    if x == 0 {
        circle_aa_at(xm, ym, r, x, y)
    } else {
        let next = circle_aa_next(r, x, y);
        proof {
            lemma_circle_error_down(r, x - 1, y - 1);
        }
        circle_aa_at(xm, ym, r, x, y) + circle_aa_arc(xm, ym, r, next.0, next.1)
    }
}

/// How far the antialiased circle reaches from its centre: the radius, and
/// one pixel where the radius is zero.
pub open spec fn circle_aa_reach(radius: int) -> int {
    if radius >= 1 {
        radius
    } else {
        1
    }
}

/// The four fully covered pixels where the circle crosses the axes through
/// its centre.
pub open spec fn circle_aa_poles(xm: int, ym: int, radius: int) -> Seq<Emission> {
    let c = circle_aa_reach(radius);
    seq![
        Emission { x: xm, y: ym + c, coverage: Coverage::spec_full() },
        Emission { x: xm, y: ym - c, coverage: Coverage::spec_full() },
        Emission { x: xm + c, y: ym, coverage: Coverage::spec_full() },
        Emission { x: xm - c, y: ym, coverage: Coverage::spec_full() },
    ]
}

/// The path of the antialiased circle: the four poles, then the arc.
pub open spec fn circle_aa_emissions(xm: int, ym: int, radius: int) -> Seq<Emission> {
    circle_aa_poles(xm, ym, radius) + circle_aa_arc(xm, ym, radius, radius, 0)
}

/// One step down, and one step left, change the error by an odd number.
pub proof fn lemma_circle_error_down(r: int, x: int, y: int)
    ensures
        circle_error(r, x, y - 1) == circle_error(r, x, y) - 2 * y + 1,
        circle_error(r, x - 1, y) == circle_error(r, x, y) - 2 * x + 1,
{
    assert((y - 1) * (y - 1) == y * y - 2 * y + 1) by (nonlinear_arith);
    assert((x - 1) * (x - 1) == x * x - 2 * x + 1) by (nonlinear_arith);
}

/// Whether a point is one that the antialiased arc can stand on: right of
/// the centre or on it, not above it, and near the circle.  Its error is
/// within the span, its lower neighbour does not lie inside the circle, and
/// while x is not zero its left neighbour does not lie outside.
pub open spec fn circle_aa_on_track(r: int, x: int, y: int) -> bool {
    &&& r >= 1
    &&& 0 <= x <= r
    &&& -r <= y <= 0
    &&& -circle_aa_span(r) <= circle_error(r, x, y) <= circle_aa_span(r)
    &&& circle_error(r, x, y - 1) >= 0
    &&& x >= 1 ==> circle_error(r, x - 1, y) <= 0
}

/// The point that the antialiased arc starts on is on track.
pub proof fn lemma_circle_aa_first(r: int)
    requires
        r >= 1,
    ensures
        circle_aa_on_track(r, r, 0),
        circle_error(r, r, 0) == 0,
        circle_error(r, r - 1, -1) == 2 - 2 * r,
{
    assert(circle_error(r, r, 0) == 0) by (nonlinear_arith);
    assert(circle_error(r, r - 1, -1) == 2 - 2 * r) by (nonlinear_arith);
    lemma_circle_error_down(r, r, 0);
}

/// Each step of the antialiased arc moves by one in x, in y or in both, and
/// stays on track.
pub proof fn lemma_circle_aa_step(r: int, x: int, y: int)
    requires
        circle_aa_on_track(r, x, y),
        x >= 1,
    ensures
        ({
            let next = circle_aa_next(r, x, y);
            &&& next.0 == x || next.0 == x - 1
            &&& next.1 == y || next.1 == y - 1
            &&& next != (x, y)
            &&& circle_aa_on_track(r, next.0, next.1)
        }),
{
    let d = circle_error(r, x - 1, y - 1);
    let next = circle_aa_next(r, x, y);
    lemma_circle_error_down(r, x, y);
    lemma_circle_error_down(r, x, y - 1);
    lemma_circle_error_down(r, x - 1, y);
    lemma_circle_error_down(r, x - 1, y - 1);
    lemma_circle_error_down(r, x - 2, y);
    lemma_circle_error_down(r, x - 2, y - 1);
    lemma_circle_error_down(r, x, y - 2);
    lemma_circle_error_down(r, x - 1, y - 2);
    if d <= x {
        assert(y - 1 >= -r) by (nonlinear_arith)
            requires
                (x - 1) * (x - 1) + (y - 1) * (y - 1) - r * r <= x,
                y <= 0,
                x >= 1,
                r >= 1,
        ;
    }
    if x == 2 {
        // no square exceeds another by one: the diagonal neighbour of a
        // point with x == 2 is not off the circle by exactly two
        let t = 1 - y;
        assert(t * t == (y - 1) * (y - 1)) by (nonlinear_arith)
            requires
                t == 1 - y,
        ;
        if t <= r {
            assert(t * t <= r * r) by (nonlinear_arith)
                requires
                    1 <= t <= r,
            ;
        } else {
            assert(t * t >= r * r + 2 * r + 1) by (nonlinear_arith)
                requires
                    t >= r + 1,
                    r >= 1,
            ;
        }
        assert(d != 2);
    }
}

/// Whether a pixel of the antialiased circle is as it should be: off the
/// axes through the centre, within the radius of it along both, and covered
/// by a well-formed fraction between zero and one.
pub open spec fn shaded(xm: int, ym: int, r: int, e: Emission) -> bool {
    &&& e.x != xm
    &&& e.y != ym
    &&& xm - r <= e.x <= xm + r
    &&& ym - r <= e.y <= ym + r
    &&& e.coverage.wf()
    &&& 0 <= e.coverage.fraction.numer() <= e.coverage.fraction.denom()
}

/// Whether every pixel of a sequence is shaded.
pub open spec fn all_shaded(xm: int, ym: int, r: int, s: Seq<Emission>) -> bool {
    forall|i: int| 0 <= i < s.len() ==> shaded(xm, ym, r, #[trigger] s[i])
}

/// Two sequences of shaded pixels make one.
pub proof fn lemma_all_shaded_concat(xm: int, ym: int, r: int, a: Seq<Emission>, b: Seq<Emission>)
    requires
        all_shaded(xm, ym, r, a),
        all_shaded(xm, ym, r, b),
    ensures
        all_shaded(xm, ym, r, a + b),
{
    assert forall|i: int| 0 <= i < (a + b).len() implies shaded(xm, ym, r, #[trigger] (a + b)[i]) by {
        if i < a.len() {
            assert((a + b)[i] == a[i]);
        } else {
            assert((a + b)[i] == b[i - a.len()]);
        }
    }
}

/// The mirror images of a point within the radius, with a deficit between
/// nothing and the span, are shaded.
pub proof fn lemma_mirrored_quad_shaded(xm: int, ym: int, r: int, x: int, y: int, deficit: int)
    requires
        r >= 1,
        -r <= x <= r,
        -r <= y <= r,
        0 <= deficit <= circle_aa_span(r) <= i128::MAX,
    ensures
        all_shaded(
            xm,
            ym,
            r,
            mirrored_quad(xm, ym, x, y, shortfall(deficit, circle_aa_span(r))),
        ),
{
    let alpha = shortfall(deficit, circle_aa_span(r));
    let a = off_axis(xm, ym, Emission { x: xm + x, y: ym - y, coverage: alpha });
    let b = off_axis(xm, ym, Emission { x: xm + y, y: ym + x, coverage: alpha });
    let c = off_axis(xm, ym, Emission { x: xm - x, y: ym + y, coverage: alpha });
    let d = off_axis(xm, ym, Emission { x: xm - y, y: ym - x, coverage: alpha });
    assert(all_shaded(xm, ym, r, a));
    assert(all_shaded(xm, ym, r, b));
    assert(all_shaded(xm, ym, r, c));
    assert(all_shaded(xm, ym, r, d));
    lemma_all_shaded_concat(xm, ym, r, a, b);
    lemma_all_shaded_concat(xm, ym, r, a + b, c);
    lemma_all_shaded_concat(xm, ym, r, a + b + c, d);
}

/// What the antialiased arc emits at a point on track is shaded.
pub proof fn lemma_circle_aa_at_shaded(xm: int, ym: int, r: int, x: int, y: int)
    requires
        circle_aa_on_track(r, x, y),
        r <= i64::MAX,
    ensures
        all_shaded(xm, ym, r, circle_aa_at(xm, ym, r, x, y)),
{
    reveal(circle_aa_at);
    let span = circle_aa_span(r);
    let d = circle_error(r, x - 1, y - 1);
    let own = circle_error(r, x, y);
    let outer = circle_error(r, x, y - 1);
    let inner = -circle_error(r, x - 1, y);
    let size = if own < 0 { -own } else { own };
    let main = mirrored_quad(xm, ym, x, y, shortfall(size, span));
    let side_a = if x != 0 && d > y && outer < span {
        mirrored_quad(xm, ym, x, y - 1, shortfall(outer, span))
    } else {
        Seq::empty()
    };
    let side_b = if x != 0 && d <= x && inner < span {
        mirrored_quad(xm, ym, x - 1, y, shortfall(inner, span))
    } else {
        Seq::empty()
    };
    lemma_circle_error_down(r, x, y);
    lemma_circle_error_down(r, x, y - 1);
    lemma_circle_error_down(r, x - 1, y);
    lemma_mirrored_quad_shaded(xm, ym, r, x, y, size);
    if x != 0 && d > y && outer < span {
        assert(y - 1 >= -r) by (nonlinear_arith)
            requires
                x * x + (y - 1) * (y - 1) - r * r < 2 * r - 1,
                y >= -r,
                r >= 1,
        ;
        lemma_mirrored_quad_shaded(xm, ym, r, x, y - 1, outer);
    }
    if x != 0 && d <= x && inner < span {
        lemma_mirrored_quad_shaded(xm, ym, r, x - 1, y, inner);
    }
    lemma_all_shaded_concat(xm, ym, r, main, side_a);
    lemma_all_shaded_concat(xm, ym, r, main + side_a, side_b);
}

/// From a point on track onwards, every pixel of the antialiased arc is
/// shaded.
pub proof fn lemma_circle_aa_arc_shaded(xm: int, ym: int, r: int, x: int, y: int)
    requires
        circle_aa_on_track(r, x, y),
        r <= i64::MAX,
    ensures
        all_shaded(xm, ym, r, circle_aa_arc(xm, ym, r, x, y)),
    decreases x, circle_aa_slack(r, x, y),
{
    lemma_circle_aa_at_shaded(xm, ym, r, x, y);
    if x != 0 {
        let next = circle_aa_next(r, x, y);
        lemma_circle_aa_step(r, x, y);
        lemma_circle_error_down(r, x - 1, y - 1);
        lemma_circle_aa_arc_shaded(xm, ym, r, next.0, next.1);
        lemma_all_shaded_concat(
            xm,
            ym,
            r,
            circle_aa_at(xm, ym, r, x, y),
            circle_aa_arc(xm, ym, r, next.0, next.1),
        );
    }
}

/// The antialiased outline of a circle of radius at least one: after the
/// four fully covered poles, every pixel lies off the axes, within the radius
/// of the centre along both, and is covered by a well-formed fraction between
/// zero and one.
pub proof fn lemma_circle_aa_emissions(xm: int, ym: int, radius: int)
    requires
        1 <= radius <= i64::MAX,
    ensures
        circle_aa_emissions(xm, ym, radius).len() >= 4,
        circle_aa_emissions(xm, ym, radius).subrange(0, 4) == circle_aa_poles(xm, ym, radius),
        forall|i: int|
            4 <= i < circle_aa_emissions(xm, ym, radius).len() ==> shaded(
                xm,
                ym,
                radius,
                #[trigger] circle_aa_emissions(xm, ym, radius)[i],
            ),
{
    let poles = circle_aa_poles(xm, ym, radius);
    let arc = circle_aa_arc(xm, ym, radius, radius, 0);
    lemma_circle_aa_first(radius);
    lemma_circle_aa_arc_shaded(xm, ym, radius, radius, 0);
    assert((poles + arc).subrange(0, 4) =~= poles);
    assert forall|i: int| 4 <= i < (poles + arc).len() implies shaded(
        xm,
        ym,
        radius,
        #[trigger] (poles + arc)[i],
    ) by {
        assert((poles + arc)[i] == arc[i - 4]);
    }
}

/// Puts the brush on the mirror images of the point `(x, y)`.
#[verifier::rlimit(50)]
fn put_mirrored_quad<P: Plotter>(
    plot: &mut P,
    xm: i64,
    ym: i64,
    x: i128,
    y: i128,
    alpha: Coverage,
    brush: Brush,
    Ghost(reach): Ghost<int>,
    Ghost(start): Ghost<P::Model>,
    Ghost(done): Ghost<Seq<Emission>>,
)
    requires
        (*old(plot)).inv(),
        alpha.wf(),
        -reach <= x <= reach,
        -reach <= y <= reach,
        brush.fits(xm - reach, ym - reach),
        brush.fits(xm + reach, ym + reach),
        (*old(plot)).model() == absorb::<P>(start, stroke(done, brush)),
    ensures
        (*final(plot)).inv(),
        (*final(plot)).size() == (*old(plot)).size(),
        (*final(plot)).model() == absorb::<P>(
            start,
            stroke(done + mirrored_quad(xm as int, ym as int, x as int, y as int, alpha), brush),
        ),
{
    let cx: i128 = xm as i128;
    let cy: i128 = ym as i128;
    let ghost a = off_axis(
        xm as int,
        ym as int,
        Emission { x: xm + x, y: ym - y, coverage: alpha },
    );
    let ghost b = off_axis(
        xm as int,
        ym as int,
        Emission { x: xm + y, y: ym + x, coverage: alpha },
    );
    let ghost c = off_axis(
        xm as int,
        ym as int,
        Emission { x: xm - x, y: ym + y, coverage: alpha },
    );
    let ghost d = off_axis(
        xm as int,
        ym as int,
        Emission { x: xm - y, y: ym - x, coverage: alpha },
    );
    put_off_axis(plot, xm, ym, (cx + x) as i64, (cy - y) as i64, alpha, brush, Ghost(start), Ghost(done));
    put_off_axis(plot, xm, ym, (cx + y) as i64, (cy + x) as i64, alpha, brush, Ghost(start), Ghost(done + a));
    put_off_axis(plot, xm, ym, (cx - x) as i64, (cy + y) as i64, alpha, brush, Ghost(start), Ghost(done + a + b));
    put_off_axis(plot, xm, ym, (cx - y) as i64, (cy - x) as i64, alpha, brush, Ghost(start), Ghost(done + a + b + c));
    assert(done + a + b + c + d =~= done + (a + b + c + d));
}

/// Puts the brush on the mirror images of a neighbour of the arc, unless its
/// coverage `1 - deficit / span` is not above zero.
fn put_neighbour<P: Plotter>(
    plot: &mut P,
    xm: i64,
    ym: i64,
    x: i128,
    y: i128,
    deficit: i128,
    span: i128,
    brush: Brush,
    Ghost(reach): Ghost<int>,
    Ghost(start): Ghost<P::Model>,
    Ghost(done): Ghost<Seq<Emission>>,
)
    requires
        (*old(plot)).inv(),
        0 < span < 0x1_0000_0000_0000_0000,
        -4 * span - 8 <= deficit,
        deficit < span ==> -reach <= x <= reach && -reach <= y <= reach,
        brush.fits(xm - reach, ym - reach),
        brush.fits(xm + reach, ym + reach),
        (*old(plot)).model() == absorb::<P>(start, stroke(done, brush)),
    ensures
        (*final(plot)).inv(),
        (*final(plot)).size() == (*old(plot)).size(),
        (*final(plot)).model() == absorb::<P>(
            start,
            stroke(
                done + (if deficit < span {
                    mirrored_quad(
                        xm as int,
                        ym as int,
                        x as int,
                        y as int,
                        shortfall(deficit as int, span as int),
                    )
                } else {
                    Seq::empty()
                }),
                brush,
            ),
        ),
{
    if deficit < span {
        put_mirrored_quad(
            plot,
            xm,
            ym,
            x,
            y,
            Coverage::ratio(span - deficit, span),
            brush,
            Ghost(reach),
            Ghost(start),
            Ghost(done),
        );
    } else {
        assert(done + Seq::<Emission>::empty() =~= done);
    }
}

/// Emits what the antialiased arc has at the point `(x, y)`.
#[verifier::rlimit(50)]
fn put_circle_aa_at<P: Plotter>(
    plot: &mut P,
    xm: i64,
    ym: i64,
    r: i128,
    x: i128,
    y: i128,
    err: i128,
    brush: Brush,
    Ghost(start): Ghost<P::Model>,
    Ghost(done): Ghost<Seq<Emission>>,
)
    requires
        (*old(plot)).inv(),
        r <= i64::MAX,
        circle_aa_on_track(r as int, x as int, y as int),
        err == circle_error(r as int, x - 1, y - 1),
        brush.fits(xm - r, ym - r),
        brush.fits(xm + r, ym + r),
        (*old(plot)).model() == absorb::<P>(start, stroke(done, brush)),
    ensures
        (*final(plot)).inv(),
        (*final(plot)).size() == (*old(plot)).size(),
        (*final(plot)).model() == absorb::<P>(
            start,
            stroke(done + circle_aa_at(xm as int, ym as int, r as int, x as int, y as int), brush),
        ),
{
    let span: i128 = 2 * r - 1;
    proof {
        lemma_circle_error_down(r as int, x as int, y as int);
        lemma_circle_error_down(r as int, x as int, y - 1);
        lemma_circle_error_down(r as int, x - 1, y as int);
        assert(err == circle_error(r as int, x as int, y as int) - 2 * x - 2 * y + 2);
    }
    let own: i128 = err + 2 * (x + y) - 2;
    let mag: i128 = if own < 0 { -own } else { own };
    let outer: i128 = err + 2 * x - 1;
    let inner: i128 = 1 - 2 * y - err;
    let ghost main = mirrored_quad(
        xm as int,
        ym as int,
        x as int,
        y as int,
        shortfall(mag as int, span as int),
    );
    let ghost side_a = if x != 0 && err > y && outer < span {
        mirrored_quad(xm as int, ym as int, x as int, y - 1, shortfall(outer as int, span as int))
    } else {
        Seq::empty()
    };
    let ghost side_b = if x != 0 && err <= x && inner < span {
        mirrored_quad(xm as int, ym as int, x - 1, y as int, shortfall(inner as int, span as int))
    } else {
        Seq::empty()
    };
    assert(circle_aa_at(xm as int, ym as int, r as int, x as int, y as int) == main + side_a
        + side_b) by {
        reveal(circle_aa_at);
    }
    put_mirrored_quad(
        plot,
        xm,
        ym,
        x,
        y,
        Coverage::ratio(span - mag, span),
        brush,
        Ghost(r as int),
        Ghost(start),
        Ghost(done),
    );
    if x != 0 && err > y {
        proof {
            if outer < span {
                assert(y - 1 >= -r) by (nonlinear_arith)
                    requires
                        x * x + (y - 1) * (y - 1) - r * r < 2 * r - 1,
                        y >= -r,
                        r >= 1,
                ;
            }
        }
        put_neighbour(
            plot,
            xm,
            ym,
            x,
            y - 1,
            outer,
            span,
            brush,
            Ghost(r as int),
            Ghost(start),
            Ghost(done + main),
        );
    } else {
        assert(done + main + side_a =~= done + main);
    }
    if x != 0 && err <= x {
        put_neighbour(
            plot,
            xm,
            ym,
            x - 1,
            y,
            inner,
            span,
            brush,
            Ghost(r as int),
            Ghost(start),
            Ghost(done + main + side_a),
        );
    } else {
        assert(done + main + side_a + side_b =~= done + main + side_a);
    }
    assert(done + main + side_a + side_b =~= done + (main + side_a + side_b));
}

/// Draws the antialiased outline of the circle of the given radius round
/// `(xm, ym)`.
///
/// The four pixels where the circle crosses the axes through its centre come
/// first, fully covered.  Then the arc from `(radius, 0)` down to
/// `(0, -radius)` is walked by the midpoint method; each of its points, and on
/// each side the neighbour that the circle still touches, is put into all four
/// quadrants with a coverage that falls linearly with the magnitude of its
/// error, from one on the circle to zero at `2 * radius - 1`.  Pixels on the
/// axes are left to the first four.
#[verifier::rlimit(50)]
pub fn draw_circle_aa<P: Plotter>(xm: i64, ym: i64, radius: i64, plot: &mut P, brush: Brush)
    requires
        (*old(plot)).inv(),
        radius >= 0,
        brush.fits(xm - circle_aa_reach(radius as int), ym - circle_aa_reach(radius as int)),
        brush.fits(xm + circle_aa_reach(radius as int), ym + circle_aa_reach(radius as int)),
    ensures
        (*final(plot)).inv(),
        (*final(plot)).size() == (*old(plot)).size(),
        (*final(plot)).model() == absorb::<P>(
            (*old(plot)).model(),
            stroke(circle_aa_emissions(xm as int, ym as int, radius as int), brush),
        ),
{
    let r: i128 = radius as i128;
    let cx: i128 = xm as i128;
    let cy: i128 = ym as i128;
    let c: i128 = if r >= 1 { r } else { 1 };
    let ghost start = (*plot).model();
    let ghost poles = circle_aa_poles(xm as int, ym as int, radius as int);
    let ghost wanted = circle_aa_emissions(xm as int, ym as int, radius as int);
    let ghost mut done: Seq<Emission> = Seq::empty();
    proof {
        crate::plot::lemma_stroke_nothing::<P>(start, brush);
    }
    put(plot, xm, (cy + c) as i64, Coverage::full(), brush, Ghost(start), Ghost(done));
    proof {
        done = done.push(poles[0]);
    }
    put(plot, xm, (cy - c) as i64, Coverage::full(), brush, Ghost(start), Ghost(done));
    proof {
        done = done.push(poles[1]);
    }
    put(plot, (cx + c) as i64, ym, Coverage::full(), brush, Ghost(start), Ghost(done));
    proof {
        done = done.push(poles[2]);
    }
    put(plot, (cx - c) as i64, ym, Coverage::full(), brush, Ghost(start), Ghost(done));
    proof {
        done = done.push(poles[3]);
        assert(done =~= poles);
    }
    if r == 0 {
        proof {
            assert(circle_aa_arc(xm as int, ym as int, 0, 0, 0) =~= Seq::<Emission>::empty()) by {
                reveal(circle_aa_at);
            }
            assert(done =~= wanted);
        }
        return ;
    }
    let mut x: i128 = r;
    let mut y: i128 = 0;
    let mut err: i128 = 2 - 2 * r;
    proof {
        lemma_circle_aa_first(r as int);
    }
    loop
        invariant_except_break
            done + circle_aa_arc(xm as int, ym as int, r as int, x as int, y as int) == wanted,
        invariant
            (*plot).inv(),
            (*plot).size() == (*old(plot)).size(),
            r == radius,
            r >= 1,
            brush.fits(xm - r, ym - r),
            brush.fits(xm + r, ym + r),
            circle_aa_on_track(r as int, x as int, y as int),
            err == circle_error(r as int, x - 1, y - 1),
            wanted == circle_aa_emissions(xm as int, ym as int, radius as int),
            (*plot).model() == absorb::<P>(start, stroke(done, brush)),
        ensures
            done == wanted,
        decreases x, circle_aa_slack(r as int, x as int, y as int),
    {
        let ghost before = done;
        let ghost at = circle_aa_at(xm as int, ym as int, r as int, x as int, y as int);
        let ghost x_old = x;
        let ghost y_old = y;
        put_circle_aa_at(plot, xm, ym, r, x, y, err, brush, Ghost(start), Ghost(done));
        proof {
            done = done + at;
        }
        if x == 0 {
            break ;
        }
        proof {
            lemma_circle_aa_step(r as int, x as int, y as int);
            lemma_circle_error_down(r as int, x as int, y as int);
            lemma_circle_error_down(r as int, x - 1, y - 1);
            lemma_circle_error_down(r as int, x - 2, y - 1);
            assert(err == circle_error(r as int, x as int, y as int) - 2 * x - 2 * y + 2);
        }
        let d: i128 = err;
        let x_was: i128 = x;
        if d > y {
            x = x - 1;
            err = err - (2 * x - 1);
        }
        if d <= x_was {
            y = y - 1;
            err = err - (2 * y - 1);
        }
        proof {
            assert((x as int, y as int) == circle_aa_next(r as int, x_old as int, y_old as int));
            assert(before + at + circle_aa_arc(xm as int, ym as int, r as int, x as int, y as int)
                =~= before + (at + circle_aa_arc(xm as int, ym as int, r as int, x as int, y as int)));
        }
    }
}

} // verus!