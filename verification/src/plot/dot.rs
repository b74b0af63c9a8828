//! The dot stamp: the square of pixels round a centre that makes a stroke
//! thick.

use vstd::prelude::*;

use crate::plot::coverage::Coverage;
use crate::plot::{absorb, Emission, Plotter};

verus! {

/// How far a dot of the given width reaches from its centre, in whole pixels:
/// the width, counted in 1/65536 of a pixel, rounded up.
pub open spec fn dot_reach(width: u32) -> int {
    (width + 65535) / 65536
}

/// The side of the square that a dot covers.
pub open spec fn dot_side(width: u32) -> int {
    2 * dot_reach(width) + 1
}

/// The `t`-th pixel of a dot, rows from bottom to top and each row from left
/// to right.  Its coverage is `alpha` under the falloff at its squared
/// distance from the centre.
pub open spec fn dot_emission(
    x: int,
    y: int,
    alpha: Coverage,
    width: u32,
    hardness: u32,
    t: int,
) -> Emission {
    let dx = t % dot_side(width) - dot_reach(width);
    let dy = t / dot_side(width) - dot_reach(width);
    Emission { x: x + dx, y: y + dy, coverage: alpha.spec_under(dx * dx + dy * dy, width, hardness) }
}

/// All pixels of a dot, in the order in which they are emitted.
pub open spec fn dot_emissions(x: int, y: int, alpha: Coverage, width: u32, hardness: u32) -> Seq<
    Emission,
> {
    Seq::new(
        (dot_side(width) * dot_side(width)) as nat,
        |t: int| dot_emission(x, y, alpha, width, hardness, t),
    )
}

/// A dot is the square of side `2 * reach + 1` round its centre: each of its
/// pixels lies within the reach of the centre along both axes, carries the
/// fraction of `alpha`, and is weakened by the falloff at its own squared
/// distance from the centre.
pub proof fn lemma_dot_emissions(x: int, y: int, alpha: Coverage, width: u32, hardness: u32)
    ensures
        dot_emissions(x, y, alpha, width, hardness).len() == dot_side(width) * dot_side(width),
        0 <= dot_reach(width) <= 65536,
        forall|t: int|
            0 <= t < dot_emissions(x, y, alpha, width, hardness).len() ==> {
                let e = #[trigger] dot_emissions(x, y, alpha, width, hardness)[t];
                let dx = e.x - x;
                let dy = e.y - y;
                &&& -dot_reach(width) <= dx <= dot_reach(width)
                &&& -dot_reach(width) <= dy <= dot_reach(width)
                &&& e.coverage.fraction == alpha.fraction
                &&& e.coverage.falloff == (crate::plot::coverage::Falloff::Gaussian {
                    dist_sq: (dx * dx + dy * dy) as u64,
                    width,
                    hardness,
                })
            },
{
    let side = dot_side(width);
    let reach = dot_reach(width);
    assert(side * side >= 0) by (nonlinear_arith);
    assert forall|t: int| 0 <= t < side * side implies {
        &&& 0 <= #[trigger] (t % side) < side
        &&& 0 <= t / side < side
    } by {
        vstd::arithmetic::div_mod::lemma_fundamental_div_mod(t, side);
        vstd::arithmetic::div_mod::lemma_mod_bound(t, side);
        let q = t / side;
        assert(0 <= q < side) by (nonlinear_arith)
            requires
                0 <= t < side * side,
                t == side * q + t % side,
                0 <= t % side < side,
                side >= 1,
        ;
    }
}

/// No brush reaches further than 65536 pixels.
pub proof fn lemma_dot_reach_bound(brush: crate::plot::Brush)
    ensures
        0 <= brush.reach() <= 65536,
{
}

/// The reach of a dot in whole pixels.
pub fn reach_of(width: u32) -> (r: i64)
    ensures
        r == dot_reach(width),
        0 <= r <= 65536,
{
    let w: u64 = width as u64;
    ((w + 65535) / 65536) as i64
}

/// Stamps a dot centred at `(x, y)`: every pixel of the square of side
/// `2 * reach + 1` round the centre goes to the sink, with `alpha` under the
/// falloff at that pixel's distance.
#[verifier::rlimit(50)]
pub fn plot_gaussian_dot<P: Plotter>(
    x: i64,
    y: i64,
    alpha: Coverage,
    width: u32,
    hardness: u32,
    plot: &mut P,
)
    requires
        (*old(plot)).inv(),
        alpha.wf(),
        i64::MIN <= x - dot_reach(width),
        x + dot_reach(width) <= i64::MAX,
        i64::MIN <= y - dot_reach(width),
        y + dot_reach(width) <= i64::MAX,
    ensures
        (*final(plot)).inv(),
        (*final(plot)).size() == (*old(plot)).size(),
        (*final(plot)).model() == absorb::<P>(
            (*old(plot)).model(),
            dot_emissions(x as int, y as int, alpha, width, hardness),
        ),
{
    let reach: i64 = reach_of(width);
    let side: i64 = 2 * reach + 1;
    let ghost wanted = dot_emissions(x as int, y as int, alpha, width, hardness);
    let ghost mut done: Seq<Emission> = Seq::empty();
    let mut dy: i64 = -reach;
    proof {
        assert((dy + reach) * side == 0) by (nonlinear_arith)
            requires
                dy + reach == 0,
        ;
        assert(0 <= side * side) by (nonlinear_arith);
        assert(done =~= wanted.subrange(0, 0));
    }
    while dy <= reach
        invariant
            (*plot).inv(),
            alpha.wf(),
            (*plot).size() == (*old(plot)).size(),
            reach == dot_reach(width),
            side == dot_side(width),
            0 <= reach <= 65536,
            -reach <= dy <= reach + 1,
            i64::MIN <= x - reach,
            x + reach <= i64::MAX,
            i64::MIN <= y - reach,
            y + reach <= i64::MAX,
            wanted == dot_emissions(x as int, y as int, alpha, width, hardness),
            done == wanted.subrange(0, (dy + reach) * side),
            (*plot).model() == absorb::<P>((*old(plot)).model(), done),
        decreases reach + 1 - dy,
    {
        assert((dy + reach) * side + side == (dy + 1 + reach) * side) by (nonlinear_arith);
        assert((dy + 1 + reach) * side <= side * side) by (nonlinear_arith)
            requires
                dy <= reach,
                side == 2 * reach + 1,
                0 <= reach,
        ;
        assert(0 <= (dy + reach) * side) by (nonlinear_arith)
            requires
                -reach <= dy,
                side == 2 * reach + 1,
                0 <= reach,
        ;
        let mut dx: i64 = -reach;
        while dx <= reach
            invariant
                (*plot).inv(),
                alpha.wf(),
                (*plot).size() == (*old(plot)).size(),
                reach == dot_reach(width),
                side == dot_side(width),
                0 <= reach <= 65536,
                -reach <= dy <= reach,
                -reach <= dx <= reach + 1,
                i64::MIN <= x - reach,
                x + reach <= i64::MAX,
                i64::MIN <= y - reach,
                y + reach <= i64::MAX,
                0 <= (dy + reach) * side,
                (dy + reach) * side + side <= side * side,
                wanted == dot_emissions(x as int, y as int, alpha, width, hardness),
                done == wanted.subrange(0, (dy + reach) * side + (dx + reach)),
                (*plot).model() == absorb::<P>((*old(plot)).model(), done),
            decreases reach + 1 - dx,
        {
            assert(0 <= dx * dx <= 65536 * 65536 && 0 <= dy * dy <= 65536 * 65536)
                by (nonlinear_arith)
                requires
                    -65536 <= dx <= 65536,
                    -65536 <= dy <= 65536,
            ;
            let dist_sq: u64 = (dx * dx + dy * dy) as u64;
            let c = alpha.under(dist_sq, width, hardness);
            plot.draw_pixel(x + dx, y + dy, c);
            proof {
                let t = (dy + reach) * side + (dx + reach);
                assert(t / (side as int) == dy + reach && t % (side as int) == dx + reach) by {
                    vstd::arithmetic::div_mod::lemma_fundamental_div_mod_converse(
                        t,
                        side as int,
                        dy + reach,
                        dx + reach,
                    );
                    assert(side * (dy + reach) == (dy + reach) * side) by (nonlinear_arith);
                }
                let e = Emission { x: x + dx, y: y + dy, coverage: c };
                assert(wanted[t] == e);
                assert(wanted.subrange(0, t + 1) =~= wanted.subrange(0, t).push(e));
                assert(done.push(e).drop_last() =~= done);
                done = done.push(e);
            }
            dx = dx + 1;
        }
        dy = dy + 1;
    }
    proof {
        assert((reach + 1 + reach) * side == side * side) by (nonlinear_arith)
            requires
                side == 2 * reach + 1,
        ;
        assert(done =~= wanted);
    }
}

} // verus!
