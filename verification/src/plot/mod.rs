//! The pixel sink, the values it receives, and the rasterisers that feed it.

use vstd::prelude::*;

pub mod coverage;
pub mod dot;
pub mod line;
pub mod recorder;
pub mod shape;

use crate::plot::coverage::Coverage;
use crate::plot::dot::{dot_emissions, dot_reach, plot_gaussian_dot};
use crate::plot::line::{
    draw_line_bresenham, draw_line_xiaolin_wu, line_emissions, rounded, wu_emissions, WU_LIMIT,
};
use crate::plot::shape::circle::{
    circle_aa_emissions, circle_aa_reach, circle_emissions, draw_circle, draw_circle_aa,
};
use crate::plot::shape::ellipse::{
    draw_ellipse, draw_ellipse_aa, ellipse_aa_emissions, ellipse_emissions, ELLIPSE_AA_MAX,
    ELLIPSE_MAX,
};

verus! {

/// One pixel handed to a sink: where it lies and how much of it the ideal
/// primitive covers.
pub ghost struct Emission {
    pub x: int,
    pub y: int,
    pub coverage: Coverage,
}

/// A pixel sink.
///
/// A sink is described by a mathematical `Model` of its contents and by
/// `blend`, which says what one emission does to that model.  The rasterisers
/// promise which emissions they hand over and in which order; what becomes of
/// them is the sink's affair.
pub trait Plotter: Sized {
    /// What the sink holds, as a mathematical value.
    type Model;

    /// The sink's present contents.
    spec fn model(&self) -> Self::Model;

    /// The contents after one more emission.
    spec fn blend(model: Self::Model, e: Emission) -> Self::Model;

    /// The sink's own invariant.
    spec fn inv(&self) -> bool;

    /// Width and height in pixels.
    spec fn size(&self) -> (u32, u32);

    /// The width of the sink in pixels.
    fn width(&self) -> (w: u32)
        requires
            self.inv(),
        ensures
            w == self.size().0,
    ;

    /// The height of the sink in pixels.
    fn height(&self) -> (h: u32)
        requires
            self.inv(),
        ensures
            h == self.size().1,
    ;

    /// Blends `alpha` of the foreground onto the pixel at `(x, y)`.
    ///
    /// Coordinates outside the sink are the sink's to ignore; the size never
    /// changes.
    fn draw_pixel(&mut self, x: i64, y: i64, alpha: Coverage)
        requires
            (*old(self)).inv(),
            alpha.wf(),
        ensures
            (*final(self)).inv(),
            (*final(self)).size() == (*old(self)).size(),
            (*final(self)).model() == Self::blend(
                (*old(self)).model(),
                (Emission { x: x as int, y: y as int, coverage: alpha }),
            ),
    ;
}

/// A sink behind a mutable reference is a sink: the one referred to.
impl<'a, P: Plotter> Plotter for &'a mut P {
    type Model = P::Model;

    open spec fn model(&self) -> P::Model {
        (**self).model()
    }

    open spec fn blend(model: P::Model, e: Emission) -> P::Model {
        P::blend(model, e)
    }

    open spec fn inv(&self) -> bool {
        (**self).inv()
    }

    open spec fn size(&self) -> (u32, u32) {
        (**self).size()
    }

    fn width(&self) -> (w: u32) {
        (**self).width()
    }

    fn height(&self) -> (h: u32) {
        (**self).height()
    }

    fn draw_pixel(&mut self, x: i64, y: i64, alpha: Coverage) {
        (**self).draw_pixel(x, y, alpha)
    }
}

/// A sink in a box is a sink: the one in the box.
impl<P: Plotter> Plotter for Box<P> {
    type Model = P::Model;

    open spec fn model(&self) -> P::Model {
        (**self).model()
    }

    open spec fn blend(model: P::Model, e: Emission) -> P::Model {
        P::blend(model, e)
    }

    open spec fn inv(&self) -> bool {
        (**self).inv()
    }

    open spec fn size(&self) -> (u32, u32) {
        (**self).size()
    }

    fn width(&self) -> (w: u32) {
        (**self).width()
    }

    fn height(&self) -> (h: u32) {
        (**self).height()
    }

    fn draw_pixel(&mut self, x: i64, y: i64, alpha: Coverage) {
        (**self).draw_pixel(x, y, alpha)
    }
}

/// The model after a sequence of emissions, blended in order.
pub open spec fn absorb<P: Plotter>(model: P::Model, es: Seq<Emission>) -> P::Model
    decreases es.len(),
{
    if es.len() == 0 {
        model
    } else {
        P::blend(absorb::<P>(model, es.drop_last()), es.last())
    }
}

/// Blending one more emission after `es`.
pub proof fn lemma_absorb_push<P: Plotter>(model: P::Model, es: Seq<Emission>, e: Emission)
    ensures
        absorb::<P>(model, es.push(e)) == P::blend(absorb::<P>(model, es), e),
        absorb::<P>(model, Seq::empty()) == model,
{
    assert(es.push(e).drop_last() =~= es);
    assert(es.push(e).last() == e);
}

/// Nothing drawn leaves the sink as it was.
pub proof fn lemma_stroke_nothing<P: Plotter>(model: P::Model, brush: Brush)
    ensures
        absorb::<P>(model, stroke(Seq::empty(), brush)) == model,
{
}

/// Blending `a` and then `b` is blending `a + b`.
pub proof fn lemma_absorb_concat<P: Plotter>(model: P::Model, a: Seq<Emission>, b: Seq<Emission>)
    ensures
        absorb::<P>(model, a + b) == absorb::<P>(absorb::<P>(model, a), b),
    decreases b.len(),
{
    if b.len() == 0 {
        assert(a + b =~= a);
    } else {
        lemma_absorb_concat::<P>(model, a, b.drop_last());
        assert((a + b).drop_last() =~= a + b.drop_last());
        assert((a + b).last() == b.last());
    }
}

/// What a rasteriser puts down at each pixel of its path.
#[derive(Clone, Copy, Debug, PartialEq, Eq, Structural)]
pub enum Brush {
    /// The pixel itself.
    Pixel,
    /// A dot of the given width and hardness, both counted in 1/65536,
    /// centred on the pixel.
    Dot { width: u32, hardness: u32 },
}

impl Brush {
    /// How far the brush reaches from the pixel it is put on, in pixels.
    pub open spec fn reach(self) -> int {
        match self {
            Brush::Pixel => 0,
            Brush::Dot { width, hardness } => dot_reach(width),
        }
    }

    /// Whether the brush can be put on `(x, y)` without leaving the range of
    /// pixel coordinates.
    pub open spec fn fits(self, x: int, y: int) -> bool {
        &&& i64::MIN <= x - self.reach()
        &&& x + self.reach() <= i64::MAX
        &&& i64::MIN <= y - self.reach()
        &&& y + self.reach() <= i64::MAX
    }
}

/// What reaches the sink when the brush is put on one pixel of a path.
pub open spec fn stroke_one(e: Emission, brush: Brush) -> Seq<Emission> {
    match brush {
        Brush::Pixel => seq![e],
        Brush::Dot { width, hardness } => dot_emissions(e.x, e.y, e.coverage, width, hardness),
    }
}

/// What reaches the sink when the brush is drawn along a path.
pub open spec fn stroke(path: Seq<Emission>, brush: Brush) -> Seq<Emission>
    decreases path.len(),
{
    if path.len() == 0 {
        Seq::empty()
    } else {
        stroke(path.drop_last(), brush) + stroke_one(path.last(), brush)
    }
}

/// With the pixel brush, what reaches the sink is the path itself.
pub proof fn lemma_stroke_pixel(path: Seq<Emission>)
    ensures
        stroke(path, Brush::Pixel) == path,
    decreases path.len(),
{
    if path.len() > 0 {
        lemma_stroke_pixel(path.drop_last());
        assert(path.drop_last() + seq![path.last()] =~= path);
    }
}

/// Puts the brush on one pixel of a path.
pub fn emit<P: Plotter>(plot: &mut P, x: i64, y: i64, alpha: Coverage, brush: Brush)
    requires
        (*old(plot)).inv(),
        alpha.wf(),
        brush.fits(x as int, y as int),
    ensures
        (*final(plot)).inv(),
        (*final(plot)).size() == (*old(plot)).size(),
        (*final(plot)).model() == absorb::<P>(
            (*old(plot)).model(),
            stroke_one((Emission { x: x as int, y: y as int, coverage: alpha }), brush),
        ),
{
    match brush {
        Brush::Pixel => {
            plot.draw_pixel(x, y, alpha);
            proof {
                let e = Emission { x: x as int, y: y as int, coverage: alpha };
                lemma_absorb_push::<P>((*old(plot)).model(), Seq::empty(), e);
                assert(Seq::<Emission>::empty().push(e) =~= seq![e]);
            }
        },
        Brush::Dot { width, hardness } => {
            plot_gaussian_dot(x, y, alpha, width, hardness, plot);
        },
    }
}

/// Puts the brush on the next pixel of a path: `done` is the part of the path
/// already drawn since the sink held `start`.
pub(crate) fn put<P: Plotter>(
    plot: &mut P,
    x: i64,
    y: i64,
    alpha: Coverage,
    brush: Brush,
    Ghost(start): Ghost<P::Model>,
    Ghost(done): Ghost<Seq<Emission>>,
)
    requires
        (*old(plot)).inv(),
        alpha.wf(),
        brush.fits(x as int, y as int),
        (*old(plot)).model() == absorb::<P>(start, stroke(done, brush)),
    ensures
        (*final(plot)).inv(),
        (*final(plot)).size() == (*old(plot)).size(),
        (*final(plot)).model() == absorb::<P>(
            start,
            stroke(done.push(Emission { x: x as int, y: y as int, coverage: alpha }), brush),
        ),
{
    emit(plot, x, y, alpha, brush);
    proof {
        let e = Emission { x: x as int, y: y as int, coverage: alpha };
        assert(done.push(e).drop_last() =~= done);
        assert(done.push(e).last() == e);
        lemma_absorb_concat::<P>(start, stroke(done, brush), stroke_one(e, brush));
    }
}

/// The pixel `e` unless it lies on one of the two axes through `(xm, ym)`.
pub open spec fn off_axis(xm: int, ym: int, e: Emission) -> Seq<Emission> {
    if e.x == xm || e.y == ym {
        Seq::empty()
    } else {
        seq![e]
    }
}

/// Puts the brush on the next pixel of a path unless the pixel lies on one of
/// the two axes through `(xm, ym)`.
pub(crate) fn put_off_axis<P: Plotter>(
    plot: &mut P,
    xm: i64,
    ym: i64,
    x: i64,
    y: i64,
    alpha: Coverage,
    brush: Brush,
    Ghost(start): Ghost<P::Model>,
    Ghost(done): Ghost<Seq<Emission>>,
)
    requires
        (*old(plot)).inv(),
        alpha.wf(),
        brush.fits(x as int, y as int),
        (*old(plot)).model() == absorb::<P>(start, stroke(done, brush)),
    ensures
        (*final(plot)).inv(),
        (*final(plot)).size() == (*old(plot)).size(),
        (*final(plot)).model() == absorb::<P>(
            start,
            stroke(
                done + off_axis(
                    xm as int,
                    ym as int,
                    (Emission { x: x as int, y: y as int, coverage: alpha }),
                ),
                brush,
            ),
        ),
{
    let ghost e = Emission { x: x as int, y: y as int, coverage: alpha };
    if !(x == xm || y == ym) {
        put(plot, x, y, alpha, brush, Ghost(start), Ghost(done));
        assert(done.push(e) =~= done + off_axis(xm as int, ym as int, e));
    } else {
        assert(done =~= done + off_axis(xm as int, ym as int, e));
    }
}

/// How a line or an outline is drawn.  Widths and hardnesses count in
/// 1/65536: a width of `65536` is one pixel.
#[derive(Debug, Clone, Copy, PartialEq, Eq, Structural)]
pub enum LineStyle {
    /// A thin line.
    Thin,
    /// A thin line with antialiasing.  Antialiased lines can be drawn at
    /// fractions of a pixel.
    ThinAA,
    /// A thick line, drawn by placing a dot on each pixel of the thin one.
    Thick { width: u32, hardness: u32 },
    /// A thick line with antialiasing.
    ThickAA { width: u32, hardness: u32 },
}

impl LineStyle {
    /// The style with antialiasing added: `Thin` becomes `ThinAA`, `Thick`
    /// becomes `ThickAA` with the same width and hardness, and an antialiased
    /// style stays what it is.
    pub open spec fn spec_aa(self) -> LineStyle {
        match self {
            LineStyle::Thin => LineStyle::ThinAA,
            LineStyle::Thick { width, hardness } => LineStyle::ThickAA { width, hardness },
            _ => self,
        }
    }

    /// Whether the style is antialiased.
    pub open spec fn antialiased(self) -> bool {
        self is ThinAA || self is ThickAA
    }

    /// What the style puts down at each pixel of a path.
    pub open spec fn brush(self) -> Brush {
        match self {
            LineStyle::Thin => Brush::Pixel,
            LineStyle::ThinAA => Brush::Pixel,
            LineStyle::Thick { width, hardness } => Brush::Dot { width, hardness },
            LineStyle::ThickAA { width, hardness } => Brush::Dot { width, hardness },
        }
    }

    /// A thick line of the given width and hardness.
    pub fn thick(width: u32, hardness: u32) -> (s: LineStyle)
        ensures
            s == (LineStyle::Thick { width, hardness }),
    {
        LineStyle::Thick { width, hardness }
    }

    /// Adds antialiasing to the style.
    pub fn aa(self) -> (s: LineStyle)
        ensures
            s == self.spec_aa(),
    {
        match self {
            LineStyle::Thin => LineStyle::ThinAA,
            LineStyle::Thick { width, hardness } => LineStyle::ThickAA { width, hardness },
            _ => self,
        }
    }

    /// The brush of the style.
    pub fn to_brush(self) -> (b: Brush)
        ensures
            b == self.brush(),
    {
        match self {
            LineStyle::Thin => Brush::Pixel,
            LineStyle::ThinAA => Brush::Pixel,
            LineStyle::Thick { width, hardness } => Brush::Dot { width, hardness },
            LineStyle::ThickAA { width, hardness } => Brush::Dot { width, hardness },
        }
    }

    /// Whether the style is antialiased.
    pub fn is_aa(self) -> (r: bool)
        ensures
            r == self.antialiased(),
    {
        match self {
            LineStyle::ThinAA => true,
            LineStyle::ThickAA { width, hardness } => true,
            _ => false,
        }
    }
}

/// Adding antialiasing twice is adding it once; it turns `Thin` into
/// `ThinAA` and `Thick` into `ThickAA` of the same width and hardness, makes
/// every style antialiased and leaves its brush alone.
pub proof fn lemma_aa_idempotent(style: LineStyle, width: u32, hardness: u32)
    ensures
        style.spec_aa().spec_aa() == style.spec_aa(),
        LineStyle::Thin.spec_aa() == LineStyle::ThinAA,
        (LineStyle::Thick { width, hardness }).spec_aa() == (LineStyle::ThickAA {
            width,
            hardness,
        }),
        style.antialiased() ==> style.spec_aa() == style,
        style.spec_aa().antialiased(),
        style.spec_aa().brush() == style.brush(),
{
}

/// The path of a line in the given style between two points in fractional
/// coordinates: without antialiasing the line between the nearest pixels,
/// with it the antialiased line between the points themselves.
pub open spec fn styled_line(x0: int, y0: int, x1: int, y1: int, style: LineStyle) -> Seq<
    Emission,
> {
    if style.antialiased() {
        wu_emissions(x0, y0, x1, y1)
    } else {
        line_emissions(rounded(x0), rounded(y0), rounded(x1), rounded(y1))
    }
}

/// The path of a circle in the given style.
pub open spec fn styled_circle(x: int, y: int, radius: int, style: LineStyle) -> Seq<Emission> {
    if style.antialiased() {
        circle_aa_emissions(x, y, radius)
    } else {
        circle_emissions(x, y, radius)
    }
}

/// The path of an ellipse in the given style.
pub open spec fn styled_ellipse(x0: int, y0: int, x1: int, y1: int, style: LineStyle) -> Seq<
    Emission,
> {
    if style.antialiased() {
        ellipse_aa_emissions(x0, y0, x1, y1)
    } else {
        ellipse_emissions(x0, y0, x1, y1)
    }
}

/// The pixel nearest to a fractional coordinate, a half away from zero.
pub fn round_to_pixel(v: i64) -> (r: i64)
    ensures
        r == rounded(v as int),
        -0x8000_0000_0001 <= r <= 0x8000_0000_0001,
{
    let w: i128 = v as i128;
    if w >= 0 {
        ((w + 32768) / 65536) as i64
    } else {
        (-((-w + 32768) / 65536)) as i64
    }
}

/// Drawing by style.  Every sink can do it: the style picks the rasteriser
/// and the brush, and the rasteriser feeds the sink.
pub trait Draw: Plotter {
    /// Draws a dot centred at `(x, y)`: the square of pixels round the centre
    /// that the width reaches, each with `alpha` under the falloff at its
    /// distance.
    fn draw_dot(&mut self, x: i64, y: i64, alpha: Coverage, width: u32, hardness: u32)
        requires
            (*old(self)).inv(),
            alpha.wf(),
            (Brush::Dot { width, hardness }).fits(x as int, y as int),
        ensures
            (*final(self)).inv(),
            (*final(self)).size() == (*old(self)).size(),
            (*final(self)).model() == absorb::<Self>(
                (*old(self)).model(),
                dot_emissions(x as int, y as int, alpha, width, hardness),
            ),
    ;

    /// Draws a line between two points given in fractional coordinates,
    /// 65536 to the pixel.  Antialiased lines start and end at fractions of a
    /// pixel; the others between the nearest pixels.
    fn draw_line(&mut self, x0: i64, y0: i64, x1: i64, y1: i64, style: LineStyle)
        requires
            (*old(self)).inv(),
            style.antialiased() ==> {
                &&& -WU_LIMIT <= x0 <= WU_LIMIT
                &&& -WU_LIMIT <= y0 <= WU_LIMIT
                &&& -WU_LIMIT <= x1 <= WU_LIMIT
                &&& -WU_LIMIT <= y1 <= WU_LIMIT
            },
        ensures
            (*final(self)).inv(),
            (*final(self)).size() == (*old(self)).size(),
            (*final(self)).model() == absorb::<Self>(
                (*old(self)).model(),
                stroke(
                    styled_line(x0 as int, y0 as int, x1 as int, y1 as int, style),
                    style.brush(),
                ),
            ),
    ;

    /// Draws a circle of the given radius round `(x, y)`, in pixels.
    fn draw_circle(&mut self, x: i64, y: i64, radius: i64, style: LineStyle)
        requires
            (*old(self)).inv(),
            style.antialiased() ==> radius >= 0,
            ({
                let reach = if style.antialiased() {
                    circle_aa_reach(radius as int)
                } else {
                    radius as int
                };
                style.brush().fits(x - reach, y - reach) && style.brush().fits(
                    x + reach,
                    y + reach,
                )
            }),
        ensures
            (*final(self)).inv(),
            (*final(self)).size() == (*old(self)).size(),
            (*final(self)).model() == absorb::<Self>(
                (*old(self)).model(),
                stroke(styled_circle(x as int, y as int, radius as int, style), style.brush()),
            ),
    ;

    /// Draws the ellipse inscribed in the box with the corners `(x0, y0)` and
    /// `(x1, y1)`, in pixels.
    fn draw_ellipse(&mut self, x0: i64, y0: i64, x1: i64, y1: i64, style: LineStyle)
        requires
            (*old(self)).inv(),
            style.brush().fits(x0 as int, y0 as int),
            style.brush().fits(x1 as int, y1 as int),
            x0 != x1 && y0 != y1 ==> {
                let limit = if style.antialiased() {
                    ELLIPSE_AA_MAX
                } else {
                    ELLIPSE_MAX
                };
                -limit <= x1 - x0 <= limit && -limit <= y1 - y0 <= limit
            },
        ensures
            (*final(self)).inv(),
            (*final(self)).size() == (*old(self)).size(),
            (*final(self)).model() == absorb::<Self>(
                (*old(self)).model(),
                stroke(
                    styled_ellipse(x0 as int, y0 as int, x1 as int, y1 as int, style),
                    style.brush(),
                ),
            ),
    ;
}

impl<P: Plotter> Draw for P {
    fn draw_dot(&mut self, x: i64, y: i64, alpha: Coverage, width: u32, hardness: u32) {
        plot_gaussian_dot(x, y, alpha, width, hardness, self)
    }

    fn draw_line(&mut self, x0: i64, y0: i64, x1: i64, y1: i64, style: LineStyle) {
        let brush = style.to_brush();
        if style.is_aa() {
            draw_line_xiaolin_wu(x0, y0, x1, y1, self, brush)
        } else {
            proof {
                crate::plot::dot::lemma_dot_reach_bound(brush);
            }
            draw_line_bresenham(
                round_to_pixel(x0),
                round_to_pixel(y0),
                round_to_pixel(x1),
                round_to_pixel(y1),
                self,
                brush,
            )
        }
    }

    fn draw_circle(&mut self, x: i64, y: i64, radius: i64, style: LineStyle) {
        let brush = style.to_brush();
        if style.is_aa() {
            draw_circle_aa(x, y, radius, self, brush)
        } else {
            draw_circle(x, y, radius, self, brush)
        }
    }

    fn draw_ellipse(&mut self, x0: i64, y0: i64, x1: i64, y1: i64, style: LineStyle) {
        let brush = style.to_brush();
        if style.is_aa() {
            draw_ellipse_aa(x0, y0, x1, y1, self, brush)
        } else {
            draw_ellipse(x0, y0, x1, y1, self, brush)
        }
    }
}

} // verus!
