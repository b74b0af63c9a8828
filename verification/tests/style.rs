use rust_plot::plot::coverage::Coverage;
use rust_plot::plot::line::{draw_line_bresenham, draw_line_xiaolin_wu};
use rust_plot::plot::recorder::Recorder;
use rust_plot::plot::shape::circle::{draw_circle, draw_circle_aa};
use rust_plot::plot::shape::ellipse::{draw_ellipse, draw_ellipse_aa};
use rust_plot::plot::{round_to_pixel, Brush, Draw, LineStyle, Plotter};

const ONE: i64 = 65536;

#[test]
fn aa_adds_antialiasing() {
    assert_eq!(LineStyle::Thin.aa(), LineStyle::ThinAA);
    assert_eq!(
        LineStyle::thick(20 * 65536, 2 * 65536).aa(),
        LineStyle::ThickAA { width: 20 * 65536, hardness: 2 * 65536 }
    );
    assert_eq!(LineStyle::thick(5, 7), LineStyle::Thick { width: 5, hardness: 7 });
}

#[test]
fn aa_is_idempotent() {
    for s in [
        LineStyle::Thin,
        LineStyle::ThinAA,
        LineStyle::thick(3, 4),
        LineStyle::ThickAA { width: 3, hardness: 4 },
    ] {
        assert_eq!(s.aa().aa(), s.aa());
        assert!(s.aa().is_aa());
        assert_eq!(s.aa().to_brush(), s.to_brush());
    }
    assert_eq!(LineStyle::ThinAA.aa(), LineStyle::ThinAA);
    assert_eq!(
        LineStyle::ThickAA { width: 1, hardness: 2 }.aa(),
        LineStyle::ThickAA { width: 1, hardness: 2 }
    );
}

#[test]
fn style_brushes() {
    assert_eq!(LineStyle::Thin.to_brush(), Brush::Pixel);
    assert_eq!(LineStyle::ThinAA.to_brush(), Brush::Pixel);
    assert_eq!(LineStyle::thick(9, 8).to_brush(), Brush::Dot { width: 9, hardness: 8 });
    assert_eq!(LineStyle::thick(9, 8).aa().to_brush(), Brush::Dot { width: 9, hardness: 8 });
    assert!(!LineStyle::Thin.is_aa());
    assert!(!LineStyle::thick(1, 1).is_aa());
}

#[test]
fn rounding_goes_to_the_nearest_pixel_half_away_from_zero() {
    assert_eq!(round_to_pixel(0), 0);
    assert_eq!(round_to_pixel(32767), 0);
    assert_eq!(round_to_pixel(32768), 1);
    assert_eq!(round_to_pixel(-32767), 0);
    assert_eq!(round_to_pixel(-32768), -1);
    assert_eq!(round_to_pixel(5 * ONE + 40000), 6);
    assert_eq!(round_to_pixel(-5 * ONE - 40000), -6);
    assert_eq!(round_to_pixel(i64::MAX), 140737488355328);
    assert_eq!(round_to_pixel(i64::MIN), -140737488355328);
}

#[test]
fn thin_line_runs_between_the_nearest_pixels() {
    let mut a = Recorder::new(8, 8);
    let mut b = Recorder::new(8, 8);
    // from (0.4, 0.6) to (4.5, -1.5)
    a.draw_line(26214, 39322, 4 * ONE + 32768, -ONE - 32768, LineStyle::Thin);
    draw_line_bresenham(0, 1, 5, -2, &mut b, Brush::Pixel);
    assert_eq!(a.pixels(), b.pixels());
    assert_eq!(a.len(), 6);
}

#[test]
fn thick_line_stamps_a_dot_on_each_pixel() {
    let mut a = Recorder::new(8, 8);
    let mut b = Recorder::new(8, 8);
    let style = LineStyle::thick(ONE as u32, 2 * ONE as u32);
    a.draw_line(0, 0, 3 * ONE, ONE, style);
    draw_line_bresenham(0, 0, 3, 1, &mut b, Brush::Dot { width: 65536, hardness: 131072 });
    assert_eq!(a.pixels(), b.pixels());
    assert_eq!(a.len(), 4 * 9);
}

#[test]
fn antialiased_lines_keep_their_fractions() {
    let mut a = Recorder::new(8, 8);
    let mut b = Recorder::new(8, 8);
    a.draw_line(26214, 39322, 4 * ONE + 32768, -ONE - 32768, LineStyle::ThinAA);
    draw_line_xiaolin_wu(26214, 39322, 4 * ONE + 32768, -ONE - 32768, &mut b, Brush::Pixel);
    assert_eq!(a.pixels(), b.pixels());

    let mut c = Recorder::new(8, 8);
    let mut d = Recorder::new(8, 8);
    let brush = Brush::Dot { width: 40000, hardness: 9 };
    c.draw_line(0, 0, 2 * ONE, 3 * ONE, LineStyle::thick(40000, 9).aa());
    draw_line_xiaolin_wu(0, 0, 2 * ONE, 3 * ONE, &mut d, brush);
    assert_eq!(c.pixels(), d.pixels());
}

#[test]
fn circles_by_style() {
    let thick = LineStyle::thick(5 * 65536, 65536);
    let brush = Brush::Dot { width: 5 * 65536, hardness: 65536 };
    let mut a = Recorder::new(8, 8);
    let mut b = Recorder::new(8, 8);
    a.draw_circle(5, 5, 4, LineStyle::Thin);
    draw_circle(5, 5, 4, &mut b, Brush::Pixel);
    assert_eq!(a.pixels(), b.pixels());

    let mut a = Recorder::new(8, 8);
    let mut b = Recorder::new(8, 8);
    a.draw_circle(5, 5, 4, LineStyle::ThinAA);
    draw_circle_aa(5, 5, 4, &mut b, Brush::Pixel);
    assert_eq!(a.pixels(), b.pixels());

    let mut a = Recorder::new(8, 8);
    let mut b = Recorder::new(8, 8);
    a.draw_circle(5, 5, 2, thick);
    draw_circle(5, 5, 2, &mut b, brush);
    assert_eq!(a.pixels(), b.pixels());
    assert_eq!(a.len(), 12 * 121);

    let mut a = Recorder::new(8, 8);
    let mut b = Recorder::new(8, 8);
    a.draw_circle(5, 5, 2, thick.aa());
    draw_circle_aa(5, 5, 2, &mut b, brush);
    assert_eq!(a.pixels(), b.pixels());
}

#[test]
fn ellipses_by_style() {
    let thick = LineStyle::thick(65536, 0);
    let brush = Brush::Dot { width: 65536, hardness: 0 };
    let mut a = Recorder::new(8, 8);
    let mut b = Recorder::new(8, 8);
    a.draw_ellipse(0, 0, 7, 4, LineStyle::Thin);
    draw_ellipse(0, 0, 7, 4, &mut b, Brush::Pixel);
    assert_eq!(a.pixels(), b.pixels());

    let mut a = Recorder::new(8, 8);
    let mut b = Recorder::new(8, 8);
    a.draw_ellipse(0, 0, 7, 4, LineStyle::ThinAA);
    draw_ellipse_aa(0, 0, 7, 4, &mut b, Brush::Pixel);
    assert_eq!(a.pixels(), b.pixels());

    let mut a = Recorder::new(8, 8);
    let mut b = Recorder::new(8, 8);
    a.draw_ellipse(0, 0, 7, 4, thick);
    draw_ellipse(0, 0, 7, 4, &mut b, brush);
    assert_eq!(a.pixels(), b.pixels());

    let mut a = Recorder::new(8, 8);
    let mut b = Recorder::new(8, 8);
    a.draw_ellipse(0, 0, 7, 4, thick.aa());
    draw_ellipse_aa(0, 0, 7, 4, &mut b, brush);
    assert_eq!(a.pixels(), b.pixels());
}

#[test]
fn recorder_keeps_its_size_and_order() {
    let mut rec = Recorder::new(640, 480);
    assert_eq!((rec.width(), rec.height()), (640, 480));
    assert_eq!(rec.len(), 0);
    rec.draw_pixel(1, 2, Coverage::full());
    rec.draw_pixel(-7, 100000, Coverage::ratio(1, 4));
    assert_eq!((rec.width(), rec.height()), (640, 480));
    assert_eq!(rec.len(), 2);
    assert_eq!((rec.pixels()[0].x, rec.pixels()[0].y), (1, 2));
    assert_eq!((rec.pixels()[1].x, rec.pixels()[1].y), (-7, 100000));
    assert_eq!(rec.pixels()[1].coverage, Coverage::ratio(1, 4));
}

fn paint<P: Plotter>(mut sink: P) -> P {
    draw_circle(0, 0, 2, &mut sink, Brush::Pixel);
    sink.draw_line(0, 0, 3 * ONE, 0, LineStyle::Thin);
    sink
}

#[test]
fn a_sink_in_a_box_or_behind_a_reference_is_a_sink() {
    let direct = paint(Recorder::new(8, 8));
    assert_eq!(direct.len(), 12 + 4);

    let boxed = paint(Box::new(Recorder::new(8, 8)));
    assert_eq!((boxed.width(), boxed.height()), (8, 8));
    assert_eq!(boxed.pixels(), direct.pixels());

    let mut rec = Recorder::new(8, 8);
    {
        let borrowed = paint(&mut rec);
        assert_eq!((Plotter::width(&borrowed), Plotter::height(&borrowed)), (8, 8));
    }
    assert_eq!(rec.pixels(), direct.pixels());
}
