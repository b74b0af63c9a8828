use rust_plot::plot::coverage::{Coverage, Falloff, Fraction};
use rust_plot::plot::dot::{plot_gaussian_dot, reach_of};
use rust_plot::plot::recorder::Recorder;
use rust_plot::plot::{emit, Brush, Draw};

#[test]
fn dot_reach_is_the_width_rounded_up() {
    assert_eq!(reach_of(0), 0);
    assert_eq!(reach_of(1), 1);
    assert_eq!(reach_of(65536), 1);
    assert_eq!(reach_of(65537), 2);
    assert_eq!(reach_of(20 * 65536), 20);
    assert_eq!(reach_of(u32::MAX), 65536);
}

#[test]
fn dot_of_no_width_is_its_centre() {
    let mut rec = Recorder::new(8, 8);
    plot_gaussian_dot(3, 4, Coverage::full(), 0, 65536, &mut rec);
    assert_eq!(rec.len(), 1);
    let p = rec.pixels()[0];
    assert_eq!((p.x, p.y), (3, 4));
    assert_eq!(p.coverage.falloff, Falloff::Gaussian { dist_sq: 0, width: 0, hardness: 65536 });
}

#[test]
fn dot_covers_its_square_row_by_row() {
    let mut rec = Recorder::new(8, 8);
    // a width of a pixel and a half reaches two pixels
    let width = 98304;
    plot_gaussian_dot(10, -5, Coverage::ratio(1, 3), width, 0, &mut rec);
    assert_eq!(rec.len(), 25);
    let mut t = 0;
    for dy in -2..=2i64 {
        for dx in -2..=2i64 {
            let p = rec.pixels()[t];
            assert_eq!((p.x, p.y), (10 + dx, -5 + dy));
            assert_eq!(p.coverage.fraction, Fraction::Ratio { num: 1, den: 3 });
            assert_eq!(
                p.coverage.falloff,
                Falloff::Gaussian { dist_sq: (dx * dx + dy * dy) as u64, width, hardness: 0 }
            );
            t += 1;
        }
    }
}

#[test]
fn dot_distance_grows_from_the_centre_outwards() {
    let mut rec = Recorder::new(8, 8);
    plot_gaussian_dot(0, 0, Coverage::full(), 3 * 65536, 0, &mut rec);
    for p in rec.pixels() {
        match p.coverage.falloff {
            Falloff::Gaussian { dist_sq, .. } => assert_eq!(dist_sq as i64, p.x * p.x + p.y * p.y),
            Falloff::Flat => panic!("a dot's pixel without falloff"),
        }
    }
}

#[test]
fn draw_dot_is_the_stamp() {
    let mut a = Recorder::new(8, 8);
    let mut b = Recorder::new(8, 8);
    let mut c = Recorder::new(8, 8);
    plot_gaussian_dot(1, 2, Coverage::full(), 70000, 3, &mut a);
    b.draw_dot(1, 2, Coverage::full(), 70000, 3);
    emit(&mut c, 1, 2, Coverage::full(), Brush::Dot { width: 70000, hardness: 3 });
    assert_eq!(a.pixels(), b.pixels());
    assert_eq!(a.pixels(), c.pixels());
    assert_eq!(a.len(), 25);
}

#[test]
fn pixel_brush_emits_the_pixel_alone() {
    let mut rec = Recorder::new(8, 8);
    emit(&mut rec, -1, 9, Coverage::ratio(2, 5), Brush::Pixel);
    assert_eq!(rec.len(), 1);
    let p = rec.pixels()[0];
    assert_eq!((p.x, p.y, p.coverage), (-1, 9, Coverage::ratio(2, 5)));
}
