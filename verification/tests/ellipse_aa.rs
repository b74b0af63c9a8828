use rust_plot::plot::coverage::Coverage;
use rust_plot::plot::line::draw_line_bresenham;
use rust_plot::plot::recorder::{Pixel, Recorder};
use rust_plot::plot::shape::ellipse::draw_ellipse_aa;
use rust_plot::plot::Brush;

#[derive(Clone, Copy)]
enum Want {
    /// fully covered
    F,
    /// the ratio of two integers
    R(i128, i128),
    /// one less the deficit over the edge estimate of two components
    E(i128, i128, i128),
}
use Want::{E, F, R};

fn pixels(want: &[(i64, i64, Want)]) -> Vec<Pixel> {
    want.iter()
        .map(|&(x, y, w)| Pixel {
            x,
            y,
            coverage: match w {
                F => Coverage::full(),
                R(n, d) => Coverage::ratio(n, d),
                E(n, major, minor) => Coverage::edge(n, major, minor),
            },
        })
        .collect()
}

fn ellipse_aa(x0: i64, y0: i64, x1: i64, y1: i64) -> Vec<Pixel> {
    let mut rec = Recorder::new(64, 64);
    draw_ellipse_aa(x0, y0, x1, y1, &mut rec, Brush::Pixel);
    rec.pixels().clone()
}

/// The value of an edge-scaled coverage in floating point.
fn edge_value(deficit: i128, major: i128, minor: i128) -> f64 {
    let (m, i) = (major as f64, minor as f64);
    1.0 - deficit as f64 / (m + 2.0 * m * i * i / (4.0 * m * m + i * i))
}

#[test]
fn ellipse_aa_four_by_three() {
    assert_eq!(
        ellipse_aa(0, 0, 4, 3),
        pixels(&[
            (2, 0, F), (0, 1, F), (2, 3, F), (4, 1, F), (0, 2, E(16, 128, 108)),
            (4, 2, E(16, 128, 108)), (0, 3, E(144, 128, 108)), (0, 0, E(144, 128, 108)),
            (4, 3, E(144, 128, 108)), (4, 0, E(144, 128, 108)), (1, 2, E(92, 128, 108)),
            (3, 2, E(92, 128, 108)), (1, 3, E(36, 256, 36)), (1, 0, E(36, 256, 36)),
            (3, 3, E(36, 256, 36)), (3, 0, E(36, 256, 36)),
        ])
    );
}

#[test]
fn ellipse_aa_odd_width() {
    assert_eq!(
        ellipse_aa(0, 0, 5, 4),
        pixels(&[
            (2, 0, F), (0, 2, F), (2, 4, F), (5, 2, F), (0, 3, E(100, 300, 256)),
            (0, 1, E(100, 300, 256)), (5, 3, E(100, 300, 256)), (5, 1, E(100, 300, 256)),
            (1, 3, E(156, 300, 128)), (1, 1, E(156, 300, 128)), (4, 3, E(156, 300, 128)),
            (4, 1, E(156, 300, 128)), (1, 4, E(144, 300, 128)), (1, 0, E(144, 300, 128)),
            (4, 4, E(144, 300, 128)), (4, 0, E(144, 300, 128)), (3, 3, E(284, 300, 128)),
            (3, 1, E(284, 300, 128)), (3, 4, E(16, 500, 0)), (3, 0, E(16, 500, 0)),
            (3, 4, E(16, 500, -128)), (3, 0, E(16, 500, -128)),
        ])
    );
}

#[test]
fn ellipse_aa_with_swapped_corners() {
    assert_eq!(
        ellipse_aa(-2, 1, 4, -2),
        pixels(&[
            (1, 1, F), (-2, 0, F), (1, -2, F), (4, 0, F), (-2, -1, E(36, 288, 180)),
            (4, -1, E(36, 288, 180)), (-2, 1, E(324, 288, 180)), (-2, -2, E(324, 288, 180)),
            (4, 1, E(324, 288, 180)), (4, -2, E(324, 288, 180)), (-1, -1, E(144, 288, 108)),
            (3, -1, E(144, 288, 108)), (-1, 1, E(144, 288, 108)), (-1, -2, E(144, 288, 108)),
            (3, 1, E(144, 288, 108)), (3, -2, E(144, 288, 108)), (0, -1, E(252, 288, 108)),
            (2, -1, E(252, 288, 108)), (0, 1, E(36, 576, 36)), (0, -2, E(36, 576, 36)),
            (2, 1, E(36, 576, 36)), (2, -2, E(36, 576, 36)),
        ])
    );
}

#[test]
fn ellipse_aa_flat_and_wide() {
    assert_eq!(
        ellipse_aa(0, 0, 12, 1),
        pixels(&[
            (6, 0, F), (0, 0, F), (6, 1, F), (12, 0, F), (0, 1, R(144, 288)), (12, 1, R(144, 288)),
            (1, 1, R(188, 288)), (11, 1, R(188, 288)), (2, 1, R(224, 288)), (10, 1, R(224, 288)),
            (3, 1, R(252, 288)), (9, 1, R(252, 288)), (4, 1, R(272, 288)), (8, 1, R(272, 288)),
            (5, 1, E(4, 1152, 4)), (7, 1, E(4, 1152, 4)),
        ])
    );
}

#[test]
fn ellipse_aa_tall_and_narrow() {
    assert_eq!(
        ellipse_aa(0, 0, 3, 9),
        pixels(&[
            (1, 0, F), (0, 4, F), (1, 9, F), (3, 4, F), (0, 5, E(9, 648, 72)),
            (3, 5, E(9, 648, 72)), (2, 5, E(639, 648, 72)), (0, 6, E(81, 648, 144)),
            (0, 3, E(81, 648, 144)), (3, 6, E(81, 648, 144)), (3, 3, E(81, 648, 144)),
            (2, 6, E(567, 648, 144)), (2, 3, E(567, 648, 144)), (0, 7, E(225, 648, 216)),
            (0, 2, E(225, 648, 216)), (3, 7, E(225, 648, 216)), (3, 2, E(225, 648, 216)),
            (2, 7, E(423, 648, 216)), (2, 2, E(423, 648, 216)), (0, 8, E(441, 648, 288)),
            (0, 1, E(441, 648, 288)), (3, 8, E(441, 648, 288)), (3, 1, E(441, 648, 288)),
            (2, 8, E(207, 648, 288)), (2, 1, E(207, 648, 288)), (2, 9, E(81, 360, 0)),
            (2, 0, E(81, 360, 0)), (2, 9, E(81, 360, -648)), (2, 0, E(81, 360, -648)),
        ])
    );
}

#[test]
fn ellipse_aa_unit_box() {
    assert_eq!(
        ellipse_aa(0, 0, 1, 1),
        pixels(&[
            (0, 0, F), (0, 0, F), (0, 1, F), (1, 0, F), (1, 1, E(1, 8, 0)), (1, 1, E(1, 8, -8)),
        ])
    );
}

#[test]
fn ellipse_aa_two_by_two() {
    assert_eq!(
        ellipse_aa(0, 0, 2, 2),
        pixels(&[
            (1, 0, F), (0, 1, F), (1, 2, F), (2, 1, F), (0, 2, E(16, 16, 16)),
            (0, 0, E(16, 16, 16)), (2, 2, E(16, 16, 16)), (2, 0, E(16, 16, 16)),
        ])
    );
}

#[test]
fn ellipse_aa_without_width_or_height_is_the_line() {
    for &(x0, y0, x1, y1) in &[(4i64, -2i64, 4i64, 9i64), (-3, 1, 5, 1), (2, 2, 2, 2)] {
        let mut rec = Recorder::new(64, 64);
        draw_line_bresenham(x0, y0, x1, y1, &mut rec, Brush::Pixel);
        assert_eq!(&ellipse_aa(x0, y0, x1, y1), rec.pixels());
    }
}

#[test]
fn ellipse_aa_neighbours_are_emitted_only_with_positive_coverage() {
    // in the box 0, 0, 4, 3 the pixel beside the first one has the deficit 92
    // against an edge of about 166.7: a coverage of 0.448
    let px = ellipse_aa(0, 0, 4, 3);
    assert_eq!(px[10], pixels(&[(1, 2, E(92, 128, 108))])[0]);
    assert!((edge_value(92, 128, 108) - 0.448039).abs() < 1e-6);
    // the corner pixels above and below the first ones are still touched
    assert_eq!(px[6], pixels(&[(0, 3, E(144, 128, 108))])[0]);
    assert!((edge_value(144, 128, 108) - 0.136062).abs() < 1e-6);
    assert!((edge_value(16, 128, 108) - 0.904007).abs() < 1e-6);
}

#[test]
fn ellipse_aa_stays_inside_its_box() {
    for a in 1..24i64 {
        for b in 1..24i64 {
            for p in ellipse_aa(-3, 2, -3 + a, 2 + b) {
                assert!(-3 <= p.x && p.x <= -3 + a && 2 <= p.y && p.y <= 2 + b);
            }
        }
    }
}
