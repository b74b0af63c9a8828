use rust_plot::plot::coverage::Coverage;
use rust_plot::plot::line::draw_line_bresenham;
use rust_plot::plot::recorder::{Pixel, Recorder};
use rust_plot::plot::Brush;

fn full(x: i64, y: i64) -> Pixel {
    Pixel { x, y, coverage: Coverage::full() }
}

fn bresenham(x0: i64, y0: i64, x1: i64, y1: i64) -> Vec<(i64, i64)> {
    let mut rec = Recorder::new(16, 16);
    draw_line_bresenham(x0, y0, x1, y1, &mut rec, Brush::Pixel);
    rec.pixels().iter().map(|p| (p.x, p.y)).collect()
}

#[test]
fn bresenham_horizontal_six_pixels() {
    let mut rec = Recorder::new(16, 16);
    draw_line_bresenham(0, 0, 5, 0, &mut rec, Brush::Pixel);
    let want: Vec<Pixel> = (0..=5).map(|x| full(x, 0)).collect();
    assert_eq!(rec.pixels(), &want);
}

#[test]
fn bresenham_single_point() {
    assert_eq!(bresenham(3, -4, 3, -4), vec![(3, -4)]);
}

#[test]
fn bresenham_diagonal() {
    assert_eq!(bresenham(0, 0, -3, 3), vec![(0, 0), (-1, 1), (-2, 2), (-3, 3)]);
}

#[test]
fn bresenham_shallow_rounds_to_nearest_half_up() {
    // the ideal y at x = 1..4 is 0.4, 0.8, 1.2, 1.6
    assert_eq!(bresenham(0, 0, 5, 2), vec![(0, 0), (1, 0), (2, 1), (3, 1), (4, 2), (5, 2)]);
    // a half goes upwards
    assert_eq!(bresenham(0, 0, 2, 1), vec![(0, 0), (1, 1), (2, 1)]);
}

#[test]
fn bresenham_steep_backwards() {
    assert_eq!(
        bresenham(1, 5, -1, -1),
        vec![(1, 5), (1, 4), (0, 3), (0, 2), (0, 1), (-1, 0), (-1, -1)]
    );
}

#[test]
fn bresenham_is_eight_connected_without_repeats() {
    for &(x1, y1) in &[(7i64, 3i64), (-7, 3), (3, -7), (-2, -9), (9, 9), (0, 4), (-5, 0)] {
        let px = bresenham(1, 2, 1 + x1, 2 + y1);
        assert_eq!(px.len() as i64, x1.abs().max(y1.abs()) + 1);
        assert_eq!(px[0], (1, 2));
        assert_eq!(*px.last().unwrap(), (1 + x1, 2 + y1));
        for w in px.windows(2) {
            let (dx, dy) = ((w[1].0 - w[0].0).abs(), (w[1].1 - w[0].1).abs());
            assert!(dx <= 1 && dy <= 1 && dx + dy >= 1);
        }
    }
}

#[test]
fn bresenham_spans_the_whole_coordinate_range() {
    let mut rec = Recorder::new(1, 1);
    draw_line_bresenham(i64::MAX - 2, i64::MIN, i64::MAX, i64::MIN + 1, &mut rec, Brush::Pixel);
    let want = vec![
        full(i64::MAX - 2, i64::MIN),
        full(i64::MAX - 1, i64::MIN + 1),
        full(i64::MAX, i64::MIN + 1),
    ];
    assert_eq!(rec.pixels(), &want);
}
