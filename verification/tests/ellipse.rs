use rust_plot::plot::coverage::Coverage;
use rust_plot::plot::line::draw_line_bresenham;
use rust_plot::plot::recorder::Recorder;
use rust_plot::plot::shape::ellipse::draw_ellipse;
use rust_plot::plot::Brush;

fn ellipse(x0: i64, y0: i64, x1: i64, y1: i64) -> Vec<(i64, i64)> {
    let mut rec = Recorder::new(64, 64);
    draw_ellipse(x0, y0, x1, y1, &mut rec, Brush::Pixel);
    assert!(rec.pixels().iter().all(|p| p.coverage == Coverage::full()));
    rec.pixels().iter().map(|p| (p.x, p.y)).collect()
}

fn line(x0: i64, y0: i64, x1: i64, y1: i64) -> Vec<(i64, i64)> {
    let mut rec = Recorder::new(64, 64);
    draw_line_bresenham(x0, y0, x1, y1, &mut rec, Brush::Pixel);
    rec.pixels().iter().map(|p| (p.x, p.y)).collect()
}

#[test]
fn ellipse_four_by_three() {
    assert_eq!(
        ellipse(0, 0, 4, 3),
        vec![
            (4, 2), (0, 2), (0, 1), (4, 1), (3, 3), (1, 3), (1, 0), (3, 0), (2, 3), (2, 3), (2, 0),
            (2, 0)
        ]
    );
}

#[test]
fn ellipse_with_swapped_corners() {
    assert_eq!(
        ellipse(3, 5, -1, 2),
        vec![
            (3, 4), (-1, 4), (-1, 3), (3, 3), (2, 5), (0, 5), (0, 2), (2, 2), (1, 5), (1, 5),
            (1, 2), (1, 2)
        ]
    );
}

#[test]
fn ellipse_flat_gets_its_tips() {
    assert_eq!(
        ellipse(0, 0, 1, 7),
        vec![
            (1, 4), (0, 4), (0, 3), (1, 3), (0, 4), (1, 4), (0, 3), (1, 3), (0, 5), (1, 5), (0, 2),
            (1, 2), (0, 6), (1, 6), (0, 1), (1, 1)
        ]
    );
}

#[test]
fn ellipse_in_a_square_box() {
    assert_eq!(
        ellipse(-3, -3, 3, 3),
        vec![
            (3, 0), (-3, 0), (-3, 0), (3, 0), (3, 1), (-3, 1), (-3, -1), (3, -1), (2, 2), (-2, 2),
            (-2, -2), (2, -2), (1, 3), (-1, 3), (-1, -3), (1, -3), (0, 3), (0, 3), (0, -3), (0, -3)
        ]
    );
}

#[test]
fn ellipse_two_by_one() {
    assert_eq!(
        ellipse(0, 0, 2, 1),
        vec![(2, 1), (0, 1), (0, 0), (2, 0), (1, 1), (1, 1), (1, 0), (1, 0)]
    );
}

#[test]
fn ellipse_without_width_is_the_vertical_line() {
    assert_eq!(ellipse(4, -2, 4, 9), line(4, -2, 4, 9));
    assert_eq!(ellipse(4, -2, 4, 9), (-2..=9).map(|y| (4, y)).collect::<Vec<_>>());
    assert_eq!(ellipse(4, 9, 4, -2), line(4, 9, 4, -2));
}

#[test]
fn ellipse_without_height_is_the_horizontal_line() {
    assert_eq!(ellipse(-3, 1, 5, 1), line(-3, 1, 5, 1));
    assert_eq!(ellipse(2, 2, 2, 2), vec![(2, 2)]);
}

#[test]
fn ellipse_stays_inside_its_box() {
    for a in 1..30i64 {
        for b in 1..30i64 {
            for (x, y) in ellipse(7, -2, 7 - a, -2 + b) {
                assert!(7 - a <= x && x <= 7 && -2 <= y && y <= -2 + b);
            }
        }
    }
}
