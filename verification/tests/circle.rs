use rust_plot::plot::coverage::{Coverage, Falloff, Fraction};
use rust_plot::plot::recorder::{Pixel, Recorder};
use rust_plot::plot::shape::circle::{draw_circle, draw_circle_aa};
use rust_plot::plot::Brush;

fn positions(rec: &Recorder) -> Vec<(i64, i64)> {
    rec.pixels().iter().map(|p| (p.x, p.y)).collect()
}

fn circle(xm: i64, ym: i64, r: i64) -> Recorder {
    let mut rec = Recorder::new(64, 64);
    draw_circle(xm, ym, r, &mut rec, Brush::Pixel);
    rec
}

/// `None` stands for a fully covered pixel, `Some(n)` for `n / span`.
fn shaded(px: &[(i64, i64, Option<i128>)], span: i128) -> Vec<Pixel> {
    px.iter()
        .map(|&(x, y, n)| Pixel {
            x,
            y,
            coverage: match n {
                None => Coverage::full(),
                Some(n) => Coverage::ratio(n, span),
            },
        })
        .collect()
}

#[test]
fn circle_radius_one_is_the_four_neighbours() {
    let rec = circle(0, 0, 1);
    assert_eq!(positions(&rec), vec![(1, 0), (0, 1), (-1, 0), (0, -1)]);
}

#[test]
fn circle_radius_two() {
    let rec = circle(0, 0, 2);
    assert_eq!(
        positions(&rec),
        vec![
            (2, 0), (0, 2), (-2, 0), (0, -2), (2, 1), (-1, 2), (-2, -1), (1, -2), (1, 2), (-2, 1),
            (-1, -2), (2, -1)
        ]
    );
}

#[test]
fn circle_radius_five_off_centre() {
    let rec = circle(3, -2, 5);
    assert_eq!(
        positions(&rec),
        vec![
            (8, -2), (3, 3), (-2, -2), (3, -7), (8, -1), (2, 3), (-2, -3), (4, -7), (8, 0), (1, 3),
            (-2, -4), (5, -7), (7, 1), (0, 2), (-1, -5), (6, -6), (6, 2), (-1, 1), (0, -6), (7, -5),
            (5, 3), (-2, 0), (1, -7), (8, -4), (4, 3), (-2, -1), (2, -7), (8, -3)
        ]
    );
}

#[test]
fn circle_radius_zero_is_the_centre_four_times() {
    let rec = circle(10, 10, 0);
    assert_eq!(positions(&rec), vec![(10, 10); 4]);
}

#[test]
fn circle_negative_radius_gives_the_four_poles() {
    let rec = circle(0, 0, -3);
    assert_eq!(positions(&rec), vec![(-3, 0), (0, -3), (3, 0), (0, 3)]);
}

#[test]
fn circle_pixels_are_fully_covered() {
    let rec = circle(0, 0, 7);
    assert!(rec.pixels().iter().all(|p| p.coverage == Coverage::full()));
}

#[test]
fn circle_pixels_round_to_the_radius() {
    for r in 1..200i64 {
        let rec = circle(5, -9, r);
        assert!(rec.len() >= 4 && rec.len() % 4 == 0);
        for p in rec.pixels() {
            let (dx, dy) = ((p.x - 5) as f64, (p.y + 9) as f64);
            assert_eq!((dx * dx + dy * dy).sqrt().round() as i64, r);
        }
    }
}

#[test]
fn circle_pixel_count_is_not_always_a_multiple_of_eight() {
    assert_eq!(circle(0, 0, 1).len(), 4);
    assert_eq!(circle(0, 0, 2).len(), 12);
    assert_eq!(circle(0, 0, 3).len(), 16);
}

#[test]
fn circle_with_dot_brush_stamps_each_pixel() {
    let mut rec = Recorder::new(64, 64);
    // a width of one pixel reaches one pixel: a 3 x 3 stamp
    draw_circle(0, 0, 1, &mut rec, Brush::Dot { width: 65536, hardness: 131072 });
    assert_eq!(rec.len(), 4 * 9);
    let first = rec.pixels()[0];
    assert_eq!((first.x, first.y), (0, -1));
    assert_eq!(first.coverage.fraction, Fraction::One);
    assert_eq!(first.coverage.falloff, Falloff::Gaussian { dist_sq: 2, width: 65536, hardness: 131072 });
    let centre = rec.pixels()[4];
    assert_eq!((centre.x, centre.y), (1, 0));
    assert_eq!(centre.coverage.falloff, Falloff::Gaussian { dist_sq: 0, width: 65536, hardness: 131072 });
}

#[test]
fn circle_aa_radius_one() {
    let mut rec = Recorder::new(64, 64);
    draw_circle_aa(0, 0, 1, &mut rec, Brush::Pixel);
    let want = shaded(
        &[
            (0, 1, None), (0, -1, None), (1, 0, None), (-1, 0, None), (1, 1, Some(0)),
            (-1, 1, Some(0)), (-1, -1, Some(0)), (1, -1, Some(0)),
        ],
        1,
    );
    assert_eq!(rec.pixels(), &want);
}

#[test]
fn circle_aa_radius_three() {
    let mut rec = Recorder::new(64, 64);
    draw_circle_aa(0, 0, 3, &mut rec, Brush::Pixel);
    let want = shaded(
        &[
            (0, 3, None), (0, -3, None), (3, 0, None), (-3, 0, None), (3, 1, Some(4)),
            (-1, 3, Some(4)), (-3, -1, Some(4)), (1, -3, Some(4)), (2, 1, Some(1)),
            (-1, 2, Some(1)), (-2, -1, Some(1)), (1, -2, Some(1)), (3, 2, Some(1)),
            (-2, 3, Some(1)), (-3, -2, Some(1)), (2, -3, Some(1)), (2, 2, Some(4)),
            (-2, 2, Some(4)), (-2, -2, Some(4)), (2, -2, Some(4)), (2, 3, Some(1)),
            (-3, 2, Some(1)), (-2, -3, Some(1)), (3, -2, Some(1)), (1, 2, Some(1)),
            (-2, 1, Some(1)), (-1, -2, Some(1)), (2, -1, Some(1)), (1, 3, Some(4)),
            (-3, 1, Some(4)), (-1, -3, Some(4)), (3, -1, Some(4)),
        ],
        5,
    );
    assert_eq!(rec.pixels(), &want);
}

#[test]
fn circle_aa_radius_six_off_centre() {
    let mut rec = Recorder::new(64, 64);
    draw_circle_aa(5, -4, 6, &mut rec, Brush::Pixel);
    let want = shaded(
        &[
            (5, 2, None), (5, -10, None), (11, -4, None), (-1, -4, None), (11, -3, Some(10)),
            (4, 2, Some(10)), (-1, -5, Some(10)), (6, -10, Some(10)), (10, -3, Some(1)),
            (4, 1, Some(1)), (0, -5, Some(1)), (6, -9, Some(1)), (11, -2, Some(7)),
            (3, 2, Some(7)), (-1, -6, Some(7)), (7, -10, Some(7)), (10, -2, Some(4)),
            (3, 1, Some(4)), (0, -6, Some(4)), (7, -9, Some(4)), (11, -1, Some(2)),
            (2, 2, Some(2)), (-1, -7, Some(2)), (8, -10, Some(2)), (10, -1, Some(9)),
            (2, 1, Some(9)), (0, -7, Some(9)), (8, -9, Some(9)), (10, 0, Some(6)),
            (1, 1, Some(6)), (0, -8, Some(6)), (9, -9, Some(6)), (9, 0, Some(7)),
            (1, 0, Some(7)), (1, -8, Some(7)), (9, -8, Some(7)), (9, 1, Some(6)),
            (0, 0, Some(6)), (1, -9, Some(6)), (10, -8, Some(6)), (8, 1, Some(9)),
            (0, -1, Some(9)), (2, -9, Some(9)), (10, -7, Some(9)), (8, 2, Some(2)),
            (-1, -1, Some(2)), (2, -10, Some(2)), (11, -7, Some(2)), (7, 1, Some(4)),
            (0, -2, Some(4)), (3, -9, Some(4)), (10, -6, Some(4)), (7, 2, Some(7)),
            (-1, -2, Some(7)), (3, -10, Some(7)), (11, -6, Some(7)), (6, 1, Some(1)),
            (0, -3, Some(1)), (4, -9, Some(1)), (10, -5, Some(1)), (6, 2, Some(10)),
            (-1, -3, Some(10)), (4, -10, Some(10)), (11, -5, Some(10)),
        ],
        11,
    );
    assert_eq!(rec.pixels(), &want);
}

#[test]
fn circle_aa_radius_zero_is_the_four_poles_at_distance_one() {
    let mut rec = Recorder::new(64, 64);
    draw_circle_aa(2, 2, 0, &mut rec, Brush::Pixel);
    let want = shaded(&[(2, 3, None), (2, 1, None), (3, 2, None), (1, 2, None)], 1);
    assert_eq!(rec.pixels(), &want);
}

#[test]
fn circle_aa_coverage_lies_between_zero_and_one() {
    for r in 1..120i64 {
        let mut rec = Recorder::new(64, 64);
        draw_circle_aa(-4, 9, r, &mut rec, Brush::Pixel);
        let px = rec.pixels();
        assert!(px.len() >= 4);
        assert!(px[..4].iter().all(|p| p.coverage == Coverage::full()));
        for p in &px[4..] {
            assert!(p.x != -4 && p.y != 9);
            assert!((p.x + 4).abs() <= r && (p.y - 9).abs() <= r);
            match p.coverage.fraction {
                Fraction::Ratio { num, den } => {
                    assert_eq!(den, 2 * r as i128 - 1);
                    assert!(0 <= num && num <= den);
                }
                _ => panic!("a ratio was expected"),
            }
        }
    }
}
