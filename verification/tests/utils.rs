use rust_plot::image_plot::pixel_position;
use rust_plot::plot::coverage::{Coverage, Falloff, Fraction};
use rust_plot::utils::{clamp, lerp, min_max, scale};

#[test]
fn min_max_orders_a_pair() {
    assert_eq!(min_max(2, 1), (1, 2));
    assert_eq!(min_max(1, 2), (1, 2));
    assert_eq!(min_max(-3i64, -3), (-3, -3));
    assert_eq!(min_max("b", "a"), ("a", "b"));
    assert_eq!(min_max(2.5, 1.5), (1.5, 2.5));
}

#[test]
fn clamp_limits_a_value() {
    assert_eq!(clamp(15u32, 0, 5), 5);
    assert_eq!(clamp(-4, 0, 5), 0);
    assert_eq!(clamp(3, 0, 5), 3);
    assert_eq!(clamp(0, 0, 5), 0);
    assert_eq!(clamp(5, 0, 5), 5);
    assert_eq!(clamp(1.5, 0.0, 1.0), 1.0);
    assert_eq!(clamp(-0.5, 0.0, 1.0), 0.0);
}

#[test]
fn lerp_interpolates_in_integers() {
    // the slope 3 / 1
    assert_eq!(lerp(2, 0, 0, 1, 3), 6);
    // the slope 7 / 2 is rounded towards zero before it is used
    assert_eq!(lerp(3, 1, 10, 3, 17), 16);
    assert_eq!(lerp(3, 1, 10, 3, 3), 4);
    assert_eq!(lerp(0, 4, 1, 2, 8), 13);
}

#[test]
fn scale_maps_between_ranges() {
    assert_eq!(scale(5, 0, 10, 0, 100), 50);
    assert_eq!(scale(1, 0, 3, 0, 10), 3);
    assert_eq!(scale(-1, 0, 3, 0, 10), -3);
    assert_eq!(scale(7, 5, 10, -20, 20), -4);
    assert_eq!(scale(2, 10, 0, 0, 5), 4);
}

#[test]
fn pixel_position_flips_the_rows() {
    assert_eq!(pixel_position(4, 3, 0, 0), Some((0, 2)));
    assert_eq!(pixel_position(4, 3, 3, 2), Some((3, 0)));
    assert_eq!(pixel_position(4, 3, 1, 1), Some((1, 1)));
}

#[test]
fn pixel_position_drops_what_lies_outside() {
    assert_eq!(pixel_position(4, 3, 4, 0), None);
    assert_eq!(pixel_position(4, 3, 0, 3), None);
    assert_eq!(pixel_position(4, 3, -1, 0), None);
    assert_eq!(pixel_position(4, 3, 0, -1), None);
    assert_eq!(pixel_position(0, 0, 0, 0), None);
    assert_eq!(pixel_position(u32::MAX, u32::MAX, i64::MAX, 0), None);
    assert_eq!(
        pixel_position(u32::MAX, u32::MAX, 4294967294, 4294967294),
        Some((4294967294, 0))
    );
}

fn edge_value(deficit: i128, major: i128, minor: i128) -> f64 {
    let (m, i) = (major as f64, minor as f64);
    1.0 - deficit as f64 / (m + 2.0 * m * i * i / (4.0 * m * m + i * i))
}

#[test]
fn coverage_sign_is_exact() {
    assert!(Coverage::full().is_positive());
    assert!(Coverage::ratio(1, 1000).is_positive());
    assert!(!Coverage::ratio(0, 1000).is_positive());
    assert!(!Coverage::ratio(-1, 1000).is_positive());
    // the edge estimate for 128 and 108 is 128 * 100528 / 77200, about 166.68
    assert!(Coverage::edge(166, 128, 108).is_positive());
    assert!(!Coverage::edge(167, 128, 108).is_positive());
    assert!(Coverage::edge(-5, 128, 108).is_positive());
    // without a minor component the estimate is the major one
    assert!(Coverage::edge(127, 128, 0).is_positive());
    assert!(!Coverage::edge(128, 128, 0).is_positive());
    assert!(Coverage::edge(128, 128, 1).is_positive());
    assert!(Coverage::edge(128, 128, -1).is_positive());
}

#[test]
fn coverage_sign_agrees_with_floating_point() {
    let big: i128 = (1 << 62) - 1;
    for &(major, minor) in &[(1i128, 0i128), (7, 3), (300, 256), (big, big), (big, 1), (5, -big)] {
        for deficit in [major - 1, major, major + 1, major + major / 3, 2 * major, 3 * major] {
            let v = edge_value(deficit, major, minor);
            if v.abs() > 1e-9 {
                assert_eq!(Coverage::edge(deficit, major, minor).is_positive(), v > 0.0);
            }
        }
    }
    // where floating point cannot tell, the exact sign still can
    assert!(Coverage::edge(big, big, 1).is_positive());
    assert!(!Coverage::edge(big, big, 0).is_positive());
}

#[test]
fn fractions_clamp_to_the_unit_range() {
    let zero = Fraction::Ratio { num: 0, den: 1 };
    assert_eq!(Fraction::One.clamped(), Fraction::One);
    assert_eq!(Fraction::Ratio { num: 3, den: 4 }.clamped(), Fraction::Ratio { num: 3, den: 4 });
    assert_eq!(Fraction::Ratio { num: 4, den: 4 }.clamped(), Fraction::One);
    assert_eq!(Fraction::Ratio { num: 9, den: 4 }.clamped(), Fraction::One);
    assert_eq!(Fraction::Ratio { num: 0, den: 4 }.clamped(), zero);
    assert_eq!(Fraction::Ratio { num: -1, den: 4 }.clamped(), zero);
    let inside = Fraction::Edge { deficit: 92, major: 128, minor: 108 };
    assert_eq!(inside.clamped(), inside);
    assert_eq!(Fraction::Edge { deficit: 167, major: 128, minor: 108 }.clamped(), zero);
    assert_eq!(Fraction::Edge { deficit: 0, major: 128, minor: 108 }.clamped(), Fraction::One);
    assert_eq!(Fraction::Edge { deficit: -9, major: 128, minor: 108 }.clamped(), Fraction::One);
}

#[test]
fn coverage_under_a_falloff_keeps_its_fraction() {
    let c = Coverage::ratio(1, 2).under(13, 70000, 65536);
    assert_eq!(c.fraction, Fraction::Ratio { num: 1, den: 2 });
    assert_eq!(c.falloff, Falloff::Gaussian { dist_sq: 13, width: 70000, hardness: 65536 });
    assert_eq!(Coverage::full().falloff, Falloff::Flat);
    assert_eq!(Coverage::edge(1, 2, 3).fraction, Fraction::Edge { deficit: 1, major: 2, minor: 3 });
}
