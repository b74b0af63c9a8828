//! The rasterisers against the same algorithms written out with coverages in
//! floating point.

use rust_plot::plot::coverage::{Coverage, Falloff, Fraction};
use rust_plot::plot::recorder::Recorder;
use rust_plot::plot::shape::circle::{draw_circle, draw_circle_aa};
use rust_plot::plot::shape::ellipse::{draw_ellipse, draw_ellipse_aa};
use rust_plot::plot::Brush;

fn number(c: Coverage) -> f64 {
    assert_eq!(c.falloff, Falloff::Flat);
    match c.fraction {
        Fraction::One => 1.0,
        Fraction::Ratio { num, den } => num as f64 / den as f64,
        Fraction::Edge { deficit, major, minor } => {
            let (ed, i) = (major as f64, minor as f64);
            1.0 - deficit as f64 / (ed + 2.0 * ed * i * i / (4.0 * ed * ed + i * i))
        }
    }
}

fn same(rec: &Recorder, want: &[(i64, i64, f64)]) {
    assert_eq!(rec.len(), want.len());
    for (p, w) in rec.pixels().iter().zip(want.iter()) {
        assert_eq!((p.x, p.y), (w.0, w.1));
        assert!((number(p.coverage) - w.2).abs() < 1e-9, "{:?} against {:?}", p, w);
    }
}

fn float_line(x0: i64, y0: i64, x1: i64, y1: i64, out: &mut Vec<(i64, i64, f64)>) {
    let mut rec = Recorder::new(1, 1);
    rust_plot::plot::line::draw_line_bresenham(x0, y0, x1, y1, &mut rec, Brush::Pixel);
    out.extend(rec.pixels().iter().map(|p| (p.x, p.y, 1.0)));
}

fn float_circle(xm: i64, ym: i64, mut radius: i64) -> Vec<(i64, i64, f64)> {
    let mut out = Vec::new();
    let mut x = -radius;
    let mut y = 0;
    let mut err = 2 - 2 * radius;
    loop {
        out.push((xm - x, ym + y, 1.0));
        out.push((xm - y, ym - x, 1.0));
        out.push((xm + x, ym - y, 1.0));
        out.push((xm + y, ym + x, 1.0));
        radius = err;
        if radius <= y {
            y += 1;
            err += y * 2 + 1;
        }
        if radius > x || err > y {
            x += 1;
            err += x * 2 + 1;
        }
        if x >= 0 {
            break;
        }
    }
    out
}

fn float_circle_aa(xm: i64, ym: i64, mut radius: i64) -> Vec<(i64, i64, f64)> {
    let mut out = Vec::new();
    let mut x = radius;
    let mut y = 0;
    let mut err = 2 - 2 * radius;
    radius = 1 - err;
    out.push((xm, ym + (radius / 2 + 1), 1.0));
    out.push((xm, ym - (radius / 2 + 1), 1.0));
    out.push((xm + (radius / 2 + 1), ym, 1.0));
    out.push((xm - (radius / 2 + 1), ym, 1.0));
    let mut plot = |x: i64, y: i64, alpha: f64| {
        if !(x == xm || y == ym) {
            out.push((x, y, alpha));
        }
    };
    loop {
        let alpha = 1.0 - (err + 2 * (x + y) - 2).abs() as f64 / radius as f64;
        plot(xm + x, ym - y, alpha);
        plot(xm + y, ym + x, alpha);
        plot(xm - x, ym + y, alpha);
        plot(xm - y, ym - x, alpha);
        if x == 0 {
            break;
        }
        let e2 = err;
        let x_before = x;
        if e2 > y {
            let alpha = 1.0 - (err + 2 * x - 1) as f64 / radius as f64;
            if alpha > 0.0 {
                plot(xm + x, ym - y + 1, alpha);
                plot(xm + y - 1, ym + x, alpha);
                plot(xm - x, ym + y - 1, alpha);
                plot(xm - y + 1, ym - x, alpha);
            }
            x -= 1;
            err -= x * 2 - 1;
        }
        if e2 <= x_before {
            let x2 = x_before - 1;
            let alpha = 1.0 - (1 - 2 * y - e2) as f64 / radius as f64;
            if alpha > 0.0 {
                plot(xm + x2, ym - y, alpha);
                plot(xm + y, ym + x2, alpha);
                plot(xm - x2, ym + y, alpha);
                plot(xm - y, ym - x2, alpha);
            }
            y -= 1;
            err -= y * 2 - 1;
        }
    }
    out
}

fn float_ellipse(mut x0: i64, mut y0: i64, mut x1: i64, mut y1: i64) -> Vec<(i64, i64, f64)> {
    let mut out = Vec::new();
    let mut a = (x1 - x0).abs();
    let b = (y1 - y0).abs();
    if a == 0 || b == 0 {
        float_line(x0, y0, x1, y1, &mut out);
        return out;
    }
    let mut b1 = b & 0x1;
    let mut dx = 4 * (1 - a) * b * b;
    let mut dy = 4 * (b1 + 1) * a * a;
    let mut err = dx + dy + b1 * a * a;
    if x0 > x1 {
        x0 = x1;
        x1 += a;
    }
    if y0 > y1 {
        y0 = y1;
    }
    y0 += (b + 1) / 2;
    y1 = y0 - b1;
    a *= 8 * a;
    b1 = 8 * b * b;
    loop {
        out.push((x1, y0, 1.0));
        out.push((x0, y0, 1.0));
        out.push((x0, y1, 1.0));
        out.push((x1, y1, 1.0));
        let e2 = 2 * err;
        if e2 <= dy {
            y0 += 1;
            y1 -= 1;
            dy += a;
            err += dy;
        }
        if e2 >= dx || 2 * err > dy {
            x0 += 1;
            x1 -= 1;
            dx += b1;
            err += dx;
        }
        if x0 > x1 {
            break;
        }
    }
    while (y0 - y1) < b {
        out.push((x0 - 1, y0, 1.0));
        out.push((x1 + 1, y0, 1.0));
        out.push((x0 - 1, y1, 1.0));
        out.push((x1 + 1, y1, 1.0));
        y0 += 1;
        y1 -= 1;
    }
    out
}

fn float_ellipse_aa(mut x0: i64, mut y0: i64, mut x1: i64, mut y1: i64) -> Vec<(i64, i64, f64)> {
    let mut out = Vec::new();
    let mut a = (x1 - x0).abs();
    let b = (y1 - y0).abs();
    if a == 0 || b == 0 {
        float_line(x0, y0, x1, y1, &mut out);
        return out;
    }
    let aa = (x1 + x0) / 2;
    let bb = (y1 + y0) / 2;
    out.push((aa, y0, 1.0));
    out.push((x0, bb, 1.0));
    out.push((aa, y1, 1.0));
    out.push((x1, bb, 1.0));
    let mut plot = |x: i64, y: i64, alpha: f64| {
        if !(x == aa || y == bb) {
            out.push((x, y, alpha));
        }
    };
    let mut b1 = b & 0x1;
    let mut dx = 4 * (a - 1) * b * b;
    let mut dy = 4 * (b1 + 1) * a * a;
    let mut err = b1 * a * a - dx + dy;
    if x0 > x1 {
        x0 = x1;
        x1 += a;
    }
    if y0 > y1 {
        y0 = y1;
    }
    y0 += (b + 1) >> 1;
    y1 = y0 - b1;
    a = 8 * a * a;
    b1 = 8 * b * b;
    loop {
        let (i, ed) = if dx < dy { (dx, dy) } else { (dy, dx) };
        let ed: f64 = if y0 == (y1 + 1) && err > dy && a > b1 {
            4.0 / a as f64
        } else {
            let (ed, i) = (ed as f64, i as f64);
            1.0 / (ed + 2.0 * ed * i * i / (4.0 * ed * ed + i * i))
        };
        let alpha: f64 = 1.0 - ed * (err + dx - dy).abs() as f64;
        plot(x0, y0, alpha);
        plot(x0, y1, alpha);
        plot(x1, y0, alpha);
        plot(x1, y1, alpha);
        let f = 2 * err + dy;
        if f >= 0 {
            if x0 >= x1 {
                break;
            }
            let alpha = 1.0 - ed * (err + dx) as f64;
            if alpha > 0.0 {
                plot(x0, y0 + 1, alpha);
                plot(x0, y1 - 1, alpha);
                plot(x1, y0 + 1, alpha);
                plot(x1, y1 - 1, alpha);
            }
        }
        if 2 * err <= dx {
            let alpha = 1.0 - ed * (dy - err) as f64;
            if alpha > 0.0 {
                plot(x0 + 1, y0, alpha);
                plot(x1 - 1, y0, alpha);
                plot(x0 + 1, y1, alpha);
                plot(x1 - 1, y1, alpha);
            }
            y0 += 1;
            y1 -= 1;
            dy += a;
            err += dy;
        }
        if f > 0 {
            x0 += 1;
            x1 -= 1;
            dx -= b1;
            err -= dx;
        }
    }
    x0 -= 1;
    let met = x0 == x1;
    x1 += 1;
    if met {
        while (y0 - y1) < b {
            let alpha = 1.0 - 4.0 * (err + dx).abs() as f64 / b1 as f64;
            y0 += 1;
            plot(x0, y0, alpha);
            plot(x1, y0, alpha);
            y1 -= 1;
            plot(x0, y1, alpha);
            plot(x1, y1, alpha);
            dy += a;
            err += dy;
        }
    }
    out
}

#[test]
fn circles_agree_with_floating_point() {
    for r in -3..150i64 {
        let mut rec = Recorder::new(1, 1);
        draw_circle(11, -7, r, &mut rec, Brush::Pixel);
        same(&rec, &float_circle(11, -7, r));
    }
}

#[test]
fn antialiased_circles_agree_with_floating_point() {
    for r in 0..150i64 {
        let mut rec = Recorder::new(1, 1);
        draw_circle_aa(-2, 5, r, &mut rec, Brush::Pixel);
        same(&rec, &float_circle_aa(-2, 5, r));
    }
}

#[test]
fn ellipses_agree_with_floating_point() {
    for w in -12..40i64 {
        for h in -12..40i64 {
            let mut rec = Recorder::new(1, 1);
            draw_ellipse(3, -4, 3 + w, -4 + h, &mut rec, Brush::Pixel);
            same(&rec, &float_ellipse(3, -4, 3 + w, -4 + h));
        }
    }
}

#[test]
fn antialiased_ellipses_agree_with_floating_point() {
    for w in -12..40i64 {
        for h in -12..40i64 {
            let mut rec = Recorder::new(1, 1);
            draw_ellipse_aa(-5, 2, -5 + w, 2 + h, &mut rec, Brush::Pixel);
            same(&rec, &float_ellipse_aa(-5, 2, -5 + w, 2 + h));
        }
    }
}

#[test]
fn large_shapes_agree_with_floating_point() {
    let mut rec = Recorder::new(1, 1);
    draw_circle_aa(0, 0, 3000, &mut rec, Brush::Pixel);
    same(&rec, &float_circle_aa(0, 0, 3000));
    let mut rec = Recorder::new(1, 1);
    draw_ellipse(-1000, -700, 1001, 500, &mut rec, Brush::Pixel);
    same(&rec, &float_ellipse(-1000, -700, 1001, 500));
    let mut rec = Recorder::new(1, 1);
    draw_ellipse_aa(-1000, -700, 1000, 501, &mut rec, Brush::Pixel);
    same(&rec, &float_ellipse_aa(-1000, -700, 1000, 501));
    let mut rec = Recorder::new(1, 1);
    draw_ellipse_aa(0, 0, 601, 1999, &mut rec, Brush::Pixel);
    same(&rec, &float_ellipse_aa(0, 0, 601, 1999));
}
