//! Exact coverage values.
//!
//! A coverage is the share of a pixel that the ideal, infinitely thin
//! primitive covers.  The rasterisers compute with integers only, so a
//! coverage is kept as what it is made of: a fraction of integers, and for a
//! pixel of a stamped dot the data of its falloff.  Turning that into a
//! number is left to the sink.

use vstd::prelude::*;

verus! {

/// A fraction of integers.
#[derive(Clone, Copy, Debug, PartialEq, Eq, Structural)]
pub enum Fraction {
    /// The whole: `1`.
    One,
    /// The quotient `num / den`.
    Ratio { num: i128, den: i128 },
    /// One less `deficit` times the reciprocal of an edge length.  The edge
    /// length is that of a gradient with the components `major` and `minor`,
    /// estimated without a square root as
    /// `major + 2 * major * minor^2 / (4 * major^2 + minor^2)`.
    Edge { deficit: i128, major: i128, minor: i128 },
}

/// The components of an edge estimate stay below this in magnitude, so that
/// its sign can be found in 128 bits.
pub const EDGE_LIMIT: i128 = 0x4000_0000_0000_0000;

impl Fraction {
    /// No division by zero, and an edge estimate within its limit.
    pub open spec fn wf(self) -> bool {
        match self {
            Fraction::One => true,
            Fraction::Ratio { num, den } => den > 0,
            Fraction::Edge { deficit, major, minor } => 1 <= major < EDGE_LIMIT && -EDGE_LIMIT
                < minor < EDGE_LIMIT,
        }
    }

    /// The numerator of the exact value (over `denom`).
    pub open spec fn numer(self) -> int {
        match self {
            Fraction::One => 1,
            Fraction::Ratio { num, den } => num as int,
            Fraction::Edge { deficit, major, minor } => major * (4 * (major * major) + 3 * (minor
                * minor)) - deficit * (4 * (major * major) + minor * minor),
        }
    }

    /// The denominator of the exact value; positive for a well-formed
    /// fraction.
    pub open spec fn denom(self) -> int {
        match self {
            Fraction::One => 1,
            Fraction::Ratio { num, den } => den as int,
            Fraction::Edge { deficit, major, minor } => major * (4 * (major * major) + 3 * (minor
                * minor)),
        }
    }

    /// Whether the exact value is above zero.
    pub open spec fn positive(self) -> bool {
        self.numer() > 0
    }

    /// The fraction nothing: `0 / 1`.
    pub open spec fn spec_zero() -> Fraction {
        Fraction::Ratio { num: 0, den: 1 }
    }

    /// The exact value clamped to the range from zero to one.
    pub open spec fn spec_clamped(self) -> Fraction {
        if self.numer() <= 0 {
            Fraction::spec_zero()
        } else if self.numer() >= self.denom() {
            Fraction::One
        } else {
            self
        }
    }

    /// Clamps the fraction to the range from zero to one: nothing where it
    /// is not above zero, the whole where it is not below one, and itself in
    /// between.
    pub fn clamped(self) -> (r: Fraction)
        requires
            self.wf(),
        ensures
            r == self.spec_clamped(),
            r.wf(),
            0 <= r.numer() <= r.denom(),
    {
        match self {
            Fraction::One => Fraction::One,
            Fraction::Ratio { num, den } => {
                if num <= 0 {
                    Fraction::Ratio { num: 0, den: 1 }
                } else if num >= den {
                    Fraction::One
                } else {
                    self
                }
            },
            Fraction::Edge { deficit, major, minor } => {
                proof {
                    lemma_edge_parts(deficit, major, minor);
                }
                if !edge_positive(deficit, major, minor) {
                    Fraction::Ratio { num: 0, den: 1 }
                } else if deficit <= 0 {
                    Fraction::One
                } else {
                    self
                }
            },
        }
    }

    /// Whether the exact value is above zero.
    pub fn is_positive(&self) -> (r: bool)
        requires
            self.wf(),
        ensures
            r == self.positive(),
    {
        match self {
            Fraction::One => true,
            Fraction::Ratio { num, den } => *num > 0,
            Fraction::Edge { deficit, major, minor } => edge_positive(*deficit, *major, *minor),
        }
    }
}

/// The denominator of an edge-scaled fraction is positive, and the numerator
/// reaches it exactly where the deficit is not above zero.
pub proof fn lemma_edge_parts(deficit: i128, major: i128, minor: i128)
    requires
        major >= 1,
    ensures
        (Fraction::Edge { deficit, major, minor }).denom() > 0,
        (Fraction::Edge { deficit, major, minor }).numer() >= (Fraction::Edge {
            deficit,
            major,
            minor,
        }).denom() <==> deficit <= 0,
{
    let mm = major * major;
    let ii = minor * minor;
    let small = 4 * mm + ii;
    let large = 4 * mm + 3 * ii;
    assert(mm >= 1 && ii >= 0) by (nonlinear_arith)
        requires
            mm == major * major,
            ii == minor * minor,
            major >= 1,
    ;
    assert(major * large > 0) by (nonlinear_arith)
        requires
            major >= 1,
            large >= 4,
    ;
    assert((deficit * small <= 0) == (deficit <= 0)) by (nonlinear_arith)
        requires
            small >= 4,
    ;
}

/// An edge-scaled fraction is not above zero once the deficit exceeds the
/// greater component by half the smaller one.
pub proof fn lemma_edge_not_positive(deficit: i128, major: i128, minor: i128)
    requires
        major >= 1,
        0 <= minor,
        2 * (deficit - major) >= minor,
    ensures
        !(Fraction::Edge { deficit, major, minor }).positive(),
{
    let d = deficit - major;
    let mm = major * major;
    let ii = minor * minor;
    let mi = major * minor;
    assert(4 * mm + ii >= 4 * mi) by (nonlinear_arith)
        requires
            mm == major * major,
            ii == minor * minor,
            mi == major * minor,
    ;
    assert(mi >= 0) by (nonlinear_arith)
        requires
            mi == major * minor,
            major >= 1,
            minor >= 0,
    ;
    assert(d * (4 * mm + ii) >= d * (4 * mi)) by (nonlinear_arith)
        requires
            d >= 0,
            4 * mm + ii >= 4 * mi,
    ;
    assert(d * (4 * mi) >= 2 * (mi * minor)) by (nonlinear_arith)
        requires
            2 * d >= minor,
            mi >= 0,
    ;
    assert(mi * minor == major * ii) by (nonlinear_arith)
        requires
            mi == major * minor,
            ii == minor * minor,
    ;
    assert(major * (4 * mm + 3 * ii) - deficit * (4 * mm + ii) == 2 * (major * ii) - d * (4 * mm
        + ii)) by (nonlinear_arith)
        requires
            d == deficit - major,
    ;
}

/// The product of `x` and `y` in two parts: `r.0 * 2^64 + r.1`, with
/// `r.1 < 2^64`.
fn mul_wide(x: u128, y: u128) -> (r: (u128, u128))
    requires
        x < 0x8000_0000_0000_0000_0000_0000_0000_0000,
        y < 0x1_0000_0000_0000_0000,
    ensures
        r.0 * 0x1_0000_0000_0000_0000 + r.1 == x * y,
        r.1 < 0x1_0000_0000_0000_0000,
{
    let x1: u128 = x / 0x1_0000_0000_0000_0000;
    let x0: u128 = x % 0x1_0000_0000_0000_0000;
    proof {
        assert(x1 * y <= 0x7fff_ffff_ffff_ffff * 0xffff_ffff_ffff_ffff) by (nonlinear_arith)
            requires
                0 <= x1 <= 0x7fff_ffff_ffff_ffff,
                0 <= y <= 0xffff_ffff_ffff_ffff,
        ;
        assert(x0 * y <= 0xffff_ffff_ffff_ffff * 0xffff_ffff_ffff_ffff) by (nonlinear_arith)
            requires
                0 <= x0 <= 0xffff_ffff_ffff_ffff,
                0 <= y <= 0xffff_ffff_ffff_ffff,
        ;
        assert(x * y == x1 * y * 0x1_0000_0000_0000_0000 + x0 * y) by (nonlinear_arith)
            requires
                x == x1 * 0x1_0000_0000_0000_0000 + x0,
        ;
    }
    let high: u128 = x1 * y;
    let low: u128 = x0 * y;
    (high + low / 0x1_0000_0000_0000_0000, low % 0x1_0000_0000_0000_0000)
}

/// Whether `x * y < p * q`, for factors whose products may not fit in 128
/// bits.
fn product_less(x: u128, y: u128, p: u128, q: u128) -> (r: bool)
    requires
        x < 0x8000_0000_0000_0000_0000_0000_0000_0000,
        y < 0x1_0000_0000_0000_0000,
        p < 0x8000_0000_0000_0000_0000_0000_0000_0000,
        q < 0x1_0000_0000_0000_0000,
    ensures
        r == (x * y < p * q),
{
    let a = mul_wide(x, y);
    let b = mul_wide(p, q);
    a.0 < b.0 || (a.0 == b.0 && a.1 < b.1)
}

/// Whether `1 - deficit / edge` is above zero, where `edge` is the estimate
/// for the components `major` and `minor`: that is, whether
/// `deficit * (4 * major^2 + minor^2) < major * (4 * major^2 + 3 * minor^2)`.
#[verifier::rlimit(50)]
fn edge_positive(deficit: i128, major: i128, minor: i128) -> (r: bool)
    requires
        1 <= major < EDGE_LIMIT,
        -EDGE_LIMIT < minor < EDGE_LIMIT,
    ensures
        r == (Fraction::Edge { deficit, major, minor }).positive(),
{
    let ghost mm = major * major;
    let ghost ii = minor * minor;
    let ghost small = 4 * mm + ii;
    let ghost large = 4 * mm + 3 * ii;
    proof {
        assert(mm >= 1 && ii >= 0) by (nonlinear_arith)
            requires
                mm == major * major,
                ii == minor * minor,
                major >= 1,
        ;
        assert(major * large > 0) by (nonlinear_arith)
            requires
                major >= 1,
                large >= 4,
        ;
        assert(major * large == major * small + 2 * (major * ii)) by (nonlinear_arith)
            requires
                large == small + 2 * ii,
        ;
        assert(major * ii >= 0) by (nonlinear_arith)
            requires
                major >= 1,
                ii >= 0,
        ;
    }
    if deficit < major {
        proof {
            assert(deficit * small <= major * small - small) by (nonlinear_arith)
                requires
                    deficit <= major - 1,
                    small >= 0,
            ;
        }
        return true;
    }
    let m: u128 = major as u128;
    let i: u128 = if minor < 0 { (-minor) as u128 } else { minor as u128 };
    proof {
        assert(i * i == ii) by (nonlinear_arith)
            requires
                i == minor || i == -minor,
                ii == minor * minor,
        ;
    }
    if deficit == major {
        proof {
            assert((major * ii > 0) == (i != 0)) by (nonlinear_arith)
                requires
                    major >= 1,
                    ii == i * i,
                    i >= 0,
            ;
        }
        return i != 0;
    }
    let ghost d = deficit - major;
    proof {
        assert(deficit * small == major * small + d * small) by (nonlinear_arith)
            requires
                d == deficit - major,
        ;
    }
    if deficit - major >= 2 * major {
        proof {
            assert(d * small >= 2 * major * ii) by (nonlinear_arith)
                requires
                    d >= 2 * major,
                    small >= ii,
                    ii >= 0,
                    major >= 1,
            ;
            assert(2 * major * ii == 2 * (major * ii)) by (nonlinear_arith);
        }
        return false;
    }
    let over: u128 = (deficit - major) as u128;
    let rest: u128 = 2 * m - over;
    proof {
        assert(m * m < 0x4000_0000_0000_0000 * 0x4000_0000_0000_0000) by (nonlinear_arith)
            requires
                1 <= m < 0x4000_0000_0000_0000,
        ;
        assert(over * m < 2 * (m * m)) by (nonlinear_arith)
            requires
                1 <= over < 2 * m,
        ;
        assert(rest * i < 0x8000_0000_0000_0000 * 0x4000_0000_0000_0000) by (nonlinear_arith)
            requires
                0 <= rest < 0x8000_0000_0000_0000,
                0 <= i < 0x4000_0000_0000_0000,
        ;
    }
    let r = product_less(4 * (over * m), m, rest * i, i);
    proof {
        // d * small < 2 * major * ii  <==>  4 * d * mm < (2 * major - d) * ii
        assert(4 * (over * m) * m == 4 * (d * mm)) by (nonlinear_arith)
            requires
                over == d,
                m == major,
                mm == major * major,
        ;
        assert(rest * i * i == 2 * (major * ii) - d * ii) by (nonlinear_arith)
            requires
                rest == 2 * major - d,
                ii == i * i,
        ;
        assert(d * small == 4 * (d * mm) + d * ii) by (nonlinear_arith)
            requires
                small == 4 * mm + ii,
        ;
    }
    r
}

/// How a pixel of a stamped dot is weakened with its distance from the dot's
/// centre.
#[derive(Clone, Copy, Debug, PartialEq, Eq, Structural)]
pub enum Falloff {
    /// No weakening: the pixel is not part of a dot.
    Flat,
    /// The weight `exp(-(d / (width / 2)) ^ (2 ^ hardness))` at the distance
    /// `d = sqrt(dist_sq)` pixels.  `width` and `hardness` count in 1/65536.
    Gaussian { dist_sq: u64, width: u32, hardness: u32 },
}

/// How much of a pixel is covered: a fraction, times the weight of a falloff.
///
/// Producers do not clamp.  The value may lie outside `[0, 1]`, and whoever
/// consumes it clamps it there.
#[derive(Clone, Copy, Debug, PartialEq, Eq, Structural)]
pub struct Coverage {
    pub fraction: Fraction,
    pub falloff: Falloff,
}

impl Coverage {
    /// A coverage that a sink can evaluate.
    pub open spec fn wf(self) -> bool {
        self.fraction.wf()
    }

    /// The whole pixel, as a value.
    pub open spec fn spec_full() -> Coverage {
        Coverage { fraction: Fraction::One, falloff: Falloff::Flat }
    }

    /// One less `deficit` times the reciprocal of the edge estimate for
    /// `major` and `minor`, as a value.
    pub open spec fn spec_edge(deficit: int, major: int, minor: int) -> Coverage {
        Coverage {
            fraction: Fraction::Edge {
                deficit: deficit as i128,
                major: major as i128,
                minor: minor as i128,
            },
            falloff: Falloff::Flat,
        }
    }

    /// The fraction `num / den` of a pixel, as a value.
    pub open spec fn spec_ratio(num: int, den: int) -> Coverage {
        Coverage {
            fraction: Fraction::Ratio { num: num as i128, den: den as i128 },
            falloff: Falloff::Flat,
        }
    }

    /// This coverage at the squared distance `dist_sq` from the centre of a
    /// dot of the given width and hardness.
    pub open spec fn spec_under(self, dist_sq: int, width: u32, hardness: u32) -> Coverage {
        Coverage {
            fraction: self.fraction,
            falloff: Falloff::Gaussian { dist_sq: dist_sq as u64, width, hardness },
        }
    }

    /// The whole pixel.
    pub fn full() -> (c: Coverage)
        ensures
            c == Coverage::spec_full(),
            c.wf(),
    {
        Coverage { fraction: Fraction::One, falloff: Falloff::Flat }
    }

    /// The fraction `num / den` of a pixel.
    pub fn ratio(num: i128, den: i128) -> (c: Coverage)
        requires
            den > 0,
        ensures
            c == Coverage::spec_ratio(num as int, den as int),
            c.wf(),
    {
        Coverage { fraction: Fraction::Ratio { num, den }, falloff: Falloff::Flat }
    }

    /// One less `deficit` times the reciprocal of the edge estimate for
    /// `major` and `minor`.
    pub fn edge(deficit: i128, major: i128, minor: i128) -> (c: Coverage)
        requires
            1 <= major < EDGE_LIMIT,
            -EDGE_LIMIT < minor < EDGE_LIMIT,
        ensures
            c == Coverage::spec_edge(deficit as int, major as int, minor as int),
            c.wf(),
    {
        Coverage { fraction: Fraction::Edge { deficit, major, minor }, falloff: Falloff::Flat }
    }

    /// This coverage at the squared distance `dist_sq` from the centre of a
    /// dot of the given width and hardness.  A falloff that the coverage
    /// already has gives way to the new one.
    pub fn under(self, dist_sq: u64, width: u32, hardness: u32) -> (c: Coverage)
        ensures
            c == self.spec_under(dist_sq as int, width, hardness),
            c.wf() == self.wf(),
    {
        Coverage { fraction: self.fraction, falloff: Falloff::Gaussian { dist_sq, width, hardness } }
    }

    /// Whether the fraction is above zero.
    pub fn is_positive(&self) -> (r: bool)
        requires
            self.wf(),
        ensures
            r == self.fraction.positive(),
    {
        self.fraction.is_positive()
    }
}

} // verus!
