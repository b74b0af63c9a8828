//! Rasterisation of lines, circles and ellipses onto an abstract pixel sink.
//!
//! Every rasteriser is an integer algorithm.  Pixels are counted in `i64`.
//! Where a position, a width or a hardness has a fractional part, it is
//! counted in 1/65536.  Coverage values are kept exact, as fractions of
//! integers, and it is the sink that turns them into whatever numeric form
//! its pixels have.
//!
//! A sink implements [`plot::Plotter`]; [`plot::Draw`] then draws on it by
//! style, and [`plot::recorder::Recorder`] is the sink that simply keeps what
//! it receives.  Each rasteriser promises the exact sequence of pixels that
//! it hands to the sink, as a function of its arguments.

pub mod image_plot;
pub mod plot;
pub mod utils;
