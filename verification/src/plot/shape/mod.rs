//! Outlines of closed shapes.

pub mod circle;
pub mod ellipse;
