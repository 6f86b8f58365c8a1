//! Ordinary-least-squares simple linear regression over integer samples,
//! computed with exact integer statistics.

pub mod moments;
pub mod regression;
