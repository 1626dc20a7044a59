//! Polynomials with coefficients in the integers modulo a fixed order.

pub mod math;
