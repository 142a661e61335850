//! The stochastic search drivers.

pub mod algorithm;
