//! The interrupt controller.
pub mod gic;
pub mod lines;
