//! Processors and their registers.
pub mod registers;
pub mod smp;
