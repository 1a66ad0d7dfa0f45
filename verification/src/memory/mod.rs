//! Physical pages, frames, page tables and address spaces.
pub mod frame;
pub mod mmu;
pub mod physical;
pub mod vspace;
