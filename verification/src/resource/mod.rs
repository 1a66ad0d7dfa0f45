//! Devices and who may use them.
pub mod pci;
pub mod protect;
pub mod resources;
pub mod tree;
