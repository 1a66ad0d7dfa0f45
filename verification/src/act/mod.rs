//! Inference with a fixed ACT network: where its weights are and how its memory is laid out. The
//! arithmetic itself is done by whoever runs the plan.
pub mod dataflow;
pub mod engine;
pub mod kernels;
pub mod network;
pub mod plan;
pub mod safetensors;
pub mod tracing;

use vstd::prelude::*;

verus! {

/// Why a model cannot be used.
#[derive(Clone, Copy, Debug, PartialEq, Eq, Structural)]
pub enum Error {
    InvalidSafetensors,
    UnsupportedDtype,
    TensorNotFound,
    ShapeMismatch,
    WorkspaceTooSmall,
    AclProviderUnavailable,
}

/// Who does the arithmetic.
#[derive(Clone, Copy, Debug, PartialEq, Eq, Structural)]
pub enum KernelProvider {
    PortableNeon,
    AclNeon,
}

#[derive(Clone, Copy, Debug, PartialEq, Eq, Structural)]
pub struct LoadOptions {
    pub provider: KernelProvider,
    pub threads: usize,
}

} // verus!
