//! Kernels

use vstd::prelude::*;

verus! {

/// Kernel function: a density weight for a normalized distance.
pub trait Kernel<A>: Copy + Sync {
    /// Apply the kernel function to the given x-value.
    fn evaluate(&self, x: A) -> A;
}

/// Gaussian kernel
#[derive(Clone, Copy)]
pub struct Gaussian;

} // verus!
