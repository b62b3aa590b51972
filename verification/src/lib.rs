//! Verified numeric benchmark kernels.
//!
//! Each module holds one self-contained kernel over flat numeric buffers:
//! a prime sieve, a stable merge sort, a 3x3 Gaussian blur over RGBA
//! pixels, an iterative k-means clustering pass, and the index schedule of
//! a radix-2 butterfly transform. The kernels share no state; every call
//! reads its inputs and returns a freshly computed buffer.

pub mod blur;
pub mod butterfly;
pub mod kmeans;
pub mod sieve;
pub mod sort;
