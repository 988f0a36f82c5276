//! Level-1 vector kernels over strided views of caller-owned storage.
//!
//! The element arithmetic is supplied by the caller as closures, so every kernel is
//! generic over the element type; the library itself fixes the addressing, the order in
//! which elements are visited, and which slots of the storage are read and written.

pub mod stride;
pub mod kernels;
pub mod reduce;
pub mod givens;
pub mod laws;

pub use kernels::{axpy, copy, rot, scal, swap};
pub use reduce::{accumulate, dot};
pub use stride::{slot, step_of, storage_len};
