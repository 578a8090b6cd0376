//! Arbitrary-precision unsigned integers over pluggable limb storage.
//!
//! An [`uint::UnsignedInteger`] keeps its limbs in a [`memory::WordArray`],
//! an array of 64-bit words that the host may implement over its own
//! memory. All room is asked for before it is written to, and a refusal is
//! an error value that the caller gets back.
//!
//! - [`arith_utils`]: `ceil(log2(x))` and division that rounds up.
//! - [`memory`]: the storage interface and two storages on the global
//!   allocator.
//! - [`limbs`]: the number that a sequence of limbs stands for.
//! - [`sums`]: what addition leaves in the limbs, and the laws it obeys.
//! - [`uint`]: the integer and its operations.
//! - [`string`]: parsing digits in a radix from 2 to 36.

pub mod arith_utils;
pub mod bit_length;
pub mod limbs;
pub mod memory;
pub mod string;
pub mod sums;
pub mod uint;
