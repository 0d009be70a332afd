//! A collection of small, independent studies of Rust's type system and of
//! low-level numeric code, each stated with a machine-checked contract.
//!
//! The numeric core is [`rsqrt`]: the fast approximate inverse square root of
//! an IEEE-754 single-precision number, computed bit for bit on its 32-bit
//! pattern with the software arithmetic of [`ieee`], together with the proof
//! that the approximation of a positive normal number is a positive normal
//! number within two thousandths of the inverse square root.
//!
//! Numbers are bit patterns throughout: a `u32` stands for the
//! single-precision number with these bits, as the standard library reads
//! them with `from_bits` and writes them with `to_bits`.
pub mod adts;
pub mod brands;
pub mod collect;
pub mod dependent;
pub mod dispatch;
pub mod errors;
pub mod ieee;
pub mod macros;
pub mod memory;
pub mod orphan;
pub mod rc;
pub mod rsqrt;
pub mod typing;
