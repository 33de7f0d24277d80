//! Verified memory subsystem of a zero-knowledge virtual machine.
//!
//! The guest's memory is one flat byte buffer. Above the primary memory lies a
//! page table: a layered Merkle structure of page digests whose root commits to
//! the whole image. A transactional monitor mediates the guest's loads and
//! stores, buffers the writes of one instruction, applies them atomically and
//! records which pages were touched, so that paging cost can be charged.

pub mod arith;
pub mod digest;
pub mod geometry;
pub mod image;
pub mod layout;
pub mod monitor;
pub mod sha;
pub mod touch;
