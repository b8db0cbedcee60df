//! A circular FIFO queue within a fixed-size buffer.
//!
//! A [`BoundedBuffer`] is created with a fixed positive capacity. Items are
//! pushed and popped in first-in-first-out order through a pair of cursors
//! that advance modulo the capacity. Pushing into a full queue and popping
//! from an empty one are recoverable errors that leave the queue unchanged.

pub mod buffer;
pub mod laws;

pub use buffer::BoundedBuffer;
pub use buffer::BufferError;
