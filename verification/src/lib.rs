//! A quote-style rewriting engine.
//!
//! The library partitions arbitrary text into plain runs, escape pairs and
//! quoted literals, then rewrites each literal's delimiters according to a
//! conversion mode, suppressing any conversion that would let the new
//! delimiter collide with the literal's content.

pub mod segment;
pub mod scan;
pub mod transform;
pub mod laws;
