//! A tracing garbage collector for a small dynamically typed value model.
//!
//! The collector owns an allocation pool of boxes, hands out copyable
//! handles into that pool, and reclaims boxes unreachable from an explicit
//! root set with a stop-the-world mark-and-sweep pass.

pub mod gc;
pub mod object;
