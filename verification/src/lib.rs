//! Verified core of a CPU path tracer: the decisions that do not depend on
//! how a floating-point number is computed.

pub mod chunk;
pub mod color;
pub mod frame;
pub mod intersect;
pub mod scalar;
pub mod scatter;
pub mod scheduler;
pub mod views;
