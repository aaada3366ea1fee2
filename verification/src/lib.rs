//! Vector outlines of ArUco fiducial markers.
//!
//! A marker codeword is decoded into a square bitmap, framed with a black
//! border, and the outline of its black cells is traced as closed walks that
//! draw every edge of the outline once, joined by jumps of the pen. The walk
//! is then compressed into horizontal and vertical path segments that a
//! renderer can draw directly.

pub mod arith;
pub mod geometry;
pub mod graph;
pub mod codeword;
pub mod dictionary;
pub mod walk;
pub mod euler;
pub mod trace;
pub mod segments;
pub mod frame;
pub mod plugin;
