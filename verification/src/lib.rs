//! Static whole-program analysis over a compiler's intermediate
//! representation: a call graph of statically resolvable calls, fork-point
//! detection (multi-successor control-flow instructions with source
//! locations), and bounded-depth reachability queries that restrict the
//! fork-point report to functions near a chosen entry point.
#![verifier::loop_isolation(false)]

pub mod analysis;
pub mod call_graph;
pub mod ir;
pub mod src_loc;
pub mod text;
pub mod transformation;
