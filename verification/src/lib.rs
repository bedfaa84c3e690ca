//! Sanity verification for a tracing garbage collector: a second, stricter
//! whole-heap trace run after a collection, the capture of what that trace
//! saw as a heap graph, the binary form of such a capture, and its replay.

pub mod addr_hashing_bit;
pub mod closure;
pub mod codec;
pub mod format;
pub mod heapdump;
pub mod host;
pub mod image;
pub mod laws;
pub mod process_edges;
pub mod sanity_checker;
pub mod sanity_work;
pub mod shapes;
pub mod tib;
pub mod varint;
pub mod wire;
