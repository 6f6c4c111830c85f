//! A spatial index for 2- and 4-dimensional integer points built on Z-order
//! (Morton) curve linearization.
//!
//! The crate provides the bijective Morton codec between coordinate lanes and
//! a single 64-bit key, the order-preserving lane transform for IEEE-754
//! single-precision bit patterns, a Z-order indexer answering rectangle
//! membership and BIGMIN successor queries, and a point store with verified
//! range and nearest-neighbor scans.

pub mod indexer;
pub mod morton;
pub mod nearest;
pub mod store;
