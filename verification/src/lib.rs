//! Opening preparation against a known opponent: the verified core.
//!
//! Positions are identified by their EPD text (board, side to move,
//! castling rights, en-passant square).  Chess rules come from `shakmaty`
//! through the trusted items of [`chess`]; everything else is proved here.

pub mod text;
pub mod analyzer;
pub mod config;
pub mod engine;
pub mod profiler;
pub mod scorer;
pub mod tree;
pub mod chess;
pub mod lines;
pub mod reachability;
pub mod annotator;
pub mod games;

pub use vstd::hash_map::StringHashMap;
pub use vstd::hash_set::StringHashSet;
