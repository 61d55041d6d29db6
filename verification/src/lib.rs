//! Search/match orchestration for a tile-pyramid pattern search.
//!
//! The engine drives one search per output video frame: it scores a query
//! mask against batches of map tiles, harvests packed score buffers into a
//! top-K shortlist, and applies sequential-frame heuristics (anti-repeat
//! window, cross-frame pruning, error-feedback reweighting).  Scores travel
//! as exact fixed-point integers decoded from the device's half-precision
//! output, so every ranking decision is made on plain integers.

pub mod decode;
pub mod deform;
pub mod dispatch;
pub mod errmap;
pub mod harvest;
pub mod logfile;
pub mod mask;
pub mod num;
pub mod parse;
pub mod paths;
pub mod pipecache;
pub mod pool;
pub mod ring;
pub mod score;
pub mod search;
pub mod sequencer;
pub mod tiles;
pub mod topk;
