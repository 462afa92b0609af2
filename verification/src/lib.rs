//! Reconstruction of hierarchical discussion threads from flat forum post
//! records: an incremental forest (`graph::ThreadGraph`) over post ids with
//! placeholder synthesis for unseen parents, depth-first traversal into
//! per-thread text sequences, text normalization and length counting
//! (`processing`), JSON-line record framing (`record`), and a byte-budget
//! shard policy (`shard`).

pub mod args;
pub mod fileorder;
pub mod graph;
pub mod pipeline;
pub mod post;
pub mod processing;
pub mod record;
pub mod shard;
pub mod text;

use vstd::prelude::*;

verus! {

} // verus!
