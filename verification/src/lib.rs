//! HTTP inference with a tiny decoder-only transformer and continuous batching: what the server
//! decides, parses, formats and counts.

use vstd::prelude::*;

pub mod accuracy;
pub mod binary;
pub mod framing;
pub mod generation;
pub mod http;
pub mod json;
pub mod kv;
pub mod lm;
pub mod margin;
pub mod metrics;
pub mod number;
pub mod render;
pub mod replies;
pub mod sampler;
pub mod scheduler;
pub mod server;
pub mod text;
pub mod weights;
pub mod wire;

verus! {

/// The most tokens that a request can get.
pub const MAX_TOKENS_CAP: usize = 256;

/// The tokens of a request that does not say.
pub const DEFAULT_MAX_TOKENS: usize = 16;

/// The most jobs that the server decodes at a time.
pub const MAX_BATCH: usize = 8;

/// How long a client waits for its text.
pub const GEN_TIMEOUT_SECS: u64 = 30;

} // verus!
