//! A batched inference scheduler with a prefix-state cache.
//!
//! Many generation requests share a fixed number of model batch slots. Each
//! request is admitted into a slot (reusing any cached prefix state), advanced
//! one model step per tick, and streamed back to its caller until a stop
//! condition triggers. The model runtime, the tokenizer, the sampler and the
//! event transport are capabilities of the caller: this crate holds the
//! decisions — slot choice, cache checkout, slot/payload lifecycle, penalty
//! bookkeeping, stop-string matching and output buffering — and proves them.

pub mod tokens;
pub mod stop;
pub mod penalty;
pub mod context;
pub mod slots;
pub mod cache;
pub mod runtime;
