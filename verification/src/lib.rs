//! Library for an electricity spot-price monitor: normalized price records,
//! an idempotent price store with daily aggregates, a provider-response
//! normalizer, and the per-cycle logic of the ingestion scheduler.
pub mod domain;
pub mod infrastructure;
pub mod utils;
