//! Text-entry assistance: a frequency-ranked prefix-completion index, an
//! n-gram chain predictor with a persisted cache, and a fuzzy-correction
//! generator, combined by a suggestion orchestrator.

pub mod text;
pub mod corpus;
pub mod interner;
pub mod freq;
pub mod prediction;
pub mod snapshot;
pub mod store;
pub mod server;
pub mod correction;
pub mod distance;
pub mod sort;
pub mod completion;
