//! Place-name autocomplete over a fixed, in-memory gazetteer.
//!
//! Given a partial name and an optional per-record keep-mask (the
//! caller's geographic radius, decided record by record), the engine
//! returns a ranked list of matching places.  Short queries are matched
//! by prefix and scored by population share; longer queries by bigram
//! similarity over UTF-8 bytes, with a fixed cut below which candidates
//! are dropped.  Scores are exact integer ratios throughout, so every
//! step — the threshold, the ranking, the equal-share law of the prefix
//! scorer — is stated and proved without rounding; callers divide only
//! at the edge.
//!
//! The store and its substring index are built once at startup and never
//! change; each query is a pure function of the store and the request.

pub mod engine;
pub mod index;
pub mod models;
pub mod score;
pub mod text;
pub mod util;
