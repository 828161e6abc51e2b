//! Claim-path debugging: extraction of claim transitions from prose, their
//! heuristic classification, annotation bookkeeping and the grounding of
//! factual documentation claims.
pub mod text;
pub mod model;
pub mod classifier;
pub mod extractor;
pub mod pipeline;
pub mod doc_claims;
pub mod annotations;
pub mod commands;
