//! Normalisation passes over configuration schema documents: reference
//! inlining, subschema merging and strictness marking, plus the plain-value
//! side of the MongoDB metrics source's telemetry events.

pub mod same;
pub mod schema;
pub mod count;
pub mod events;
pub mod cycle;
pub mod inline;
pub mod merge;
pub mod pipeline;
pub mod reach;
pub mod strict;
pub mod validate;
