//! Aggregate activity statistics over conversation transcripts.
pub mod calendar;
pub mod text;
pub mod slug;
pub mod path;
pub mod keyed;
pub mod json;
pub mod transcript;
pub mod textset;
pub mod rank;
pub mod insights;
pub mod stats;
