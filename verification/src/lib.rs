//! A shared-memory frame-ingestion pipeline.
//!
//! The crate decodes a versioned binary snapshot buffer into named image
//! records, normalizes their raw pixel encodings into RGBA, accumulates the
//! most recent frame per name in an ordered cache, and drives the producer
//! state machine that turns polled snapshots into an ordered, terminated
//! stream of frame sets.

pub mod decoder;
pub mod image_decoder;
pub mod image_reader;
