//! Codec for printable vision-test charts.
//!
//! A chart is a fixed arrangement of optotypes (letters or digits) across
//! five rows of decreasing size. This crate encodes such an arrangement into
//! a short, human-typeable alphanumeric code and decodes the code back into
//! the exact chart it represents. Two formats exist: a compact short code
//! covering a constrained subset of charts, and a long code able to represent
//! any chart. Both embed a checksum so that transcription errors are caught.

pub mod codes;
pub mod optotypes;
mod rng;
