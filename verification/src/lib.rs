//! Bookkeeping for the WebGPU conformance test suite (CTS).

pub mod accounting;
pub mod cover_laws;
mod coverage;
pub mod index;
pub mod list;
pub mod list_laws;
pub mod order;
pub mod pattern;
pub mod pattern_laws;
pub mod prefix_laws;
pub mod prefixes;
pub mod report;
pub mod report_laws;
pub mod run;
pub mod search;
pub mod set;
pub mod text;
pub mod text_laws;
pub mod wildcard_laws;
pub mod wildcards;
