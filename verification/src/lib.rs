//! Parsing and linting for captured HTTP response headers.
//!
//! The intended input is a dump of response headers, such as what
//! `curl -D -` writes: a status line followed by header lines, with
//! records separated by a blank line. [`RecordParser`] turns the lines of
//! such a dump into one [`HeaderRecord`] at a time; [`lint`] checks a single
//! record for common `Cache-Control` mistakes.

pub mod cache_control;
pub mod cli;
pub mod lint;
pub mod record;
pub mod text;

pub use cache_control::{CacheControl, Directive};
pub use lint::{lint, Finding, Severity};
pub use record::{HeaderRecord, RecordParser};
