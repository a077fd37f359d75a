//! Verified core of a spreadsheet transcoding service.
//!
//! The library holds the logic that rewrites spreadsheets: the serial-date
//! codec, per-cell and per-sheet transcoding with a configurable number of
//! skipped header rows, output-path derivation, batch-report aggregation,
//! and the entry bookkeeping for archive extraction and packaging.  All
//! file, archive and workbook input/output lives outside the library and
//! hands plain values in and out.

pub mod archive;
pub mod batch;
pub mod cell;
pub mod date;
pub mod file_ops;
pub mod sheet;

pub use date::Timestamp;
