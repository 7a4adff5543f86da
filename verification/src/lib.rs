//! A library for reading, filtering, and merging code-coverage reports in
//! the LCOV tracefile format.
//!
//! The pipeline: raw text lines -> [`Reader`] (parsing each line with the
//! grammar of [`record`], optionally restricted by a [`LineFilter`]) ->
//! stream of [`Record`] values -> [`Report`] accumulation, merging, and
//! re-emission as a canonical record stream.

pub use line_filter::LineFilter;
pub use line_filter::LineRange;
pub use reader::ReadError;
pub use reader::Reader;
pub use record::InvalidFieldCause;
pub use record::ParseRecordError;
pub use record::Record;
pub use record::RecordKind;
pub use report::MergeError;
pub use report::Report;
pub use report::FileSummary;
pub use report::FileEntry;
pub use report::LineEntry;
pub use report::FunctionEntry;
pub use report::BranchEntry;

mod line_filter;
mod reader;
mod record;
mod report;
