//! Benchmark reports: identifiers, titles and directory names, the text of the
//! command-line reports, and the comparison tables of a group of benchmarks.
pub mod text;
pub mod color;
pub mod format;
pub mod path;
pub mod number_syntax;
pub mod report;
pub mod report_table;
