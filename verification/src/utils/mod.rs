//! Files, gaps, statistics, time.

pub mod csv_rows;
pub mod csv_writer;
pub mod gap_registry;
pub mod stats_exporter;
pub mod time_utils;

pub use csv_writer::CsvWriter;
pub use gap_registry::GapRegistry;
pub use stats_exporter::StatsExporter;
