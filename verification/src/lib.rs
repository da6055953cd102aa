//! A filename indexer in the style of Everything: a verified model of the
//! persistent index, the scan and live-update logic that feeds it, the query
//! language, telemetry, and the decisions behind the search window.
pub mod buckets;
pub mod cli;
pub mod db;
pub mod features;
pub mod live;
pub mod model;
pub mod paths;
pub mod query;
pub mod scanner;
pub mod telemetry;
pub mod text;
pub mod ui;
pub mod worker;

pub use db::Index;
pub use model::{RootStatus, SearchResult};
pub use scanner::ScanOutcome;
pub use telemetry::{EventSink, OutputMode, TelemetryEvent};
