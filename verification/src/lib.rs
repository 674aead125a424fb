//! Charts of `cargo bench` reports.
//!
//! The library reads the text that a benchmark run prints, takes the timing
//! of each benchmark out of it, and writes the description of a chart that
//! shows each timing as a bar with its range of deviation.
//!
//! * [`extract`] finds the result lines of a report and reads a
//!   [`Measurement`] from each.
//! * [`chart`] turns measurements into data points and writes the chart
//!   description.
//! * [`numeral`] and [`decimal`] read and hold the timing values as exact
//!   decimal numbers; [`digits`] does their arithmetic.
//! * [`text`] splits a report into lines.
//! * [`pattern`] and [`vega`] bind the `regex` crate, which matches the
//!   result lines, and the `vega_lite_3` chart schema, which `serde_json`
//!   reads a description into.
//!
//! Reading the report from a stream and showing the chart are left to the
//! program that uses the library.

pub mod chart;
pub mod decimal;
pub mod digits;
pub mod extract;
pub mod numeral;
pub mod pattern;
pub mod text;
pub mod vega;

pub use chart::{build_chart, chart_document, read_chart, ChartError, DataPoint};
pub use decimal::Decimal;
pub use extract::{parse_cargo_bench_result, ExtractError, Extractor, Fault, Measurement};
