//! The chart builder: from measurements to the description of a chart.
//!
//! Each measurement becomes one data point: its name, its central value, and
//! the range from the central value less the deviation to the central value
//! plus the deviation. The data points are written into a fixed chart layout:
//! a bar for each central value and a vertical rule over each range.
//!
//! Nothing is validated here. Names are written as they are, and a range may
//! reach below zero.

use crate::decimal::{difference_is_exact, sum_is_exact, Decimal, DecimalValue};
use crate::digits::pow10;
use crate::extract::{Measurement, MeasurementValue};
use crate::numeral::{
    is_plain_numeral, negative_number_is_written_with_sign, plain_value,
    written_number_reads_back,
};
use crate::vega::{deserialize, schema_accepts};
use vstd::prelude::*;
use vstd::string::StringExecFns;

verus! {

/// The chart description up to its data points.
pub const DOCUMENT_HEAD: &'static str = r#"{
  "$schema": "https://vega.github.io/schema/vega-lite/v4.json",
  "description": "cargo bench result",
  "data": {"values": ["#;

/// The chart description from its data points on.
pub const DOCUMENT_TAIL: &'static str = r#"]},
  "layer": [
    {
      "mark": {
        "type": "bar"
      },
      "encoding": {
        "x": {"field": "testname", "type": "ordinal"},
        "y": {
          "field": "median",
          "type": "quantitative",
          "axis": {"title": "result [ns/iter]"}
        }
      }
    },
    {
      "mark": {
        "type": "rule"
      },
      "encoding": {
        "x": {"field": "testname", "type": "ordinal"},
        "y": {"field": "min", "type": "quantitative"},
        "y2": {"field": "max"}
      },
      "size": {"value": 5}
    }
  ],
  "config": {
    "axisX": {"labelAngle": -25}
  }
}"#;

/// What a record begins with, up to the name.
pub const RECORD_NAME: &'static str = r#"{"testname": ""#;

/// What stands in a record between the name and the central value.
pub const RECORD_MEDIAN: &'static str = r#"", "median": "#;

/// What stands in a record between the central value and the low end.
pub const RECORD_MIN: &'static str = r#", "min": "#;

/// What stands in a record between the low end and the high end.
pub const RECORD_MAX: &'static str = r#", "max": "#;

/// What a record ends with.
pub const RECORD_END: &'static str = "}";

/// What separates two records.
pub const RECORD_SEPARATOR: &'static str = ",";

/// One data point of the chart.
#[derive(Debug)]
pub struct DataPoint {
    /// The label of the point.
    pub testname: String,
    /// The central value.
    pub median: Decimal,
    /// The low end of the range.
    pub min: Decimal,
    /// The high end of the range.
    pub max: Decimal,
}

/// The mathematical content of a [`DataPoint`].
pub struct DataPointValue {
    pub testname: Seq<char>,
    pub median: DecimalValue,
    pub min: DecimalValue,
    pub max: DecimalValue,
}

impl View for DataPoint {
    type V = DataPointValue;

    open spec fn view(&self) -> DataPointValue {
        DataPointValue {
            testname: self.testname@,
            median: self.median@,
            min: self.min@,
            max: self.max@,
        }
    }
}

impl DeepView for DataPoint {
    type V = DataPointValue;

    open spec fn deep_view(&self) -> DataPointValue {
        self@
    }
}

impl Clone for DataPoint {
    fn clone(&self) -> (copy: DataPoint)
        ensures
            copy@ == self@,
    {
        DataPoint {
            testname: self.testname.clone(),
            median: self.median.clone(),
            min: self.min.clone(),
            max: self.max.clone(),
        }
    }
}

/// Why no chart could be built.
#[derive(Debug, Clone, Copy, PartialEq, Eq, Structural)]
pub enum ChartError {
    /// The chart description does not conform to the chart schema.
    Schema,
}

/// The data point of a measurement: its name, its central value, and the
/// central value less and plus the deviation.
pub open spec fn data_point_of(measurement: MeasurementValue) -> DataPointValue {
    DataPointValue {
        testname: measurement.name,
        median: measurement.central,
        min: measurement.central.minus(measurement.spread),
        max: measurement.central.plus(measurement.spread),
    }
}

/// The data points of a sequence of measurements, one for one and in order.
pub open spec fn series_of(measurements: Seq<MeasurementValue>) -> Seq<DataPointValue> {
    Seq::new(measurements.len(), |n: int| data_point_of(measurements[n]))
}

/// The record that writes a data point.
pub open spec fn record_text(point: DataPointValue) -> Seq<char> {
    RECORD_NAME@ + point.testname + RECORD_MEDIAN@ + point.median.text() + RECORD_MIN@
        + point.min.text() + RECORD_MAX@ + point.max.text() + RECORD_END@
}

/// The records of a series, with a separator between each two.
pub open spec fn records_text(series: Seq<DataPointValue>) -> Seq<char>
    decreases series.len(),
{
    if series.len() == 0 {
        Seq::empty()
    } else if series.len() == 1 {
        record_text(series[0])
    } else {
        records_text(series.drop_last()) + RECORD_SEPARATOR@ + record_text(series.last())
    }
}

/// The chart description of a series: the fixed layout around its records.
pub open spec fn document_text(series: Seq<DataPointValue>) -> Seq<char> {
    DOCUMENT_HEAD@ + records_text(series) + DOCUMENT_TAIL@
}

/// The chart description of a sequence of measurements.
pub open spec fn chart_text(measurements: Seq<MeasurementValue>) -> Seq<char> {
    document_text(series_of(measurements))
}

/// The data point of a measurement.
pub fn data_point(measurement: &Measurement) -> (point: DataPoint)
    ensures
        point@ == data_point_of(measurement@),
{
    DataPoint {
        testname: measurement.name.clone(),
        median: measurement.central.clone(),
        min: measurement.central.minus(&measurement.spread),
        max: measurement.central.plus(&measurement.spread),
    }
}

/// The data series of the measurements: one point for each, in order.
pub fn data_series(measurements: &Vec<Measurement>) -> (series: Vec<DataPoint>)
    ensures
        series.deep_view() == series_of(measurements.deep_view()),
        series.len() == measurements.len(),
        forall|n: int|
            0 <= n < series.len() ==> (#[trigger] series[n])@ == data_point_of(measurements[n]@),
{
    let mut series: Vec<DataPoint> = Vec::new();
    let mut i: usize = 0;
    while i < measurements.len()
        invariant
            i <= measurements.len(),
            series.len() == i,
            forall|n: int|
                0 <= n < i ==> (#[trigger] series[n])@ == data_point_of(measurements[n]@),
        decreases measurements.len() - i,
    {
        series.push(data_point(&measurements[i]));
        i += 1;
    }
    assert(series.deep_view() =~= series_of(measurements.deep_view()));
    series
}

/// Writes the record of a data point.
pub fn record(point: &DataPoint) -> (text: String)
    ensures
        text@ == record_text(point@),
{
    let mut text = String::new();
    text.append(RECORD_NAME);
    text.append(point.testname.as_str());
    text.append(RECORD_MEDIAN);
    text.append(point.median.to_text().as_str());
    text.append(RECORD_MIN);
    text.append(point.min.to_text().as_str());
    text.append(RECORD_MAX);
    text.append(point.max.to_text().as_str());
    text.append(RECORD_END);
    assert(text@ =~= record_text(point@));
    text
}

/// Writes the chart description of a data series.
pub fn document(series: &Vec<DataPoint>) -> (text: String)
    ensures
        text@ == document_text(series.deep_view()),
{
    let mut text = String::new();
    text.append(DOCUMENT_HEAD);
    let mut i: usize = 0;
    assert(series.deep_view().take(0) =~= Seq::empty());
    while i < series.len()
        invariant
            i <= series.len(),
            text@ == DOCUMENT_HEAD@ + records_text(series.deep_view().take(i as int)),
        decreases series.len() - i,
    {
        let ghost upto = series.deep_view().take(i + 1);
        proof {
            assert(upto.drop_last() =~= series.deep_view().take(i as int));
            assert(upto.last() == series[i as int]@);
            assert(upto[0] == series[0]@);
        }
        if i > 0 {
            text.append(RECORD_SEPARATOR);
        }
        text.append(record(&series[i]).as_str());
        i += 1;
        assert(text@ =~= DOCUMENT_HEAD@ + records_text(upto));
    }
    assert(series.deep_view().take(series.len() as int) =~= series.deep_view());
    text.append(DOCUMENT_TAIL);
    text
}

/// Writes the chart description of the measurements: the layout of the
/// chart, with one record for each measurement, in order.
pub fn chart_document(measurements: &Vec<Measurement>) -> (text: String)
    ensures
        text@ == chart_text(measurements.deep_view()),
{
    let series = data_series(measurements);
    document(&series)
}

/// Reads a chart description into a chart.
///
/// Fails exactly when the description does not conform to the chart schema.
///
/// The schema is read by deep recursion: a description with layers, such as
/// [`chart_document`] writes, has been seen to need more stack than the
/// 2 MiB that a spawned thread gets by default. Call this on a thread with a
/// larger stack.
pub fn read_chart(description: &str) -> (chart: Result<vega_lite_3::Vegalite, ChartError>)
    ensures
        chart is Ok == schema_accepts(description@),
        chart matches Err(error) ==> error == ChartError::Schema,
{
    match deserialize(description) {
        Ok(chart) => Ok(chart),
        Err(_) => Err(ChartError::Schema),
    }
}

/// Builds the chart of the measurements: writes its description and reads
/// that into a chart.
///
/// Reading the description needs a large stack, as [`read_chart`] says: more
/// than the 2 MiB that a spawned thread gets by default.
pub fn build_chart(measurements: &Vec<Measurement>) -> (chart: Result<
    vega_lite_3::Vegalite,
    ChartError,
>)
    ensures
        chart is Ok == schema_accepts(chart_text(measurements.deep_view())),
        chart matches Err(error) ==> error == ChartError::Schema,
{
    let description = chart_document(measurements);
    read_chart(description.as_str())
}

/// The range of a data point is exact: at every scale that holds both the
/// central value and the deviation of its measurement, the low end is the
/// central value less the deviation and the high end the central value plus
/// the deviation.
pub proof fn range_is_exact(measurement: MeasurementValue, scale: nat)
    requires
        scale >= measurement.central.scale,
        scale >= measurement.spread.scale,
    ensures
        data_point_of(measurement).min.at_scale(scale) == measurement.central.at_scale(scale)
            - measurement.spread.at_scale(scale),
        data_point_of(measurement).max.at_scale(scale) == measurement.central.at_scale(scale)
            + measurement.spread.at_scale(scale),
        data_point_of(measurement).median == measurement.central,
{
    sum_is_exact(measurement.central, measurement.spread, scale);
    difference_is_exact(measurement.central, measurement.spread, scale);
}

/// The range of a measurement with no value below zero holds its central
/// value: the low end is not above it, the high end not below it.
pub proof fn range_holds_central(measurement: MeasurementValue, scale: nat)
    requires
        measurement.well_formed(),
        scale >= measurement.central.scale,
        scale >= measurement.spread.scale,
    ensures
        data_point_of(measurement).min.at_scale(scale) <= measurement.central.at_scale(scale),
        measurement.central.at_scale(scale) <= data_point_of(measurement).max.at_scale(scale),
{
    range_is_exact(measurement, scale);
    assert(measurement.spread.at_scale(scale) >= 0) by (nonlinear_arith)
        requires
            measurement.spread.at_scale(scale) == measurement.spread.units * pow10(
                (scale - measurement.spread.scale) as nat,
            ),
            measurement.spread.units >= 0,
    ;
}

/// Every record of a chart description carries the exact range of its
/// measurement, and the records stand in the order of the measurements.
pub proof fn series_keeps_measurements(measurements: Seq<MeasurementValue>)
    ensures
        series_of(measurements).len() == measurements.len(),
        forall|n: int|
            0 <= n < measurements.len() ==> {
                let point = #[trigger] series_of(measurements)[n];
                &&& point.testname == measurements[n].name
                &&& point.median == measurements[n].central
                &&& point.min == measurements[n].central.minus(measurements[n].spread)
                &&& point.max == measurements[n].central.plus(measurements[n].spread)
            },
{
}

/// The numbers of a data point are written so that they read back: for a
/// measurement with no value below zero, the central value and the high end
/// are written as numerals that read as exactly these numbers, and so is the
/// low end unless it is below zero, where a minus sign stands before the
/// numeral of its size.
pub proof fn written_range_reads_back(measurement: MeasurementValue)
    requires
        measurement.well_formed(),
    ensures
        ({
            let point = data_point_of(measurement);
            let low = point.min;
            let size = DecimalValue { units: -low.units, scale: low.scale };
            &&& is_plain_numeral(point.median.text())
            &&& plain_value(point.median.text()).same_number(measurement.central)
            &&& is_plain_numeral(point.max.text())
            &&& plain_value(point.max.text()).same_number(point.max)
            &&& low.units >= 0 ==> is_plain_numeral(low.text()) && plain_value(
                low.text(),
            ).same_number(low)
            &&& low.units < 0 ==> low.text() == seq!['-'] + size.text() && is_plain_numeral(
                size.text(),
            ) && plain_value(size.text()).same_number(size)
        }),
{
    let point = data_point_of(measurement);
    let low = point.min;
    let scale = measurement.central.common_scale(measurement.spread);
    assert(point.max.units >= 0) by (nonlinear_arith)
        requires
            point.max.units == measurement.central.units * pow10(
                (scale - measurement.central.scale) as nat,
            ) + measurement.spread.units * pow10((scale - measurement.spread.scale) as nat),
            measurement.central.units >= 0,
            measurement.spread.units >= 0,
    ;
    written_number_reads_back(point.median);
    written_number_reads_back(point.max);
    if low.units >= 0 {
        written_number_reads_back(low);
    } else {
        negative_number_is_written_with_sign(low);
        written_number_reads_back(DecimalValue { units: -low.units, scale: low.scale });
    }
}

/// Without measurements the chart description is the bare layout, with an
/// empty list of data points.
pub proof fn empty_series_description()
    ensures
        chart_text(Seq::empty()) == DOCUMENT_HEAD@ + DOCUMENT_TAIL@,
{
    assert(series_of(Seq::empty()) =~= Seq::empty());
    assert(DOCUMENT_HEAD@ + Seq::<char>::empty() =~= DOCUMENT_HEAD@);
}

} // verus!
