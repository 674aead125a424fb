use bench_plot::chart::{data_point, data_series, document, record};
use bench_plot::numeral::parse_numeral;
use bench_plot::{build_chart, chart_document, parse_cargo_bench_result, read_chart};
use bench_plot::{ChartError, Measurement};

const HEAD: &str = "{\n  \"$schema\": \"https://vega.github.io/schema/vega-lite/v4.json\",\n  \"description\": \"cargo bench result\",\n  \"data\": {\"values\": [";

const TAIL: &str = "]},\n  \"layer\": [\n    {\n      \"mark\": {\n        \"type\": \"bar\"\n      },\n      \"encoding\": {\n        \"x\": {\"field\": \"testname\", \"type\": \"ordinal\"},\n        \"y\": {\n          \"field\": \"median\",\n          \"type\": \"quantitative\",\n          \"axis\": {\"title\": \"result [ns/iter]\"}\n        }\n      }\n    },\n    {\n      \"mark\": {\n        \"type\": \"rule\"\n      },\n      \"encoding\": {\n        \"x\": {\"field\": \"testname\", \"type\": \"ordinal\"},\n        \"y\": {\"field\": \"min\", \"type\": \"quantitative\"},\n        \"y2\": {\"field\": \"max\"}\n      },\n      \"size\": {\"value\": 5}\n    }\n  ],\n  \"config\": {\n    \"axisX\": {\"labelAngle\": -25}\n  }\n}";

fn measurement(name: &str, central: &str, spread: &str) -> Measurement {
    Measurement {
        name: String::from(name),
        central: parse_numeral(central).unwrap(),
        spread: parse_numeral(spread).unwrap(),
    }
}

#[test]
fn empty_series_is_a_valid_description() {
    let text = chart_document(&Vec::new());
    assert_eq!(text, format!("{}{}", HEAD, TAIL));
    let value: serde_json::Value = serde_json::from_str(&text).unwrap();
    assert_eq!(value["data"]["values"], serde_json::Value::Array(Vec::new()));
    assert_eq!(value["description"], "cargo bench result");
    assert_eq!(value["layer"][0]["mark"]["type"], "bar");
    assert_eq!(value["layer"][1]["mark"]["type"], "rule");
    assert_eq!(value["config"]["axisX"]["labelAngle"], -25);
}

#[test]
fn report_without_result_line_still_has_a_description() {
    let found = parse_cargo_bench_result("running 0 tests\n\ntest result: ok.\n").unwrap();
    assert_eq!(chart_document(&found), format!("{}{}", HEAD, TAIL));
}

#[test]
fn record_carries_the_range() {
    let found = parse_cargo_bench_result("test foo::bar ... bench:   1,234 ns/iter (+/- 56)")
        .unwrap();
    let text = chart_document(&found);
    assert_eq!(
        text,
        format!(
            "{}{}{}",
            HEAD,
            "{\"testname\": \"foo::bar\", \"median\": 1234, \"min\": 1178, \"max\": 1290}",
            TAIL
        )
    );
}

#[test]
fn records_are_joined_in_order() {
    let series = vec![
        measurement("a", "1.5", "0.25"),
        measurement("b::c", "10", "20"),
        measurement("", "0", "0"),
    ];
    let text = chart_document(&series);
    let records = "{\"testname\": \"a\", \"median\": 1.5, \"min\": 1.25, \"max\": 1.75},\
{\"testname\": \"b::c\", \"median\": 10, \"min\": -10, \"max\": 30},\
{\"testname\": \"\", \"median\": 0, \"min\": 0, \"max\": 0}";
    assert_eq!(text, format!("{}{}{}", HEAD, records, TAIL));
}

#[test]
fn description_is_json_with_the_values_of_the_series() {
    let series = vec![measurement("a", "1.5", "0.25"), measurement("b", "1,000", "2,000.5")];
    let value: serde_json::Value = serde_json::from_str(&chart_document(&series)).unwrap();
    let values = value["data"]["values"].as_array().unwrap();
    assert_eq!(values.len(), 2);
    assert_eq!(values[0]["testname"], "a");
    assert_eq!(values[0]["median"].as_f64(), Some(1.5));
    assert_eq!(values[0]["min"].as_f64(), Some(1.5 - 0.25));
    assert_eq!(values[0]["max"].as_f64(), Some(1.5 + 0.25));
    assert_eq!(values[1]["testname"], "b");
    assert_eq!(values[1]["median"].as_f64(), Some(1000.0));
    assert_eq!(values[1]["min"].as_f64(), Some(-1000.5));
    assert_eq!(values[1]["max"].as_f64(), Some(3000.5));
}

#[test]
fn range_is_central_less_and_plus_spread() {
    let point = data_point(&measurement("t", "45,901.25", "1,002.5"));
    assert_eq!(point.testname, "t");
    assert_eq!(point.median.to_text(), "45901.25");
    assert_eq!(point.min.to_text(), "44898.75");
    assert_eq!(point.max.to_text(), "46903.75");
}

#[test]
fn range_is_exact_where_binary_fractions_are_not() {
    let point = data_point(&measurement("t", "0.3", "0.1"));
    assert_eq!(point.min.to_text(), "0.2");
    assert_eq!(point.max.to_text(), "0.4");
    let wide = data_point(&measurement("t", "9007199254740993", "0.5"));
    assert_eq!(wide.min.to_text(), "9007199254740992.5");
    assert_eq!(wide.max.to_text(), "9007199254740993.5");
}

#[test]
fn range_may_reach_below_zero() {
    let point = data_point(&measurement("t", "1", "2.5"));
    assert_eq!(point.min.to_text(), "-1.5");
    assert_eq!(point.max.to_text(), "3.5");
}

#[test]
fn series_has_one_point_for_each_measurement() {
    let series = data_series(&vec![measurement("a", "2", "1"), measurement("b", "4", "3")]);
    assert_eq!(series.len(), 2);
    assert_eq!(series[0].testname, "a");
    assert_eq!(series[0].min.to_text(), "1");
    assert_eq!(series[1].testname, "b");
    assert_eq!(series[1].max.to_text(), "7");
    assert_eq!(data_series(&Vec::new()).len(), 0);
}

#[test]
fn record_is_written_field_by_field() {
    let point = data_point(&measurement("x", "1.5", "0.25"));
    assert_eq!(
        record(&point),
        "{\"testname\": \"x\", \"median\": 1.5, \"min\": 1.25, \"max\": 1.75}"
    );
    let copy = point.clone();
    assert_eq!(record(&copy), record(&point));
}

#[test]
fn document_is_written_from_a_series() {
    let series = data_series(&vec![measurement("a", "2", "1")]);
    assert_eq!(
        document(&series),
        format!("{}{}{}", HEAD, "{\"testname\": \"a\", \"median\": 2, \"min\": 1, \"max\": 3}", TAIL)
    );
}

#[test]
fn name_is_written_as_it_is() {
    let text = chart_document(&vec![measurement("a\"b", "1", "0")]);
    assert!(text.contains("{\"testname\": \"a\"b\", \"median\": 1, \"min\": 1, \"max\": 1}"));
}

#[test]
fn text_that_is_no_description_is_refused() {
    assert_eq!(read_chart("").unwrap_err(), ChartError::Schema);
    assert_eq!(read_chart("[1, 2]").unwrap_err(), ChartError::Schema);
    assert_eq!(read_chart("{\"data\": ").unwrap_err(), ChartError::Schema);
    assert_eq!(read_chart("{\"description\": 5}").unwrap_err(), ChartError::Schema);
}

#[test]
fn bare_description_is_read() {
    assert!(read_chart("{}").is_ok());
}

#[test]
fn description_of_data_is_read() {
    assert!(read_chart(
        "{\"data\": {\"values\": [{\"testname\": \"a\", \"median\": 1, \"min\": 0, \"max\": 2}]}}"
    )
    .is_ok());
}

#[test]
fn description_of_axis_is_read() {
    assert!(read_chart("{\"config\": {\"axisX\": {\"labelAngle\": -25}}}").is_ok());
}

#[test]
fn description_of_a_mark_is_read() {
    assert!(read_chart("{\"mark\": \"bar\"}").is_ok());
}

#[test]
fn description_of_an_encoding_is_read() {
    assert!(read_chart("{\"encoding\": {}}").is_ok());
}

#[test]
fn broken_name_makes_a_broken_chart() {
    let series = vec![measurement("a\"b", "1", "0")];
    assert_eq!(build_chart(&series).unwrap_err(), ChartError::Schema);
}

#[test]
fn range_holds_the_central_value() {
    let samples = [("1234", "56"), ("1.5", "0.25"), ("0", "0"), ("1", "2.5"), ("0.001", "10")];
    for (central, spread) in samples {
        let point = data_point(&measurement("t", central, spread));
        let low = point.min.to_text().parse::<f64>().unwrap();
        let middle = point.median.to_text().parse::<f64>().unwrap();
        let high = point.max.to_text().parse::<f64>().unwrap();
        assert!(low <= middle && middle <= high, "{} {}", central, spread);
        assert_eq!(point.max.minus(&point.median).minus(&parse_numeral(spread).unwrap()).to_text(), "0");
        assert_eq!(point.median.minus(&point.min).minus(&parse_numeral(spread).unwrap()).to_text(), "0");
    }
}
