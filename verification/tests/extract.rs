use bench_plot::extract::{read_occurrence, read_occurrences};
use bench_plot::{parse_cargo_bench_result, ExtractError, Extractor, Fault, Measurement};

fn fields(measurement: &Measurement) -> (String, String, String) {
    (
        measurement.name.clone(),
        measurement.central.to_text(),
        measurement.spread.to_text(),
    )
}

fn triple(name: &str, central: &str, spread: &str) -> (String, String, String) {
    (String::from(name), String::from(central), String::from(spread))
}

fn read(report: &str) -> Vec<(String, String, String)> {
    parse_cargo_bench_result(report).unwrap().iter().map(fields).collect()
}

fn groups(texts: &[Option<&str>]) -> Vec<Option<String>> {
    texts.iter().map(|text| text.map(String::from)).collect()
}

#[test]
fn integer_line_gives_one_measurement() {
    let found = read("test foo::bar ... bench:   1,234 ns/iter (+/- 56)");
    assert_eq!(found, vec![triple("foo::bar", "1234", "56")]);
}

#[test]
fn decimal_line_gives_decimal_values() {
    let found = parse_cargo_bench_result("test x ... bench:   1.5 ns/iter (+/- 0.25)").unwrap();
    assert_eq!(found.len(), 1);
    assert_eq!(found[0].name, "x");
    assert_eq!(found[0].central.to_text(), "1.5");
    assert_eq!(found[0].spread.to_text(), "0.25");
    assert_eq!(found[0].central.to_text().parse::<f64>().unwrap(), 1.5);
    assert_eq!(found[0].spread.to_text().parse::<f64>().unwrap(), 0.25);
}

#[test]
fn report_without_result_line_has_no_measurement() {
    assert_eq!(read(""), Vec::new());
    assert_eq!(read("\n\n"), Vec::new());
    assert_eq!(
        read("running 3 tests\ntest a ... ignored\ntest b ... ok\n\ntest result: ok.\n"),
        Vec::new()
    );
    assert_eq!(read("test x ... bench 1 ns/iter (+/- 0)"), Vec::new());
}

#[test]
fn marker_line_without_match_gives_placeholder() {
    assert_eq!(read("... bench: garbage"), vec![triple("", "0", "0")]);
    assert_eq!(read("test x ... bench: 12 ms/iter (+/- 3)"), vec![triple("", "0", "0")]);
    assert_eq!(read("test ... bench: 12 ns/iter (+/- 3)"), vec![triple("", "0", "0")]);
}

#[test]
fn placeholder_keeps_its_place_among_measurements() {
    let report = "test a ... bench: 1 ns/iter (+/- 0)\n... bench: garbage\ntest b ... bench: 2 ns/iter (+/- 1)\n";
    assert_eq!(
        read(report),
        vec![triple("a", "1", "0"), triple("", "0", "0"), triple("b", "2", "1")]
    );
}

#[test]
fn measurements_keep_the_order_of_the_lines() {
    let report = "\
running 4 tests
test tests::it_works ... ignored
test bench::parse_small  ... bench:         312 ns/iter (+/- 14)
test bench::parse_large  ... bench:   1,204,559 ns/iter (+/- 98,201)

test bench::render       ... bench:      45,901.25 ns/iter (+/- 1,002.5)

test result: ok. 0 passed; 0 failed; 1 ignored; 3 measured; 0 filtered out
";
    assert_eq!(
        read(report),
        vec![
            triple("bench::parse_small", "312", "14"),
            triple("bench::parse_large", "1204559", "98201"),
            triple("bench::render", "45901.25", "1002.5"),
        ]
    );
}

#[test]
fn reading_twice_gives_the_same() {
    let report = "test a ... bench: 1,000 ns/iter (+/- 10)\nnoise\n... bench: none\ntest b ... bench: 2.5 ns/iter (+/- 0.5)\n";
    let extractor = Extractor::new().unwrap();
    let first: Vec<_> = extractor.extract(report).unwrap().iter().map(fields).collect();
    let second: Vec<_> = extractor.extract(report).unwrap().iter().map(fields).collect();
    assert_eq!(first, second);
    assert_eq!(first, read(report));
    assert_eq!(first.len(), 3);
}

#[test]
fn one_extractor_serves_many_reports() {
    let extractor = Extractor::new().unwrap();
    let one = extractor.extract("test a ... bench: 1 ns/iter (+/- 0)").unwrap();
    let none = extractor.extract("nothing here").unwrap();
    let two = extractor
        .extract("test b ... bench: 2 ns/iter (+/- 0)\ntest c ... bench: 3 ns/iter (+/- 0)")
        .unwrap();
    assert_eq!(one.len(), 1);
    assert_eq!(none.len(), 0);
    assert_eq!(two.len(), 2);
    assert_eq!(two[1].name, "c");
}

#[test]
fn last_occurrence_in_a_line_wins() {
    let line = "test a ... bench: 1 ns/iter (+/- 2) test b ... bench: 3 ns/iter (+/- 4)";
    assert_eq!(read(line), vec![triple("b", "3", "4")]);
}

#[test]
fn malformed_numeral_is_an_error() {
    let report = "header\ntest a ... bench: 1.2.3 ns/iter (+/- 4)\n";
    assert_eq!(
        parse_cargo_bench_result(report).unwrap_err(),
        ExtractError::MalformedNumeral { line: 1 }
    );
    assert_eq!(
        parse_cargo_bench_result("test a ... bench: 1 ns/iter (+/- .)").unwrap_err(),
        ExtractError::MalformedNumeral { line: 0 }
    );
    assert_eq!(
        parse_cargo_bench_result("test a ... bench: , ns/iter (+/- 1)").unwrap_err(),
        ExtractError::MalformedNumeral { line: 0 }
    );
}

#[test]
fn numeral_with_two_points_stops_the_extraction() {
    let outcome = parse_cargo_bench_result("test a ... bench: 1.2.3 ns/iter (+/- 4)");
    assert!(outcome.is_err());
    assert_eq!(outcome.unwrap_err(), ExtractError::MalformedNumeral { line: 0 });
}

#[test]
fn pattern_is_accepted_every_time() {
    assert!(Extractor::new().is_ok());
    assert!(Extractor::new().is_ok());
    assert!(parse_cargo_bench_result("").is_ok());
    assert!(parse_cargo_bench_result("").is_ok());
}

#[test]
fn first_unreadable_line_is_named() {
    let report = "\
test a ... bench: 1 ns/iter (+/- 1)
plain
... bench: nothing
test b ... bench: 1..2 ns/iter (+/- 1)
test c ... bench: 3.4.5 ns/iter (+/- 1)
";
    assert_eq!(
        parse_cargo_bench_result(report).unwrap_err(),
        ExtractError::MalformedNumeral { line: 3 }
    );
}

#[test]
fn malformed_numeral_in_a_replaced_occurrence_is_an_error_too() {
    let line = "test a ... bench: 1.1.1 ns/iter (+/- 2) test b ... bench: 3 ns/iter (+/- 4)";
    assert_eq!(
        parse_cargo_bench_result(line).unwrap_err(),
        ExtractError::MalformedNumeral { line: 0 }
    );
}

#[test]
fn lines_may_end_in_carriage_return_and_line_feed() {
    let report = "test a ... bench: 1 ns/iter (+/- 0)\r\ntest b ... bench: 2 ns/iter (+/- 0)\r\n";
    assert_eq!(read(report), vec![triple("a", "1", "0"), triple("b", "2", "0")]);
}

#[test]
fn name_takes_letters_digits_colons_and_underscores() {
    assert_eq!(
        read("test Mod_1::sub::case_02 ... bench: 5 ns/iter (+/- 1)"),
        vec![triple("Mod_1::sub::case_02", "5", "1")]
    );
    assert_eq!(
        read("test some-name ... bench: 5 ns/iter (+/- 1)"),
        vec![triple("", "0", "0")]
    );
}

#[test]
fn text_around_the_pattern_is_passed_over() {
    assert_eq!(
        read(">> test a ... bench: 5 ns/iter (+/- 1) = 200 MB/s"),
        vec![triple("a", "5", "1")]
    );
}

#[test]
fn occurrence_is_read_from_its_groups() {
    let whole = "test a ... bench: 1,5 ns/iter (+/- 2.5)";
    let reading =
        read_occurrence(&groups(&[Some(whole), Some("a"), Some("1,5"), Some("2.5")])).unwrap();
    assert_eq!(fields(&reading), triple("a", "15", "2.5"));
}

#[test]
fn occurrence_with_a_missing_group_is_a_fault() {
    assert_eq!(read_occurrence(&groups(&[])).unwrap_err(), Fault::MissingGroup);
    assert_eq!(read_occurrence(&groups(&[Some("w")])).unwrap_err(), Fault::MissingGroup);
    assert_eq!(
        read_occurrence(&groups(&[Some("w"), None, Some("1"), Some("2")])).unwrap_err(),
        Fault::MissingGroup
    );
    assert_eq!(
        read_occurrence(&groups(&[Some("w"), Some("a"), None, Some("2")])).unwrap_err(),
        Fault::MissingGroup
    );
    assert_eq!(
        read_occurrence(&groups(&[Some("w"), Some("a"), Some("1"), None])).unwrap_err(),
        Fault::MissingGroup
    );
    assert_eq!(
        read_occurrence(&groups(&[Some("w"), Some("a"), Some("1")])).unwrap_err(),
        Fault::MissingGroup
    );
}

#[test]
fn faults_are_met_in_the_order_of_the_groups() {
    assert_eq!(
        read_occurrence(&groups(&[Some("w"), Some("a"), Some("x"), None])).unwrap_err(),
        Fault::MalformedNumeral
    );
    assert_eq!(
        read_occurrence(&groups(&[Some("w"), None, Some("x"), Some("y")])).unwrap_err(),
        Fault::MissingGroup
    );
    assert_eq!(
        read_occurrence(&groups(&[Some("w"), Some("a"), Some("1"), Some("y")])).unwrap_err(),
        Fault::MalformedNumeral
    );
}

#[test]
fn occurrences_are_read_in_order() {
    let first = groups(&[Some("w"), Some("a"), Some("1"), Some("2")]);
    let second = groups(&[Some("w"), Some("b"), Some("3"), Some("4")]);
    let broken = groups(&[Some("w"), Some("c"), Some("."), Some("4")]);
    let short = groups(&[Some("w")]);

    let none = read_occurrences(&Vec::new()).unwrap();
    assert_eq!(fields(&none), triple("", "0", "0"));
    let last = read_occurrences(&vec![first.clone(), second.clone()]).unwrap();
    assert_eq!(fields(&last), triple("b", "3", "4"));
    assert_eq!(
        read_occurrences(&vec![broken.clone(), second.clone()]).unwrap_err(),
        Fault::MalformedNumeral
    );
    assert_eq!(
        read_occurrences(&vec![first.clone(), short.clone(), broken.clone()]).unwrap_err(),
        Fault::MissingGroup
    );
    assert_eq!(
        read_occurrences(&vec![first, broken, short]).unwrap_err(),
        Fault::MalformedNumeral
    );
}

#[test]
fn fault_becomes_the_error_of_its_line() {
    assert_eq!(Fault::MissingGroup.in_line(4), ExtractError::MissingGroup { line: 4 });
    assert_eq!(Fault::MalformedNumeral.in_line(0), ExtractError::MalformedNumeral { line: 0 });
}

#[test]
fn line_is_read_only_with_the_marker() {
    let extractor = Extractor::new().unwrap();
    assert!(extractor.read_line("test a ... ok").is_none());
    assert!(extractor.read_line("").is_none());
    let read = extractor.read_line("test a ... bench: 7 ns/iter (+/- 1)").unwrap().unwrap();
    assert_eq!(fields(&read), triple("a", "7", "1"));
    let fault = extractor.read_line("test a ... bench: 7 ns/iter (+/- ..)").unwrap().unwrap_err();
    assert_eq!(fault, Fault::MalformedNumeral);
}

#[test]
fn extractor_holds_the_pattern() {
    let extractor = Extractor::new().unwrap();
    assert_eq!(
        extractor.pattern(),
        r"test ([a-zA-Z0-9:_]+)\s+... bench:\s+([0-9,\.]+) ns/iter \(\+/- ([0-9,\.]+)\)"
    );
}

#[test]
fn default_measurement_is_the_placeholder() {
    assert_eq!(fields(&Measurement::default()), triple("", "0", "0"));
}

#[test]
fn measurement_can_be_copied() {
    let found = parse_cargo_bench_result("test a ... bench: 1.5 ns/iter (+/- 0.5)").unwrap();
    let copy = found[0].clone();
    assert_eq!(fields(&copy), fields(&found[0]));
}
