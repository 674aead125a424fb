use bench_plot::numeral::parse_numeral;
use bench_plot::Decimal;

fn number(text: &str) -> Decimal {
    parse_numeral(text).unwrap()
}

fn sum(a: &str, b: &str) -> String {
    number(a).plus(&number(b)).to_text()
}

fn difference(a: &str, b: &str) -> String {
    number(a).minus(&number(b)).to_text()
}

#[test]
fn zero_is_written_as_one_digit() {
    assert_eq!(Decimal::zero().to_text(), "0");
    assert_eq!(Decimal::default().to_text(), "0");
    assert_eq!(Decimal::zero().negated().to_text(), "0");
    assert_eq!(Decimal::zero().plus(&Decimal::zero()).to_text(), "0");
}

#[test]
fn whole_numbers_add_up() {
    assert_eq!(sum("1234", "56"), "1290");
    assert_eq!(sum("0", "0"), "0");
    assert_eq!(sum("0", "7"), "7");
    assert_eq!(sum("999", "1"), "1000");
    assert_eq!(sum("1", "999"), "1000");
    assert_eq!(sum("5", "5"), "10");
}

#[test]
fn whole_numbers_subtract() {
    assert_eq!(difference("1234", "56"), "1178");
    assert_eq!(difference("1000", "1"), "999");
    assert_eq!(difference("7", "7"), "0");
    assert_eq!(difference("10", "9"), "1");
}

#[test]
fn scales_are_aligned() {
    assert_eq!(sum("1.5", "0.25"), "1.75");
    assert_eq!(difference("1.5", "0.25"), "1.25");
    assert_eq!(sum("0.25", "1.5"), "1.75");
    assert_eq!(sum("0.1", "0.2"), "0.3");
    assert_eq!(sum("0.95", "0.05"), "1");
    assert_eq!(difference("1", "0.001"), "0.999");
    assert_eq!(difference("1.50", "1.5"), "0");
    assert_eq!(sum("100", "0.001"), "100.001");
}

#[test]
fn difference_may_fall_below_zero() {
    assert_eq!(difference("1", "2.5"), "-1.5");
    assert_eq!(difference("0", "0.25"), "-0.25");
    assert_eq!(difference("56", "1234"), "-1178");
    assert_eq!(difference("0.999", "1"), "-0.001");
}

#[test]
fn signs_combine() {
    let below = number("1.5").negated();
    assert_eq!(below.to_text(), "-1.5");
    assert_eq!(below.negated().to_text(), "1.5");
    assert_eq!(below.plus(&number("1.5")).to_text(), "0");
    assert_eq!(below.plus(&number("2")).to_text(), "0.5");
    assert_eq!(below.plus(&number("1")).to_text(), "-0.5");
    assert_eq!(below.plus(&below).to_text(), "-3");
    assert_eq!(below.minus(&below).to_text(), "0");
    assert_eq!(below.minus(&number("1.5")).to_text(), "-3");
    assert_eq!(number("2").minus(&below).to_text(), "3.5");
}

#[test]
fn long_numbers_are_exact() {
    assert_eq!(sum("99999999999999999999999999999999", "1"), "100000000000000000000000000000000");
    assert_eq!(
        difference("100000000000000000000000000000000", "0.00000000000000000001"),
        "99999999999999999999999999999999.99999999999999999999"
    );
    assert_eq!(sum("18446744073709551615", "18446744073709551615"), "36893488147419103230");
}

#[test]
fn copy_is_the_same_number() {
    let original = number("12,345.67");
    let copy = original.clone();
    assert_eq!(copy.to_text(), "12345.67");
    assert_eq!(original.minus(&copy).to_text(), "0");
}
