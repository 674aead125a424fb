//! The extractor: from the text of a benchmark report to its measurements.
//!
//! A report is read line by line. A line that holds the marker `... bench:`
//! is a result line and gives exactly one measurement; every other line is
//! passed over. The fields of a measurement are the capture groups of the
//! report-line pattern, which the `regex` crate matches.
//!
//! Two decisions are made here on purpose:
//!
//! * Where the pattern occurs more than once in a line, the last occurrence
//!   gives the measurement.
//! * A result line in which the pattern does not occur is not dropped: it
//!   gives a placeholder with an empty name and zero for both values, so that
//!   the count of measurements is the count of result lines.
//!
//! Every occurrence is read, also those that a later one replaces, and a
//! numeral that cannot be read stops the extraction with an error.

use crate::decimal::{Decimal, DecimalValue};
use crate::numeral::{is_numeral, numeral_value, parse_numeral};
use crate::pattern::{captures_in, pattern_accepted, Matcher};
use crate::text::{contains, contains_str, lines_of, split_lines};
use vstd::prelude::*;

verus! {

/// What marks a line as a result line.
pub const MARKER: &'static str = "... bench:";

/// The pattern of a result line. Its three capture groups are the name of
/// the benchmark, the central value and the deviation.
pub const PATTERN: &'static str =
    r"test ([a-zA-Z0-9:_]+)\s+... bench:\s+([0-9,\.]+) ns/iter \(\+/- ([0-9,\.]+)\)";

/// The timing of one benchmark.
#[derive(Debug)]
pub struct Measurement {
    /// The name of the benchmark.
    pub name: String,
    /// The central value of the timing samples, in time units per iteration.
    pub central: Decimal,
    /// The deviation of the samples to either side of the central value, in
    /// the same unit.
    pub spread: Decimal,
}

/// The mathematical content of a [`Measurement`].
pub struct MeasurementValue {
    pub name: Seq<char>,
    pub central: DecimalValue,
    pub spread: DecimalValue,
}

impl MeasurementValue {
    /// Neither value is below zero.
    pub open spec fn well_formed(self) -> bool {
        self.central.units >= 0 && self.spread.units >= 0
    }
}

impl View for Measurement {
    type V = MeasurementValue;

    open spec fn view(&self) -> MeasurementValue {
        MeasurementValue { name: self.name@, central: self.central@, spread: self.spread@ }
    }
}

impl DeepView for Measurement {
    type V = MeasurementValue;

    open spec fn deep_view(&self) -> MeasurementValue {
        self@
    }
}

impl Clone for Measurement {
    fn clone(&self) -> (copy: Measurement)
        ensures
            copy@ == self@,
    {
        Measurement {
            name: self.name.clone(),
            central: self.central.clone(),
            spread: self.spread.clone(),
        }
    }
}

impl Default for Measurement {
    /// The [`placeholder`]: no name, and zero for both values.
    fn default() -> (measurement: Measurement)
        ensures
            measurement@ == placeholder(),
    {
        Measurement { name: String::new(), central: Decimal::zero(), spread: Decimal::zero() }
    }
}

/// Why an occurrence of the pattern could not be read.
#[derive(Debug, Clone, Copy, PartialEq, Eq, Structural)]
pub enum Fault {
    /// One of the three capture groups took no part in the match.
    MissingGroup,
    /// A captured value is no numeral once its separators are taken out.
    MalformedNumeral,
}

/// Why a report could not be extracted.
#[derive(Debug, Clone, Copy, PartialEq, Eq, Structural)]
pub enum ExtractError {
    /// The pattern of a result line was not accepted by the matcher.
    Pattern,
    /// In the line with this index, counted from 0, a capture group took no
    /// part in a match.
    MissingGroup { line: usize },
    /// In the line with this index, counted from 0, a captured value is no
    /// numeral.
    MalformedNumeral { line: usize },
}

impl Fault {
    /// The error for this fault in the line with index `line`.
    pub open spec fn at_line(self, line: int) -> ExtractError {
        match self {
            Fault::MissingGroup => ExtractError::MissingGroup { line: line as usize },
            Fault::MalformedNumeral => ExtractError::MalformedNumeral { line: line as usize },
        }
    }

    /// The error for this fault in the line with index `line`.
    pub fn in_line(self, line: usize) -> (error: ExtractError)
        ensures
            error == self.at_line(line as int),
    {
        match self {
            Fault::MissingGroup => ExtractError::MissingGroup { line },
            Fault::MalformedNumeral => ExtractError::MalformedNumeral { line },
        }
    }
}

/// The measurement that stands for a result line in which the pattern does
/// not occur: no name, and zero for both values.
pub open spec fn placeholder() -> MeasurementValue {
    MeasurementValue {
        name: Seq::empty(),
        central: DecimalValue { units: 0, scale: 0 },
        spread: DecimalValue { units: 0, scale: 0 },
    }
}

/// The text of the capture group `index` of an occurrence, if the occurrence
/// has such a group and it took part in the match.
pub open spec fn group_text(groups: Seq<Option<Seq<char>>>, index: int) -> Option<Seq<char>> {
    if 0 <= index < groups.len() {
        groups[index]
    } else {
        None
    }
}

/// What one occurrence of the pattern reads as. Group 1 is the name, group 2
/// the central value, group 3 the deviation; they are looked at in this
/// order, and the first that is missing or is no numeral decides the fault.
pub open spec fn occurrence_reading(groups: Seq<Option<Seq<char>>>) -> Result<
    MeasurementValue,
    Fault,
> {
    match (group_text(groups, 1), group_text(groups, 2), group_text(groups, 3)) {
        (None, _, _) => Err(Fault::MissingGroup),
        (Some(_), None, _) => Err(Fault::MissingGroup),
        (Some(name), Some(central), third) => if !is_numeral(central) {
            Err(Fault::MalformedNumeral)
        } else {
            match third {
                None => Err(Fault::MissingGroup),
                Some(spread) => if !is_numeral(spread) {
                    Err(Fault::MalformedNumeral)
                } else {
                    Ok(
                        MeasurementValue {
                            name,
                            central: numeral_value(central),
                            spread: numeral_value(spread),
                        },
                    )
                },
            }
        },
    }
}

/// What a result line reads as, given the occurrences of the pattern in it
/// from left to right.
///
/// The first occurrence that cannot be read decides the fault. Where all can
/// be read, the last one gives the measurement; where there is none, the line
/// gives the [`placeholder`].
pub open spec fn line_reading(found: Seq<Seq<Option<Seq<char>>>>) -> Result<
    MeasurementValue,
    Fault,
>
    decreases found.len(),
{
    if found.len() == 0 {
        Ok(placeholder())
    } else {
        match line_reading(found.drop_last()) {
            Err(fault) => Err(fault),
            Ok(_) => occurrence_reading(found.last()),
        }
    }
}

/// Whether `line` is a result line: it holds the marker.
pub open spec fn is_result_line(line: Seq<char>) -> bool {
    contains(line, MARKER@)
}

/// What a result line reads as.
pub open spec fn result_line_reading(line: Seq<char>) -> Result<MeasurementValue, Fault> {
    line_reading(captures_in(PATTERN@, line))
}

/// What the lines of a report read as: the measurements of its result lines
/// in the order of the lines, or the error of the first result line that
/// cannot be read.
pub open spec fn lines_reading(lines: Seq<Seq<char>>) -> Result<Seq<MeasurementValue>, ExtractError>
    decreases lines.len(),
{
    if lines.len() == 0 {
        Ok(Seq::empty())
    } else {
        match lines_reading(lines.drop_last()) {
            Err(error) => Err(error),
            Ok(before) => {
                let line = lines.last();
                if !is_result_line(line) {
                    Ok(before)
                } else {
                    match result_line_reading(line) {
                        Ok(measurement) => Ok(before.push(measurement)),
                        Err(fault) => Err(fault.at_line(lines.len() - 1)),
                    }
                }
            },
        }
    }
}

/// What the text of a report reads as.
pub open spec fn extraction(text: Seq<char>) -> Result<Seq<MeasurementValue>, ExtractError> {
    lines_reading(lines_of(text))
}

/// The test that a line is a result line.
pub open spec fn result_line_test() -> spec_fn(Seq<char>) -> bool {
    |line: Seq<char>| is_result_line(line)
}

/// The result lines of a report, in the order of the lines.
pub open spec fn result_lines(text: Seq<char>) -> Seq<Seq<char>> {
    lines_of(text).filter(result_line_test())
}

/// The mathematical content of what an extraction returned.
pub open spec fn outcome_view(outcome: Result<Vec<Measurement>, ExtractError>) -> Result<
    Seq<MeasurementValue>,
    ExtractError,
> {
    match outcome {
        Ok(measurements) => Ok(measurements.deep_view()),
        Err(error) => Err(error),
    }
}

/// The owned text of capture group `index`, if there is one.
fn group_string(groups: &Vec<Option<String>>, index: usize) -> (text: Option<String>)
    ensures
        text.deep_view() == group_text(groups.deep_view(), index as int),
{
    if index < groups.len() {
        match &groups[index] {
            Some(text) => {
                assert(groups.deep_view()[index as int] == Some(text@));
                Some(text.clone())
            },
            None => {
                assert(groups.deep_view()[index as int] == None::<Seq<char>>);
                None
            },
        }
    } else {
        None
    }
}

/// Reads one occurrence of the pattern from the text of its capture groups,
/// group 0 (the whole match) first.
pub fn read_occurrence(groups: &Vec<Option<String>>) -> (reading: Result<Measurement, Fault>)
    ensures
        match occurrence_reading(groups.deep_view()) {
            Ok(value) => reading matches Ok(measurement) && measurement@ == value
                && value.well_formed(),
            Err(fault) => reading == Err::<Measurement, Fault>(fault),
        },
{
    let name = match group_string(groups, 1) {
        Some(name) => name,
        None => {
            return Err(Fault::MissingGroup);
        },
    };
    let central_text = match group_string(groups, 2) {
        Some(text) => text,
        None => {
            return Err(Fault::MissingGroup);
        },
    };
    let central = match parse_numeral(central_text.as_str()) {
        Some(number) => number,
        None => {
            return Err(Fault::MalformedNumeral);
        },
    };
    let spread_text = match group_string(groups, 3) {
        Some(text) => text,
        None => {
            return Err(Fault::MissingGroup);
        },
    };
    let spread = match parse_numeral(spread_text.as_str()) {
        Some(number) => number,
        None => {
            return Err(Fault::MalformedNumeral);
        },
    };
    Ok(Measurement { name, central, spread })
}

/// Reads a result line from the occurrences of the pattern in it, given from
/// left to right.
pub fn read_occurrences(found: &Vec<Vec<Option<String>>>) -> (reading: Result<Measurement, Fault>)
    ensures
        match line_reading(found.deep_view()) {
            Ok(value) => reading matches Ok(measurement) && measurement@ == value
                && value.well_formed(),
            Err(fault) => reading == Err::<Measurement, Fault>(fault),
        },
{
    let mut latest = Measurement::default();
    let mut i: usize = 0;
    assert(found.deep_view().take(0) =~= Seq::empty());
    while i < found.len()
        invariant
            i <= found.len(),
            line_reading(found.deep_view().take(i as int)) == Ok::<MeasurementValue, Fault>(latest@),
            latest@.well_formed(),
        decreases found.len() - i,
    {
        let ghost upto = found.deep_view().take(i + 1);
        assert(upto.drop_last() =~= found.deep_view().take(i as int));
        assert(upto.last() == found[i as int].deep_view());
        match read_occurrence(&found[i]) {
            Ok(measurement) => {
                latest = measurement;
            },
            Err(fault) => {
                proof {
                    lemma_fault_stays(found.deep_view(), i + 1);
                }
                return Err(fault);
            },
        }
        i += 1;
    }
    assert(found.deep_view().take(found.len() as int) =~= found.deep_view());
    Ok(latest)
}

/// Reads benchmark reports. It holds the compiled pattern of a result line,
/// so that one extractor serves any number of reports.
pub struct Extractor {
    matcher: Matcher,
}

impl Extractor {
    #[verifier::type_invariant]
    spec fn holds_pattern(self) -> bool {
        self.matcher.source() == PATTERN@
    }

    /// Compiles the pattern of a result line.
    ///
    /// Succeeds exactly where the matcher accepts the pattern; the error
    /// where it does not is [`ExtractError::Pattern`].
    pub fn new() -> (made: Result<Extractor, ExtractError>)
        ensures
            made is Ok == pattern_accepted(PATTERN@),
            made matches Err(error) ==> error == ExtractError::Pattern,
    {
        match Matcher::compile(PATTERN) {
            Some(matcher) => Ok(Extractor { matcher }),
            None => Err(ExtractError::Pattern),
        }
    }

    /// The pattern that this extractor matches result lines against.
    pub fn pattern(&self) -> (source: &str)
        ensures
            source@ == PATTERN@,
    {
        proof {
            use_type_invariant(self);
        }
        self.matcher.pattern()
    }

    /// Reads one line of a report: nothing for a line without the marker,
    /// else the measurement of the line or the fault in it.
    pub fn read_line(&self, line: &str) -> (reading: Option<Result<Measurement, Fault>>)
        ensures
            reading is Some <==> is_result_line(line@),
            reading matches Some(read) ==> match result_line_reading(line@) {
                Ok(value) => read matches Ok(measurement) && measurement@ == value
                    && value.well_formed(),
                Err(fault) => read == Err::<Measurement, Fault>(fault),
            },
    {
        proof {
            use_type_invariant(self);
        }
        if !contains_str(line, MARKER) {
            return None;
        }
        let found = self.matcher.occurrences(line);
        Some(read_occurrences(&found))
    }

    /// Extracts the measurements of a report: one for each result line, in
    /// the order of the lines.
    ///
    /// The extraction fails exactly when an occurrence of the pattern in a
    /// result line cannot be read, with the error of the first such line.
    pub fn extract(&self, input: &str) -> (outcome: Result<Vec<Measurement>, ExtractError>)
        ensures
            outcome_view(outcome) == extraction(input@),
            outcome matches Ok(measurements) ==> {
                &&& measurements.len() == result_lines(input@).len()
                &&& forall|n: int|
                    0 <= n < measurements.len() ==> {
                        &&& (#[trigger] measurements[n])@.well_formed()
                        &&& result_line_reading(result_lines(input@)[n]) == Ok::<
                            MeasurementValue,
                            Fault,
                        >(measurements[n]@)
                    }
            },
    {
        let lines = split_lines(input);
        let mut measurements: Vec<Measurement> = Vec::new();
        let mut i: usize = 0;
        proof {
            assert(lines.deep_view().take(0) =~= Seq::empty());
            assert(measurements.deep_view() =~= Seq::empty());
        }
        while i < lines.len()
            invariant
                i <= lines.len(),
                lines.deep_view() == lines_of(input@),
                lines_reading(lines.deep_view().take(i as int)) == Ok::<
                    Seq<MeasurementValue>,
                    ExtractError,
                >(measurements.deep_view()),
                forall|n: int|
                    0 <= n < measurements.len() ==> (#[trigger] measurements[n])@.well_formed(),
            decreases lines.len() - i,
        {
            let ghost upto = lines.deep_view().take(i + 1);
            let ghost before = measurements.deep_view();
            proof {
                assert(upto.drop_last() =~= lines.deep_view().take(i as int));
                assert(upto.last() == lines[i as int]@);
            }
            match self.read_line(lines[i].as_str()) {
                None => {},
                Some(Ok(measurement)) => {
                    measurements.push(measurement);
                    assert(measurements.deep_view() =~= before.push(measurement@));
                },
                Some(Err(fault)) => {
                    proof {
                        lemma_error_stays(lines.deep_view(), i + 1);
                    }
                    return Err(fault.in_line(i));
                },
            }
            i += 1;
        }
        proof {
            assert(lines.deep_view().take(lines.len() as int) =~= lines.deep_view());
            extraction_follows_result_lines(input@);
            assert(measurements.deep_view().len() == measurements.len());
            assert forall|n: int| 0 <= n < measurements.len() implies result_line_reading(
                result_lines(input@)[n],
            ) == Ok::<MeasurementValue, Fault>((#[trigger] measurements[n])@) by {
                assert(measurements.deep_view()[n] == measurements[n]@);
            }
        }
        Ok(measurements)
    }
}

/// Extracts the measurements of a benchmark report.
///
/// Compiles the pattern and reads the report with it, as
/// [`Extractor::extract`] does. Where the matcher accepts the pattern, the
/// outcome is exactly the [`extraction`] of the text; where it does not, the
/// outcome is [`ExtractError::Pattern`], whatever the text.
pub fn parse_cargo_bench_result(input: &str) -> (outcome: Result<Vec<Measurement>, ExtractError>)
    ensures
        pattern_accepted(PATTERN@) ==> outcome_view(outcome) == extraction(input@),
        !pattern_accepted(PATTERN@) ==> outcome == Err::<Vec<Measurement>, ExtractError>(
            ExtractError::Pattern,
        ),
        outcome matches Ok(measurements) ==> {
            &&& measurements.len() == result_lines(input@).len()
            &&& forall|n: int|
                0 <= n < measurements.len() ==> {
                    &&& (#[trigger] measurements[n])@.well_formed()
                    &&& result_line_reading(result_lines(input@)[n]) == Ok::<
                        MeasurementValue,
                        Fault,
                    >(measurements[n]@)
                }
        },
{
    match Extractor::new() {
        Ok(extractor) => extractor.extract(input),
        Err(error) => Err(error),
    }
}

/// A fault met among the first `upto` occurrences is the fault of the line.
pub proof fn lemma_fault_stays(found: Seq<Seq<Option<Seq<char>>>>, upto: int)
    requires
        0 <= upto <= found.len(),
        line_reading(found.take(upto)) is Err,
    ensures
        line_reading(found) == line_reading(found.take(upto)),
    decreases found.len() - upto,
{
    if upto == found.len() {
        assert(found.take(upto) =~= found);
    } else {
        assert(found.take(upto + 1).drop_last() =~= found.take(upto));
        lemma_fault_stays(found, upto + 1);
    }
}

/// An error met among the first `upto` lines is the error of the report.
pub proof fn lemma_error_stays(lines: Seq<Seq<char>>, upto: int)
    requires
        0 <= upto <= lines.len(),
        lines_reading(lines.take(upto)) is Err,
    ensures
        lines_reading(lines) == lines_reading(lines.take(upto)),
    decreases lines.len() - upto,
{
    if upto == lines.len() {
        assert(lines.take(upto) =~= lines);
    } else {
        assert(lines.take(upto + 1).drop_last() =~= lines.take(upto));
        lemma_error_stays(lines, upto + 1);
    }
}

/// Lines that read without an error give one measurement for each result
/// line among them, in the order of the lines.
pub proof fn lemma_lines_reading_in_order(lines: Seq<Seq<char>>)
    requires
        lines_reading(lines) is Ok,
    ensures
        lines_reading(lines) matches Ok(measurements) && measurements.len() == lines.filter(
            result_line_test(),
        ).len() && forall|n: int|
            0 <= n < measurements.len() ==> result_line_reading(
                #[trigger] lines.filter(result_line_test())[n],
            ) == Ok::<MeasurementValue, Fault>(measurements[n]),
    decreases lines.len(),
{
    let test = result_line_test();
    if lines.len() == 0 {
        lines.lemma_filter_len(test);
    } else {
        let shorter = lines.drop_last();
        let last = lines.last();
        assert(lines =~= shorter.push(last));
        shorter.lemma_filter_push(last, test);
        lemma_lines_reading_in_order(shorter);
    }
}

/// Lines that read with an error hold a result line that cannot be read, the
/// error names the first such line and its fault, and every result line
/// before it can be read.
pub proof fn lemma_lines_reading_error(lines: Seq<Seq<char>>) -> (line: int)
    requires
        lines_reading(lines) is Err,
    ensures
        0 <= line < lines.len(),
        is_result_line(lines[line]),
        result_line_reading(lines[line]) matches Err(fault) && lines_reading(lines) == Err::<
            Seq<MeasurementValue>,
            ExtractError,
        >(fault.at_line(line)),
        forall|earlier: int|
            0 <= earlier < line && is_result_line(#[trigger] lines[earlier])
                ==> result_line_reading(lines[earlier]) is Ok,
    decreases lines.len(),
{
    let shorter = lines.drop_last();
    if lines_reading(shorter) is Err {
        let line = lemma_lines_reading_error(shorter);
        assert forall|earlier: int|
            0 <= earlier < line && is_result_line(
                #[trigger] lines[earlier],
            ) implies result_line_reading(lines[earlier]) is Ok by {
            assert(lines[earlier] == shorter[earlier]);
        }
        line
    } else {
        lemma_lines_all_readable(shorter);
        assert forall|earlier: int|
            0 <= earlier < lines.len() - 1 && is_result_line(
                #[trigger] lines[earlier],
            ) implies result_line_reading(lines[earlier]) is Ok by {
            assert(lines[earlier] == shorter[earlier]);
        }
        lines.len() - 1
    }
}

/// In lines that read without an error, every result line can be read.
pub proof fn lemma_lines_all_readable(lines: Seq<Seq<char>>)
    requires
        lines_reading(lines) is Ok,
    ensures
        forall|n: int|
            0 <= n < lines.len() && is_result_line(#[trigger] lines[n]) ==> result_line_reading(
                lines[n],
            ) is Ok,
    decreases lines.len(),
{
    if lines.len() > 0 {
        let shorter = lines.drop_last();
        lemma_lines_all_readable(shorter);
        assert forall|n: int|
            0 <= n < lines.len() && is_result_line(#[trigger] lines[n]) implies result_line_reading(
                lines[n],
            ) is Ok by {
            if n < shorter.len() {
                assert(lines[n] == shorter[n]);
            }
        }
    }
}

/// A report without a result line has no measurements: its extraction
/// succeeds with the empty sequence.
pub proof fn no_result_line_no_measurement(text: Seq<char>)
    requires
        forall|n: int|
            0 <= n < lines_of(text).len() ==> !is_result_line(#[trigger] lines_of(text)[n]),
    ensures
        extraction(text) == Ok::<Seq<MeasurementValue>, ExtractError>(Seq::empty()),
{
    lemma_no_result_line(lines_of(text));
}

proof fn lemma_no_result_line(lines: Seq<Seq<char>>)
    requires
        forall|n: int| 0 <= n < lines.len() ==> !is_result_line(#[trigger] lines[n]),
    ensures
        lines_reading(lines) == Ok::<Seq<MeasurementValue>, ExtractError>(Seq::empty()),
    decreases lines.len(),
{
    if lines.len() > 0 {
        let shorter = lines.drop_last();
        assert forall|n: int| 0 <= n < shorter.len() implies !is_result_line(
            #[trigger] shorter[n],
        ) by {
            assert(shorter[n] == lines[n]);
        }
        lemma_no_result_line(shorter);
        assert(!is_result_line(lines[lines.len() - 1]));
    }
}

/// A result line in which the pattern does not occur is read, not dropped
/// and not refused: it gives the placeholder.
pub proof fn unmatched_result_line_gives_placeholder(line: Seq<char>)
    requires
        captures_in(PATTERN@, line).len() == 0,
    ensures
        result_line_reading(line) == Ok::<MeasurementValue, Fault>(placeholder()),
{
}

/// Where every occurrence in a line can be read, the last one gives the
/// measurement of the line.
pub proof fn last_occurrence_decides(found: Seq<Seq<Option<Seq<char>>>>)
    requires
        found.len() > 0,
        forall|k: int| 0 <= k < found.len() ==> occurrence_reading(#[trigger] found[k]) is Ok,
    ensures
        line_reading(found) == occurrence_reading(found.last()),
    decreases found.len(),
{
    let shorter = found.drop_last();
    if shorter.len() > 0 {
        assert forall|k: int| 0 <= k < shorter.len() implies occurrence_reading(
            #[trigger] shorter[k],
        ) is Ok by {
            assert(shorter[k] == found[k]);
        }
        last_occurrence_decides(shorter);
        assert(occurrence_reading(shorter[shorter.len() - 1]) is Ok);
    }
    assert(line_reading(shorter) is Ok);
}

/// An occurrence with a name whose central value is no numeral cannot be
/// read, and neither can one whose central value is a numeral but whose
/// deviation is none: the fault is a malformed numeral.
pub proof fn malformed_numeral_is_a_fault(
    groups: Seq<Option<Seq<char>>>,
    central: Seq<char>,
    spread: Seq<char>,
)
    requires
        group_text(groups, 1) is Some,
        group_text(groups, 2) == Some(central),
        group_text(groups, 3) == Some(spread),
        !is_numeral(central) || !is_numeral(spread),
    ensures
        occurrence_reading(groups) == Err::<MeasurementValue, Fault>(Fault::MalformedNumeral),
{
}

/// One occurrence that cannot be read makes its line unreadable, wherever in
/// the line it stands and whatever follows it.
pub proof fn unreadable_occurrence_stops_line(found: Seq<Seq<Option<Seq<char>>>>, at: int)
    requires
        0 <= at < found.len(),
        occurrence_reading(found[at]) is Err,
    ensures
        line_reading(found) is Err,
{
    let upto = found.take(at + 1);
    assert(upto.last() == found[at]);
    assert(line_reading(upto) is Err);
    lemma_fault_stays(found, at + 1);
}

/// One result line that cannot be read stops the extraction: no sequence of
/// measurements is given, the line is neither passed over nor replaced by a
/// placeholder.
pub proof fn unreadable_line_stops_extraction(text: Seq<char>, line: int)
    requires
        0 <= line < lines_of(text).len(),
        is_result_line(lines_of(text)[line]),
        result_line_reading(lines_of(text)[line]) is Err,
    ensures
        extraction(text) is Err,
{
    if lines_reading(lines_of(text)) is Ok {
        lemma_lines_all_readable(lines_of(text));
    }
}

/// Extraction keeps to the lines of the report. If it succeeds, every result
/// line can be read, there is one measurement for each result line, and the
/// n-th measurement is the reading of the n-th result line. If it fails, the
/// error names the first result line that cannot be read, with its fault.
pub proof fn extraction_follows_result_lines(text: Seq<char>)
    ensures
        match extraction(text) {
            Ok(measurements) => {
                &&& measurements.len() == result_lines(text).len()
                &&& forall|n: int|
                    0 <= n < measurements.len() ==> result_line_reading(
                        #[trigger] result_lines(text)[n],
                    ) == Ok::<MeasurementValue, Fault>(measurements[n])
            },
            Err(error) => exists|line: int|
                {
                    &&& 0 <= line < lines_of(text).len()
                    &&& is_result_line(#[trigger] lines_of(text)[line])
                    &&& result_line_reading(lines_of(text)[line]) matches Err(fault)
                        && error == fault.at_line(line)
                    &&& forall|earlier: int|
                        0 <= earlier < line && is_result_line(#[trigger] lines_of(text)[earlier])
                            ==> result_line_reading(lines_of(text)[earlier]) is Ok
                },
        },
{
    let lines = lines_of(text);
    if lines_reading(lines) is Ok {
        lemma_lines_reading_in_order(lines);
    } else {
        let line = lemma_lines_reading_error(lines);
        assert(is_result_line(lines_of(text)[line]));
    }
}

/// Reading the same report twice gives the same outcome: an outcome depends
/// on nothing but the text.
pub proof fn extraction_is_repeatable(
    text: Seq<char>,
    first: Result<Vec<Measurement>, ExtractError>,
    second: Result<Vec<Measurement>, ExtractError>,
)
    requires
        outcome_view(first) == extraction(text),
        outcome_view(second) == extraction(text),
    ensures
        outcome_view(first) == outcome_view(second),
        first is Ok == second is Ok,
        first matches Ok(a) ==> second matches Ok(b) && a.deep_view() == b.deep_view(),
        first matches Err(a) ==> second matches Err(b) && a == b,
{
}

/// Parsing the same report twice gives the same outcome, whether or not the
/// matcher accepts the pattern: what [`parse_cargo_bench_result`] returns
/// depends on nothing but the text.
pub proof fn parsing_is_repeatable(
    text: Seq<char>,
    first: Result<Vec<Measurement>, ExtractError>,
    second: Result<Vec<Measurement>, ExtractError>,
)
    requires
        pattern_accepted(PATTERN@) ==> outcome_view(first) == extraction(text),
        pattern_accepted(PATTERN@) ==> outcome_view(second) == extraction(text),
        !pattern_accepted(PATTERN@) ==> first == Err::<Vec<Measurement>, ExtractError>(
            ExtractError::Pattern,
        ),
        !pattern_accepted(PATTERN@) ==> second == Err::<Vec<Measurement>, ExtractError>(
            ExtractError::Pattern,
        ),
    ensures
        outcome_view(first) == outcome_view(second),
{
}

} // verus!
