//! The numerals of a benchmark report.
//!
//! A numeral is written with decimal digits, at most one decimal point, and
//! any number of grouping separators (`1,234.5`). The separators carry no
//! meaning: they are taken out before the digits are read.

use crate::decimal::{
    digit_char, fixed_text, natural_text, without_trailing_zeros, Decimal, DecimalValue,
};
use crate::digits::{
    are_digits, digits_value, lemma_pow10_positive, lemma_pow10_sum, lemma_value_concat,
    lemma_value_single, pow10,
};
use crate::text::{chars_of, string_of};
use vstd::arithmetic::div_mod::{lemma_fundamental_div_mod, lemma_mod_pos_bound};
use vstd::prelude::*;

verus! {

/// Whether `c` is one of the ten decimal digits.
pub open spec fn is_digit(c: char) -> bool {
    '0' <= c <= '9'
}

/// The digit that `c` writes.
pub open spec fn digit_of(c: char) -> u8 {
    (c as int - 48) as u8
}

/// The test that a character is no grouping separator.
pub open spec fn not_separator() -> spec_fn(char) -> bool {
    |c: char| c != ','
}

/// `text` with every grouping separator taken out.
pub open spec fn without_separators(text: Seq<char>) -> Seq<char> {
    text.filter(not_separator())
}

/// Whether `text` holds a decimal point at position `at`.
pub open spec fn point_at(text: Seq<char>, at: int) -> bool {
    0 <= at < text.len() && text[at] == '.'
}

/// Whether `text` is a numeral without separators: digits and points only,
/// at most one point, at least one digit.
pub open spec fn is_plain_numeral(text: Seq<char>) -> bool {
    &&& forall|i: int| 0 <= i < text.len() ==> is_digit(#[trigger] text[i]) || text[i] == '.'
    &&& forall|i: int, j: int| point_at(text, i) && point_at(text, j) ==> i == j
    &&& exists|i: int| 0 <= i < text.len() && is_digit(#[trigger] text[i])
}

/// The digits that `text` holds, in order; what is no digit is left out.
pub open spec fn digits_in(text: Seq<char>) -> Seq<u8>
    decreases text.len(),
{
    if text.len() == 0 {
        Seq::empty()
    } else if is_digit(text.last()) {
        digits_in(text.drop_last()).push(digit_of(text.last()))
    } else {
        digits_in(text.drop_last())
    }
}

/// The count of characters behind the decimal point of `text`; 0 where it
/// has none.
pub open spec fn scale_in(text: Seq<char>) -> nat {
    if exists|at: int| point_at(text, at) {
        (text.len() - 1 - choose|at: int| point_at(text, at)) as nat
    } else {
        0
    }
}

/// The number that a numeral without separators writes.
pub open spec fn plain_value(text: Seq<char>) -> DecimalValue {
    DecimalValue { units: digits_value(digits_in(text)) as int, scale: scale_in(text) }
}

/// Whether `text` is a numeral: one that is well formed once its grouping
/// separators are taken out.
pub open spec fn is_numeral(text: Seq<char>) -> bool {
    is_plain_numeral(without_separators(text))
}

/// The number that a numeral writes.
pub open spec fn numeral_value(text: Seq<char>) -> DecimalValue {
    plain_value(without_separators(text))
}

/// What reading `text` as a numeral gives: its number, or nothing where it is
/// no numeral.
pub open spec fn numeral_reading(text: Seq<char>) -> Option<DecimalValue> {
    if is_numeral(text) {
        Some(numeral_value(text))
    } else {
        None
    }
}

/// Whether every character of `text` is a digit.
pub open spec fn all_digits(text: Seq<char>) -> bool {
    forall|i: int| 0 <= i < text.len() ==> is_digit(#[trigger] text[i])
}

/// `text` without its grouping separators.
pub fn strip_separators(text: &str) -> (plain: String)
    ensures
        plain@ == without_separators(text@),
{
    let chars = chars_of(text);
    let mut kept: Vec<char> = Vec::new();
    let mut i: usize = 0;
    proof {
        assert(chars@.take(0) =~= Seq::<char>::empty());
        chars@.take(0).lemma_filter_len(not_separator());
        assert(without_separators(chars@.take(0)) =~= Seq::<char>::empty());
    }
    while i < chars.len()
        invariant
            i <= chars.len(),
            kept@ == without_separators(chars@.take(i as int)),
        decreases chars.len() - i,
    {
        let c = chars[i];
        proof {
            assert(chars@.take(i + 1) =~= chars@.take(i as int).push(c));
            chars@.take(i as int).lemma_filter_push(c, not_separator());
        }
        if c != ',' {
            kept.push(c);
        }
        i += 1;
    }
    assert(chars@.take(chars.len() as int) =~= chars@);
    string_of(&kept)
}

/// Reads a numeral that holds no grouping separators.
///
/// Gives the number exactly as written: one unit for every step of the last
/// digit, whatever the count of digits.
pub fn parse_plain(text: &str) -> (number: Option<Decimal>)
    ensures
        number is Some <==> is_plain_numeral(text@),
        number matches Some(n) ==> n@ == plain_value(text@),
{
    let chars = chars_of(text);
    let mut digits: Vec<u8> = Vec::new();
    let mut scale: usize = 0;
    let mut pointed = false;
    let ghost mut point: int = 0;
    let mut i: usize = 0;
    while i < chars.len()
        invariant
            i <= chars.len(),
            chars@ == text@,
            are_digits(digits@),
            digits@ == digits_in(chars@.take(i as int)),
            scale <= digits.len(),
            forall|j: int| 0 <= j < i ==> is_digit(#[trigger] chars@[j]) || chars@[j] == '.',
            digits.len() == 0 ==> forall|j: int| 0 <= j < i ==> !is_digit(#[trigger] chars@[j]),
            digits.len() > 0 ==> exists|j: int| 0 <= j < i && is_digit(#[trigger] chars@[j]),
            pointed ==> 0 <= point < i && chars@[point] == '.' && scale == i - 1 - point,
            pointed ==> forall|j: int| 0 <= j < i && chars@[j] == '.' ==> j == point,
            !pointed ==> scale == 0 && forall|j: int| 0 <= j < i ==> chars@[j] != '.',
        decreases chars.len() - i,
    {
        let c = chars[i];
        proof {
            assert(chars@.take(i + 1).drop_last() =~= chars@.take(i as int));
            assert(chars@.take(i + 1).last() == c);
        }
        if '0' <= c && c <= '9' {
            digits.push(c as u8 - 48);
            if pointed {
                scale += 1;
            }
            assert(is_digit(chars@[i as int]));
        } else if c == '.' {
            if pointed {
                assert(point_at(text@, point) && point_at(text@, i as int));
                return None;
            }
            pointed = true;
            proof {
                point = i as int;
            }
        } else {
            assert(!(is_digit(text@[i as int]) || text@[i as int] == '.'));
            return None;
        }
        i += 1;
    }
    assert(chars@.take(chars.len() as int) =~= chars@);
    if digits.len() == 0 {
        return None;
    }
    proof {
        if pointed {
            assert(point_at(text@, point));
            let chosen = choose|at: int| point_at(text@, at);
            assert(point_at(text@, chosen));
            assert(chosen == point);
        } else {
            assert(forall|at: int| !point_at(text@, at));
        }
        assert forall|a: int, b: int| point_at(text@, a) && point_at(text@, b) implies a == b by {}
    }
    Some(Decimal::from_digits(digits, scale))
}

/// Reads a numeral: takes out its grouping separators and reads the rest.
///
/// Gives nothing where what is left is no numeral: no digit at all, a second
/// decimal point, or any other character.
pub fn parse_numeral(text: &str) -> (number: Option<Decimal>)
    ensures
        number is Some <==> is_numeral(text@),
        number matches Some(n) ==> n@ == numeral_value(text@) && n@.units >= 0,
{
    let plain = strip_separators(text);
    parse_plain(plain.as_str())
}

/// Taking the separators out twice is taking them out once.
pub proof fn lemma_without_separators_twice(text: Seq<char>)
    ensures
        without_separators(without_separators(text)) == without_separators(text),
    decreases text.len(),
{
    let keep = not_separator();
    if text.len() == 0 {
        assert(text.filter(keep) =~= Seq::<char>::empty()) by {
            text.lemma_filter_len(keep);
        }
        assert(Seq::<char>::empty().filter(keep) =~= Seq::<char>::empty()) by {
            Seq::<char>::empty().lemma_filter_len(keep);
        }
    } else {
        let shorter = text.drop_last();
        let last = text.last();
        assert(text =~= shorter.push(last));
        lemma_without_separators_twice(shorter);
        shorter.lemma_filter_push(last, keep);
        shorter.filter(keep).lemma_filter_push(last, keep);
    }
}

/// Grouping separators do not change what a numeral means: a text is a
/// numeral exactly when it is one without its separators, and then both write
/// the same number.
pub proof fn separators_are_ignored(text: Seq<char>)
    ensures
        is_numeral(without_separators(text)) == is_numeral(text),
        numeral_value(without_separators(text)) == numeral_value(text),
        numeral_reading(without_separators(text)) == numeral_reading(text),
{
    lemma_without_separators_twice(text);
}

/// A grouping separator put in at any place changes nothing: the text reads
/// as before.
pub proof fn separator_inserted(text: Seq<char>, at: int)
    requires
        0 <= at <= text.len(),
    ensures
        without_separators(text.insert(at, ',')) == without_separators(text),
        numeral_reading(text.insert(at, ',')) == numeral_reading(text),
{
    let keep = not_separator();
    let head = text.take(at);
    let tail = text.skip(at);
    assert(text =~= head + tail);
    assert(text.insert(at, ',') =~= head.push(',') + tail);
    Seq::filter_distributes_over_add(head.push(','), tail, keep);
    Seq::filter_distributes_over_add(head, tail, keep);
    head.lemma_filter_push(',', keep);
}

/// Two texts that differ only in their grouping separators read alike.
pub proof fn same_digits_same_reading(a: Seq<char>, b: Seq<char>)
    requires
        without_separators(a) == without_separators(b),
    ensures
        numeral_reading(a) == numeral_reading(b),
{
}

/// A text with two decimal points is no numeral, with or without grouping
/// separators.
pub proof fn second_point_is_no_numeral(text: Seq<char>, first: int, second: int)
    requires
        0 <= first < second < text.len(),
        text[first] == '.',
        text[second] == '.',
    ensures
        !is_numeral(text),
{
    let keep = not_separator();
    let point = seq!['.'];
    let head = text.take(first);
    let middle = text.subrange(first + 1, second);
    let tail = text.skip(second + 1);
    assert(text =~= head + point + middle + point + tail);
    Seq::filter_distributes_over_add(head + point + middle + point, tail, keep);
    Seq::filter_distributes_over_add(head + point + middle, point, keep);
    Seq::filter_distributes_over_add(head + point, middle, keep);
    Seq::filter_distributes_over_add(head, point, keep);
    assert(point =~= Seq::<char>::empty().push('.'));
    Seq::<char>::empty().lemma_filter_push('.', keep);
    Seq::<char>::empty().lemma_filter_len(keep);
    assert(Seq::<char>::empty().filter(keep) =~= Seq::<char>::empty());
    assert(point.filter(keep) =~= point);
    let kept = without_separators(text);
    let a = head.filter(keep).len() as int;
    let b = a + 1 + middle.filter(keep).len();
    assert(kept =~= head.filter(keep) + point + middle.filter(keep) + point + tail.filter(keep));
    assert(kept[a] == '.');
    assert(kept[b] == '.');
    assert(point_at(kept, a) && point_at(kept, b));
}

/// The digits of two texts written one after the other are the digits of the
/// first followed by the digits of the second.
pub proof fn lemma_digits_in_concat(head: Seq<char>, tail: Seq<char>)
    ensures
        digits_in(head + tail) == digits_in(head) + digits_in(tail),
    decreases tail.len(),
{
    if tail.len() == 0 {
        assert(head + tail =~= head);
        assert(digits_in(head) + digits_in(tail) =~= digits_in(head));
    } else {
        let whole = head + tail;
        assert(whole.drop_last() =~= head + tail.drop_last());
        assert(whole.last() == tail.last());
        lemma_digits_in_concat(head, tail.drop_last());
        if is_digit(tail.last()) {
            assert((digits_in(head) + digits_in(tail.drop_last())).push(digit_of(tail.last()))
                =~= digits_in(head) + digits_in(tail));
        }
    }
}

/// A text of digits holds as many digits as characters, each a decimal
/// digit.
pub proof fn lemma_digits_in_all_digits(text: Seq<char>)
    requires
        all_digits(text),
    ensures
        digits_in(text).len() == text.len(),
        are_digits(digits_in(text)),
    decreases text.len(),
{
    if text.len() > 0 {
        assert(is_digit(text[text.len() - 1]));
        assert forall|i: int| 0 <= i < text.drop_last().len() implies is_digit(
            #[trigger] text.drop_last()[i],
        ) by {
            assert(text.drop_last()[i] == text[i]);
        }
        lemma_digits_in_all_digits(text.drop_last());
    }
}

/// The text of a natural number is made of digits and reads as that number.
pub proof fn lemma_natural_text_reads(n: nat)
    ensures
        natural_text(n).len() > 0,
        all_digits(natural_text(n)),
        digits_value(digits_in(natural_text(n))) == n,
    decreases n,
{
    let text = natural_text(n);
    if n < 10 {
        assert(text.drop_last() =~= Seq::<char>::empty());
        assert(digits_in(text.drop_last()) =~= Seq::<u8>::empty());
        assert(digits_in(text) =~= seq![n as u8]);
        lemma_value_single(n as u8);
    } else {
        let shorter = natural_text(n / 10);
        lemma_natural_text_reads(n / 10);
        assert(text.drop_last() =~= shorter);
        assert(text.last() == digit_char((n % 10) as u8));
        assert(digits_in(text) == digits_in(shorter).push((n % 10) as u8));
        assert(digits_in(text).drop_last() =~= digits_in(shorter));
        assert forall|i: int| 0 <= i < text.len() implies is_digit(#[trigger] text[i]) by {
            if i < shorter.len() {
                assert(text[i] == shorter[i]);
            }
        }
    }
}

/// The fixed-width text of a number that fits the width is made of digits
/// and reads as that number.
pub proof fn lemma_fixed_text_reads(n: nat, width: nat)
    requires
        n < pow10(width),
    ensures
        fixed_text(n, width).len() == width,
        all_digits(fixed_text(n, width)),
        digits_value(digits_in(fixed_text(n, width))) == n,
    decreases width,
{
    let text = fixed_text(n, width);
    if width == 0 {
        assert(digits_in(text) =~= Seq::<u8>::empty());
    } else {
        let lower = (width - 1) as nat;
        let shorter = fixed_text(n / 10, lower);
        assert(pow10(width) == 10 * pow10(lower));
        lemma_fixed_text_reads(n / 10, lower);
        assert(text.drop_last() =~= shorter);
        assert(text.last() == digit_char((n % 10) as u8));
        assert(digits_in(text) == digits_in(shorter).push((n % 10) as u8));
        assert(digits_in(text).drop_last() =~= digits_in(shorter));
        assert forall|i: int| 0 <= i < text.len() implies is_digit(#[trigger] text[i]) by {
            if i < shorter.len() {
                assert(text[i] == shorter[i]);
            }
        }
    }
}

/// A text of digits reads as what it reads without its trailing zeros, times
/// ten for each zero that was cut.
pub proof fn lemma_trailing_zeros_read(text: Seq<char>)
    requires
        all_digits(text),
    ensures
        without_trailing_zeros(text).len() <= text.len(),
        all_digits(without_trailing_zeros(text)),
        digits_value(digits_in(text)) == digits_value(digits_in(without_trailing_zeros(text)))
            * pow10((text.len() - without_trailing_zeros(text).len()) as nat),
    decreases text.len(),
{
    let cut = without_trailing_zeros(text);
    if text.len() > 0 && text.last() == '0' {
        let shorter = text.drop_last();
        assert forall|i: int| 0 <= i < shorter.len() implies is_digit(#[trigger] shorter[i]) by {
            assert(shorter[i] == text[i]);
        }
        lemma_trailing_zeros_read(shorter);
        assert(digits_in(text) == digits_in(shorter).push(0u8));
        assert(digits_in(text).drop_last() =~= digits_in(shorter));
        let kept = digits_value(digits_in(cut)) as int;
        let p = pow10((shorter.len() - cut.len()) as nat) as int;
        assert(pow10((text.len() - cut.len()) as nat) == 10 * p);
        assert((kept * p) * 10 == kept * (10 * p)) by (nonlinear_arith);
    } else {
        assert(pow10(0) == 1);
        assert(digits_value(digits_in(text)) * 1 == digits_value(digits_in(text)));
    }
}

/// What is written reads back: the text of a number that is not below zero
/// is a numeral, and the numeral is that number.
pub proof fn written_number_reads_back(number: DecimalValue)
    requires
        number.units >= 0,
    ensures
        is_plain_numeral(number.text()),
        plain_value(number.text()).same_number(number),
{
    let unit = pow10(number.scale);
    let whole = natural_text(number.magnitude() / unit);
    let fixed = fixed_text(number.magnitude() % unit, number.scale);
    let fraction = number.fraction_text();
    let text = number.text();
    let w = (number.units / (unit as int));
    let r = (number.units % (unit as int));
    lemma_pow10_positive(number.scale);
    lemma_fundamental_div_mod(number.units, unit as int);
    lemma_mod_pos_bound(number.units, unit as int);
    assert(w >= 0) by (nonlinear_arith)
        requires
            number.units >= 0,
            unit > 0,
            w == number.units / (unit as int),
    ;
    lemma_natural_text_reads(w as nat);
    lemma_fixed_text_reads(r as nat, number.scale);
    lemma_trailing_zeros_read(fixed);
    lemma_digits_in_all_digits(fraction);
    let k = fraction.len();
    let f = digits_value(digits_in(fraction)) as int;
    let up = pow10((number.scale - k) as nat) as int;
    let pk = pow10(k) as int;
    assert(r == f * up);
    lemma_pow10_sum((number.scale - k) as nat, k);
    assert(up * pk == unit);
    if k == 0 {
        assert(text =~= whole);
        assert(forall|at: int| !point_at(text, at));
        assert(is_digit(text[0]));
        assert(digits_in(fraction) =~= Seq::<u8>::empty());
        assert(f == 0);
        assert(r == 0) by (nonlinear_arith)
            requires
                r == f * up,
                f == 0,
        ;
        assert(pow10(0) == 1);
        assert(number.units == (unit as int) * w);
        assert((w * (unit as int)) == number.units * 1) by (nonlinear_arith)
            requires
                number.units == (unit as int) * w,
        ;
    } else {
        let point = seq!['.'];
        assert(text =~= whole + point + fraction);
        let at = whole.len() as int;
        assert(text[at] == '.');
        assert(point_at(text, at));
        assert forall|i: int| 0 <= i < text.len() implies is_digit(#[trigger] text[i]) || text[i]
            == '.' by {
            if i < at {
                assert(text[i] == whole[i]);
            } else if i > at {
                assert(text[i] == fraction[i - at - 1]);
            }
        }
        assert forall|i: int, j: int| point_at(text, i) && point_at(text, j) implies i == j by {
            if i < at {
                assert(text[i] == whole[i]);
                assert(is_digit(whole[i]));
            } else if i > at {
                assert(text[i] == fraction[i - at - 1]);
                assert(is_digit(fraction[i - at - 1]));
            }
            if j < at {
                assert(text[j] == whole[j]);
                assert(is_digit(whole[j]));
            } else if j > at {
                assert(text[j] == fraction[j - at - 1]);
                assert(is_digit(fraction[j - at - 1]));
            }
        }
        assert(text[0] == whole[0]);
        assert(is_digit(text[0]));
        let chosen = choose|i: int| point_at(text, i);
        assert(point_at(text, chosen));
        assert(chosen == at);
        assert(scale_in(text) == k);
        lemma_digits_in_concat(whole + point, fraction);
        lemma_digits_in_concat(whole, point);
        assert(point.drop_last() =~= Seq::<char>::empty());
        assert(digits_in(point.drop_last()) =~= Seq::<u8>::empty());
        assert(digits_in(point) =~= Seq::<u8>::empty());
        assert(digits_in(whole) + digits_in(point) =~= digits_in(whole));
        lemma_value_concat(digits_in(whole), digits_in(fraction));
        let units = digits_value(digits_in(text)) as int;
        assert(units == w * pk + f);
        assert((w * pk + f) * (unit as int) == ((unit as int) * w + f * up) * pk)
            by (nonlinear_arith)
            requires
                up * pk == unit,
        ;
    }
}

/// A number below zero is written as a minus sign before the number of the
/// same size above zero.
pub proof fn negative_number_is_written_with_sign(number: DecimalValue)
    requires
        number.units < 0,
    ensures
        number.text() == seq!['-'] + (DecimalValue {
            units: -number.units,
            scale: number.scale,
        }).text(),
{
    let opposite = DecimalValue { units: -number.units, scale: number.scale };
    assert(opposite.magnitude() == number.magnitude());
    let whole = natural_text(number.magnitude() / pow10(number.scale));
    let fraction = number.fraction_text();
    let sign = seq!['-'];
    let none = Seq::<char>::empty();
    assert(none + whole =~= whole);
    assert(sign + (none + whole) =~= sign + whole);
    assert(sign + (none + whole + seq!['.'] + fraction) =~= sign + whole + seq!['.'] + fraction);
}

} // verus!
