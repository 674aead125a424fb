//! Exact decimal numbers of any length.
//!
//! A timing value is kept as the digits it was written with and the place of
//! its decimal point, never as a binary fraction: sums and differences are
//! exact, and a value prints as the number that was read.

use crate::digits::{
    are_digits, difference_of, digits_value, lemma_pow10_positive, lemma_pow10_sum,
    lemma_value_bound, lemma_value_concat, lemma_value_padded, lemma_value_zero, padded, pow10,
    sum_of,
};
use vstd::arithmetic::div_mod::lemma_fundamental_div_mod_converse;
use vstd::prelude::*;

verus! {

/// The number `units` / 10^`scale`: a decimal with `scale` digits after the
/// point.
pub struct DecimalValue {
    pub units: int,
    pub scale: nat,
}

/// The character that writes the digit `d`.
pub open spec fn digit_char(d: u8) -> char {
    (d + 48) as char
}

/// The characters that write `digits`, one for one.
pub open spec fn digit_chars(digits: Seq<u8>) -> Seq<char> {
    Seq::new(digits.len(), |i: int| digit_char(digits[i]))
}

/// `n` in base ten, without leading zeros; "0" for 0.
pub open spec fn natural_text(n: nat) -> Seq<char>
    decreases n,
{
    if n < 10 {
        seq![digit_char(n as u8)]
    } else {
        natural_text(n / 10).push(digit_char((n % 10) as u8))
    }
}

/// The last `width` digits of `n` in base ten, with zeros in front where `n`
/// has fewer.
pub open spec fn fixed_text(n: nat, width: nat) -> Seq<char>
    decreases width,
{
    if width == 0 {
        Seq::empty()
    } else {
        fixed_text(n / 10, (width - 1) as nat).push(digit_char((n % 10) as u8))
    }
}

/// `text` without the zeros it ends in.
pub open spec fn without_trailing_zeros(text: Seq<char>) -> Seq<char>
    decreases text.len(),
{
    if text.len() > 0 && text.last() == '0' {
        without_trailing_zeros(text.drop_last())
    } else {
        text
    }
}

impl DecimalValue {
    /// The number without its sign, in units of 10^-`scale`.
    pub open spec fn magnitude(self) -> nat {
        if self.units < 0 {
            (-self.units) as nat
        } else {
            self.units as nat
        }
    }

    /// The number in units of 10^-`scale`, for a `scale` that is not below
    /// its own.
    pub open spec fn at_scale(self, scale: nat) -> int {
        self.units * pow10((scale - self.scale) as nat)
    }

    /// The larger of the two scales.
    pub open spec fn common_scale(self, other: DecimalValue) -> nat {
        if self.scale >= other.scale {
            self.scale
        } else {
            other.scale
        }
    }

    /// The sum of the two numbers, at the larger of their scales.
    pub open spec fn plus(self, other: DecimalValue) -> DecimalValue {
        let scale = self.common_scale(other);
        DecimalValue { units: self.at_scale(scale) + other.at_scale(scale), scale }
    }

    /// The first number less the second, at the larger of their scales.
    pub open spec fn minus(self, other: DecimalValue) -> DecimalValue {
        let scale = self.common_scale(other);
        DecimalValue { units: self.at_scale(scale) - other.at_scale(scale), scale }
    }

    /// Whether the two denote the same number, whatever their scales.
    pub open spec fn same_number(self, other: DecimalValue) -> bool {
        self.units * pow10(other.scale) == other.units * pow10(self.scale)
    }

    /// The digits after the point, without trailing zeros.
    pub open spec fn fraction_text(self) -> Seq<char> {
        without_trailing_zeros(fixed_text(self.magnitude() % pow10(self.scale), self.scale))
    }

    /// The number as text: a minus sign if it is below zero, the whole part
    /// without leading zeros, and, unless the fraction is zero, a point and
    /// the fraction without trailing zeros.
    pub open spec fn text(self) -> Seq<char> {
        let sign = if self.units < 0 {
            seq!['-']
        } else {
            Seq::empty()
        };
        let whole = natural_text(self.magnitude() / pow10(self.scale));
        let fraction = self.fraction_text();
        if fraction.len() == 0 {
            sign + whole
        } else {
            sign + whole + seq!['.'] + fraction
        }
    }
}

/// A sum is exact: at every scale that holds both numbers, it is the sum of
/// the two at that scale.
pub proof fn sum_is_exact(a: DecimalValue, b: DecimalValue, scale: nat)
    requires
        scale >= a.scale,
        scale >= b.scale,
    ensures
        a.plus(b).at_scale(scale) == a.at_scale(scale) + b.at_scale(scale),
{
    let common = a.common_scale(b);
    let up = pow10((scale - common) as nat) as int;
    let pa = pow10((common - a.scale) as nat) as int;
    let pb = pow10((common - b.scale) as nat) as int;
    lemma_pow10_sum((common - a.scale) as nat, (scale - common) as nat);
    lemma_pow10_sum((common - b.scale) as nat, (scale - common) as nat);
    assert((a.units * pa + b.units * pb) * up == a.units * (pa * up) + b.units * (pb * up))
        by (nonlinear_arith);
}

/// A difference is exact: at every scale that holds both numbers, it is the
/// difference of the two at that scale.
pub proof fn difference_is_exact(a: DecimalValue, b: DecimalValue, scale: nat)
    requires
        scale >= a.scale,
        scale >= b.scale,
    ensures
        a.minus(b).at_scale(scale) == a.at_scale(scale) - b.at_scale(scale),
{
    let common = a.common_scale(b);
    let up = pow10((scale - common) as nat) as int;
    let pa = pow10((common - a.scale) as nat) as int;
    let pb = pow10((common - b.scale) as nat) as int;
    lemma_pow10_sum((common - a.scale) as nat, (scale - common) as nat);
    lemma_pow10_sum((common - b.scale) as nat, (scale - common) as nat);
    assert((a.units * pa - b.units * pb) * up == a.units * (pa * up) - b.units * (pb * up))
        by (nonlinear_arith);
}

/// Digits that begin with a digit other than 0 are the text of their value.
proof fn lemma_natural_text_of_digits(digits: Seq<u8>)
    requires
        are_digits(digits),
        digits.len() > 0,
        digits[0] != 0,
    ensures
        natural_text(digits_value(digits)) == digit_chars(digits),
    decreases digits.len(),
{
    let shorter = digits.drop_last();
    let last = digits.last();
    if shorter.len() == 0 {
        assert(digits_value(shorter) == 0);
        assert(digits_value(digits) == last as nat);
        assert(natural_text(last as nat) =~= digit_chars(digits));
    } else {
        assert(shorter[0] == digits[0]);
        lemma_natural_text_of_digits(shorter);
        lemma_value_zero(shorter);
        let value = digits_value(digits);
        assert(value == digits_value(shorter) * 10 + last);
        assert(value >= 10);
        assert(value / 10 == digits_value(shorter));
        assert(value % 10 == last as nat);
        assert(digit_chars(shorter).push(digit_char(last)) =~= digit_chars(digits));
    }
}

/// The text of a whole number written with leading zeros: `first` is the
/// place of its first digit other than 0, or the count of digits when all
/// are 0.
proof fn lemma_whole_text(digits: Seq<u8>, first: int)
    requires
        are_digits(digits),
        0 <= first <= digits.len(),
        forall|i: int| 0 <= i < first ==> digits[i] == 0,
        first < digits.len() ==> digits[first] != 0,
    ensures
        natural_text(digits_value(digits)) == if first == digits.len() {
            seq!['0']
        } else {
            digit_chars(digits.skip(first))
        },
{
    if first == digits.len() {
        lemma_value_zero(digits);
    } else {
        let head = digits.take(first);
        let tail = digits.skip(first);
        assert(digits =~= head + tail);
        lemma_value_concat(head, tail);
        lemma_value_zero(head);
        assert(0 * pow10(tail.len()) == 0);
        lemma_natural_text_of_digits(tail);
    }
}

/// As many digits as the width are the fixed-width text of their value.
proof fn lemma_fixed_text_of_digits(digits: Seq<u8>)
    requires
        are_digits(digits),
    ensures
        fixed_text(digits_value(digits), digits.len()) == digit_chars(digits),
    decreases digits.len(),
{
    if digits.len() == 0 {
        assert(fixed_text(0, 0) =~= digit_chars(digits));
    } else {
        let shorter = digits.drop_last();
        let last = digits.last();
        lemma_fixed_text_of_digits(shorter);
        let value = digits_value(digits);
        assert(value == digits_value(shorter) * 10 + last);
        assert(value / 10 == digits_value(shorter));
        assert(value % 10 == last as nat);
        assert(digit_chars(shorter).push(digit_char(last)) =~= digit_chars(digits));
    }
}

/// Cutting trailing zeros keeps the text up to its last character other than
/// '0'.
proof fn lemma_without_trailing_zeros(text: Seq<char>, keep: int)
    requires
        0 <= keep <= text.len(),
        forall|i: int| keep <= i < text.len() ==> text[i] == '0',
        keep > 0 ==> text[keep - 1] != '0',
    ensures
        without_trailing_zeros(text) == text.take(keep),
    decreases text.len() - keep,
{
    if keep == text.len() {
        assert(text.take(keep) =~= text);
    } else {
        let shorter = text.drop_last();
        lemma_without_trailing_zeros(shorter, keep);
        assert(shorter.take(keep) =~= text.take(keep));
    }
}

/// A decimal number: a sign, digits, and the count of digits that stand
/// after the point.
#[derive(Debug)]
pub struct Decimal {
    negative: bool,
    digits: Vec<u8>,
    scale: usize,
}

impl View for Decimal {
    type V = DecimalValue;

    closed spec fn view(&self) -> DecimalValue {
        DecimalValue {
            units: if self.negative {
                -(digits_value(self.digits@) as int)
            } else {
                digits_value(self.digits@) as int
            },
            scale: self.scale as nat,
        }
    }
}

impl Clone for Decimal {
    fn clone(&self) -> (copy: Decimal)
        ensures
            copy@ == self@,
    {
        proof {
            use_type_invariant(self);
        }
        let digits = padded(&self.digits, 0, 0);
        assert(digits@ =~= self.digits@);
        Decimal { negative: self.negative, digits, scale: self.scale }
    }
}

impl Default for Decimal {
    /// Zero.
    fn default() -> (number: Decimal)
        ensures
            number@ == (DecimalValue { units: 0, scale: 0 }),
    {
        Decimal::zero()
    }
}

impl Decimal {
    #[verifier::type_invariant]
    spec fn well_formed(self) -> bool {
        &&& are_digits(self.digits@)
        &&& self.scale <= self.digits.len()
    }

    /// The number written by `digits`, the last `scale` of them after the
    /// point.
    pub(crate) fn from_digits(digits: Vec<u8>, scale: usize) -> (number: Decimal)
        requires
            are_digits(digits@),
            scale <= digits.len(),
        ensures
            number@ == (DecimalValue { units: digits_value(digits@) as int, scale: scale as nat }),
    {
        Decimal { negative: false, digits, scale }
    }

    /// Zero.
    pub fn zero() -> (number: Decimal)
        ensures
            number@ == (DecimalValue { units: 0, scale: 0 }),
    {
        let digits: Vec<u8> = Vec::new();
        assert(digits_value(digits@) == 0);
        Decimal { negative: false, digits, scale: 0 }
    }

    /// The number with its sign turned.
    pub fn negated(&self) -> (number: Decimal)
        ensures
            number@ == (DecimalValue { units: -self@.units, scale: self@.scale }),
    {
        proof {
            use_type_invariant(self);
        }
        let digits = padded(&self.digits, 0, 0);
        assert(digits@ =~= self.digits@);
        Decimal { negative: !self.negative, digits, scale: self.scale }
    }

    /// The sum of the two numbers.
    pub fn plus(&self, other: &Decimal) -> (sum: Decimal)
        ensures
            sum@ == self@.plus(other@),
    {
        proof {
            use_type_invariant(self);
            use_type_invariant(other);
        }
        let scale = if self.scale >= other.scale {
            self.scale
        } else {
            other.scale
        };
        let whole_a = self.digits.len() - self.scale;
        let whole_b = other.digits.len() - other.scale;
        let whole = if whole_a >= whole_b {
            whole_a
        } else {
            whole_b
        };
        let a = padded(&self.digits, whole - whole_a, scale - self.scale);
        let b = padded(&other.digits, whole - whole_b, scale - other.scale);
        let ghost va = digits_value(self.digits@) as int;
        let ghost vb = digits_value(other.digits@) as int;
        let ghost pa = pow10((scale - self.scale) as nat) as int;
        let ghost pb = pow10((scale - other.scale) as nat) as int;
        proof {
            lemma_value_padded((whole - whole_a) as nat, self.digits@, (scale - self.scale) as nat);
            lemma_value_padded(
                (whole - whole_b) as nat,
                other.digits@,
                (scale - other.scale) as nat,
            );
            assert(digits_value(a@) == va * pa);
            assert(digits_value(b@) == vb * pb);
            assert((-va) * pa == -(va * pa)) by (nonlinear_arith);
            assert((-vb) * pb == -(vb * pb)) by (nonlinear_arith);
            assert(self@.common_scale(other@) == scale);
        }
        if self.negative == other.negative {
            let digits = sum_of(&a, &b);
            Decimal { negative: self.negative, digits, scale }
        } else {
            let (digits, borrowed) = difference_of(&a, &b);
            if !borrowed {
                Decimal { negative: self.negative, digits, scale }
            } else {
                let (digits, _) = difference_of(&b, &a);
                Decimal { negative: other.negative, digits, scale }
            }
        }
    }

    /// This number less the other.
    pub fn minus(&self, other: &Decimal) -> (difference: Decimal)
        ensures
            difference@ == self@.minus(other@),
    {
        let opposite = other.negated();
        proof {
            let scale = self@.common_scale(other@);
            let p = pow10((scale - other@.scale) as nat) as int;
            let u = other@.units;
            assert((-u) * p == -(u * p)) by (nonlinear_arith);
        }
        self.plus(&opposite)
    }

    /// The number as text, as [`DecimalValue::text`] writes it.
    pub fn to_text(&self) -> (text: String)
        ensures
            text@ == self@.text(),
    {
        proof {
            use_type_invariant(self);
        }
        let n = self.digits.len();
        let split = n - self.scale;
        let mut first: usize = 0;
        while first < split && self.digits[first] == 0
            invariant
                first <= split <= n,
                n == self.digits.len(),
                forall|i: int| 0 <= i < first ==> self.digits@[i] == 0,
            decreases split - first,
        {
            first += 1;
        }
        let mut end: usize = n;
        while end > split && self.digits[end - 1] == 0
            invariant
                split <= end <= n,
                n == self.digits.len(),
                forall|i: int| end <= i < n ==> self.digits@[i] == 0,
            decreases end,
        {
            end -= 1;
        }
        proof {
            lemma_text_parts(self@, self.digits@, first as int, end as int);
        }
        let mut text = String::new();
        if self.negative && (first < split || end > split) {
            text.push('-');
        }
        if first == split {
            text.push('0');
        } else {
            push_digits(&mut text, &self.digits, first, split);
        }
        if end > split {
            text.push('.');
            push_digits(&mut text, &self.digits, split, end);
        }
        text
    }
}

/// Appends the characters of `digits[from..to]` to `text`.
fn push_digits(text: &mut String, digits: &Vec<u8>, from: usize, to: usize)
    requires
        are_digits(digits@),
        from <= to <= digits.len(),
    ensures
        final(text)@ == old(text)@ + digit_chars(digits@.subrange(from as int, to as int)),
{
    let mut k: usize = from;
    assert(text@ =~= old(text)@ + digit_chars(digits@.subrange(from as int, k as int)));
    while k < to
        invariant
            from <= k <= to <= digits.len(),
            are_digits(digits@),
            text@ == old(text)@ + digit_chars(digits@.subrange(from as int, k as int)),
        decreases to - k,
    {
        text.push((digits[k] + 48) as char);
        k += 1;
        assert(text@ =~= old(text)@ + digit_chars(digits@.subrange(from as int, k as int)));
    }
}

/// The digits before the last `scale` write the quotient by ten to the
/// `scale`, the last `scale` digits the remainder.
proof fn lemma_value_split(all: Seq<u8>, scale: nat)
    requires
        are_digits(all),
        scale <= all.len(),
    ensures
        digits_value(all) / pow10(scale) == digits_value(all.take(all.len() - scale)),
        digits_value(all) % pow10(scale) == digits_value(all.skip(all.len() - scale)),
{
    let split = all.len() - scale;
    let whole = all.take(split);
    let part = all.skip(split);
    assert(all =~= whole + part);
    lemma_value_concat(whole, part);
    lemma_value_bound(part);
    lemma_pow10_positive(scale);
    lemma_fundamental_div_mod_converse(
        digits_value(all) as int,
        pow10(scale) as int,
        digits_value(whole) as int,
        digits_value(part) as int,
    );
}

/// The fraction written by `part` without its trailing zeros: `keep` is the
/// place after its last digit other than 0.
proof fn lemma_fraction_text(part: Seq<u8>, keep: int)
    requires
        are_digits(part),
        0 <= keep <= part.len(),
        forall|i: int| keep <= i < part.len() ==> part[i] == 0,
        keep > 0 ==> part[keep - 1] != 0,
    ensures
        without_trailing_zeros(fixed_text(digits_value(part), part.len())) == digit_chars(
            part.take(keep),
        ),
{
    lemma_fixed_text_of_digits(part);
    let written = digit_chars(part);
    assert forall|i: int| keep <= i < written.len() implies written[i] == '0' by {
        assert(part[i] == 0);
    }
    if keep > 0 {
        assert(written[keep - 1] != '0');
    }
    lemma_without_trailing_zeros(written, keep);
    assert(written.take(keep) =~= digit_chars(part.take(keep)));
}

/// Digits are all 0 exactly when there is none other than 0 before the
/// place `split` nor behind it.
proof fn lemma_zero_by_ends(all: Seq<u8>, first: int, split: int, end: int)
    requires
        0 <= first <= split <= end <= all.len(),
        forall|i: int| 0 <= i < first ==> all[i] == 0,
        first < split ==> all[first] != 0,
        forall|i: int| end <= i < all.len() ==> all[i] == 0,
        end > split ==> all[end - 1] != 0,
    ensures
        digits_value(all) == 0 <==> first == split && end == split,
{
    lemma_value_zero(all);
    if first < split {
        assert(all[first] != 0);
    } else if end > split {
        assert(all[end - 1] != 0);
    } else {
        assert forall|i: int| 0 <= i < all.len() implies all[i] == 0 by {}
    }
}

/// What the parts of [`DecimalValue::text`] are for a number whose magnitude
/// is written by `all`: `first` is the place of the first digit other than 0
/// before the point, `end` the place after the last digit other than 0 behind
/// it.
proof fn lemma_text_parts(value: DecimalValue, all: Seq<u8>, first: int, end: int)
    requires
        are_digits(all),
        value.scale <= all.len(),
        value.magnitude() == digits_value(all),
        0 <= first <= all.len() - value.scale <= end <= all.len(),
        forall|i: int| 0 <= i < first ==> all[i] == 0,
        first < all.len() - value.scale ==> all[first] != 0,
        forall|i: int| end <= i < all.len() ==> all[i] == 0,
        end > all.len() - value.scale ==> all[end - 1] != 0,
    ensures
        natural_text(value.magnitude() / pow10(value.scale)) == if first == all.len()
            - value.scale {
            seq!['0']
        } else {
            digit_chars(all.subrange(first, all.len() - value.scale))
        },
        value.fraction_text() == digit_chars(all.subrange(all.len() - value.scale, end)),
        value.magnitude() == 0 <==> first == all.len() - value.scale && end == all.len()
            - value.scale,
{
    let split = all.len() - value.scale;
    let whole = all.take(split);
    let part = all.skip(split);
    lemma_value_split(all, value.scale);
    lemma_whole_text(whole, first);
    assert(whole.skip(first) =~= all.subrange(first, split));
    assert forall|i: int| end - split <= i < part.len() implies part[i] == 0 by {
        assert(part[i] == all[split + i]);
    }
    if end > split {
        assert(part[end - split - 1] == all[end - 1]);
    }
    lemma_fraction_text(part, end - split);
    assert(part.take(end - split) =~= all.subrange(split, end));
    lemma_zero_by_ends(all, first, split, end);
}

} // verus!
