//! Arithmetic on sequences of decimal digits, most significant digit first.
//!
//! Numbers of any length are held as digit vectors, so that nothing a report
//! can hold is too large to be added or subtracted exactly.

use vstd::prelude::*;

verus! {

/// Ten to the power `n`.
pub open spec fn pow10(n: nat) -> nat
    decreases n,
{
    if n == 0 {
        1
    } else {
        10 * pow10((n - 1) as nat)
    }
}

/// Whether every element of `digits` is a decimal digit, 0 to 9.
pub open spec fn are_digits(digits: Seq<u8>) -> bool {
    forall|i: int| 0 <= i < digits.len() ==> digits[i] <= 9
}

/// Whether every element of `digits` is 0.
pub open spec fn all_zero(digits: Seq<u8>) -> bool {
    forall|i: int| 0 <= i < digits.len() ==> digits[i] == 0
}

/// The number that `digits` writes in base ten, most significant digit
/// first; 0 for no digits.
pub open spec fn digits_value(digits: Seq<u8>) -> nat
    decreases digits.len(),
{
    if digits.len() == 0 {
        0
    } else {
        digits_value(digits.drop_last()) * 10 + digits.last() as nat
    }
}

/// `count` zeros.
pub open spec fn zeros(count: nat) -> Seq<u8> {
    Seq::new(count, |i: int| 0u8)
}

/// A power of ten is above zero.
pub proof fn lemma_pow10_positive(n: nat)
    ensures
        pow10(n) > 0,
    decreases n,
{
    if n > 0 {
        lemma_pow10_positive((n - 1) as nat);
    }
}

/// Powers of ten multiply by adding their exponents.
pub proof fn lemma_pow10_sum(a: nat, b: nat)
    ensures
        pow10(a + b) == pow10(a) * pow10(b),
    decreases a,
{
    if a > 0 {
        let lower = (a - 1) as nat;
        lemma_pow10_sum(lower, b);
        assert(pow10(a + b) == 10 * pow10(lower + b));
        assert(pow10(a) == 10 * pow10(lower));
        assert(10 * (pow10(lower) * pow10(b)) == (10 * pow10(lower)) * pow10(b))
            by (nonlinear_arith);
    } else {
        assert(pow10(a) == 1);
        assert(1 * pow10(b) == pow10(b));
    }
}

/// A single digit writes itself.
pub proof fn lemma_value_single(digit: u8)
    ensures
        digits_value(seq![digit]) == digit as nat,
{
    let one = seq![digit];
    assert(one.drop_last() =~= Seq::<u8>::empty());
    assert(digits_value(Seq::<u8>::empty()) == 0);
}

/// Writing `tail` after `head` shifts `head` left by the length of `tail`.
pub proof fn lemma_value_concat(head: Seq<u8>, tail: Seq<u8>)
    ensures
        digits_value(head + tail) == digits_value(head) * pow10(tail.len()) + digits_value(tail),
    decreases tail.len(),
{
    if tail.len() == 0 {
        assert(head + tail =~= head);
        assert(pow10(0) == 1);
        assert(digits_value(head) * 1 == digits_value(head));
    } else {
        let whole = head + tail;
        let shorter = tail.drop_last();
        assert(whole.drop_last() =~= head + shorter);
        assert(whole.last() == tail.last());
        lemma_value_concat(head, shorter);
        let h = digits_value(head) as int;
        let p = pow10(shorter.len()) as int;
        let s = digits_value(shorter) as int;
        assert(pow10(tail.len()) == 10 * p);
        assert(digits_value(whole) == (h * p + s) * 10 + tail.last());
        assert(digits_value(tail) == s * 10 + tail.last());
        assert((h * p + s) * 10 == h * (10 * p) + s * 10) by (nonlinear_arith);
    }
}

/// The value of the digits from position `at` on, by their first digit.
pub proof fn lemma_value_from(digits: Seq<u8>, at: int)
    requires
        0 <= at < digits.len(),
    ensures
        digits_value(digits.skip(at)) == digits[at] * pow10((digits.len() - at - 1) as nat)
            + digits_value(digits.skip(at + 1)),
{
    let first = seq![digits[at]];
    assert(digits.skip(at) =~= first + digits.skip(at + 1));
    lemma_value_concat(first, digits.skip(at + 1));
    lemma_value_single(digits[at]);
}

/// `n` digits write a number below ten to the `n`.
pub proof fn lemma_value_bound(digits: Seq<u8>)
    requires
        are_digits(digits),
    ensures
        digits_value(digits) < pow10(digits.len()),
    decreases digits.len(),
{
    if digits.len() > 0 {
        lemma_value_bound(digits.drop_last());
    }
}

/// Digits write 0 exactly when all of them are 0.
pub proof fn lemma_value_zero(digits: Seq<u8>)
    ensures
        digits_value(digits) == 0 <==> all_zero(digits),
    decreases digits.len(),
{
    if digits.len() > 0 {
        let shorter = digits.drop_last();
        lemma_value_zero(shorter);
        if all_zero(shorter) && digits.last() == 0 {
            assert forall|i: int| 0 <= i < digits.len() implies digits[i] == 0 by {
                if i < shorter.len() {
                    assert(shorter[i] == digits[i]);
                }
            }
        }
        if all_zero(digits) {
            assert forall|i: int| 0 <= i < shorter.len() implies shorter[i] == 0 by {
                assert(shorter[i] == digits[i]);
            }
        }
    }
}

/// Zeros in front leave the value as it is; zeros behind multiply it by ten
/// each.
pub proof fn lemma_value_padded(lead: nat, digits: Seq<u8>, trail: nat)
    ensures
        digits_value(zeros(lead) + digits + zeros(trail)) == digits_value(digits) * pow10(trail),
{
    lemma_value_concat(zeros(lead) + digits, zeros(trail));
    lemma_value_concat(zeros(lead), digits);
    lemma_value_zero(zeros(lead));
    lemma_value_zero(zeros(trail));
    assert(0 * pow10(digits.len()) == 0);
}

/// The digits `digits` with `lead` zeros in front and `trail` zeros behind.
pub(crate) fn padded(digits: &Vec<u8>, lead: usize, trail: usize) -> (out: Vec<u8>)
    ensures
        out@ == zeros(lead as nat) + digits@ + zeros(trail as nat),
        out.len() == lead + digits.len() + trail,
        are_digits(digits@) ==> are_digits(out@),
{
    let mut out: Vec<u8> = Vec::new();
    let mut i: usize = 0;
    while i < lead
        invariant
            i <= lead,
            out@ == zeros(i as nat),
        decreases lead - i,
    {
        out.push(0);
        i += 1;
        assert(out@ =~= zeros(i as nat));
    }
    let mut j: usize = 0;
    while j < digits.len()
        invariant
            j <= digits.len(),
            out@ == zeros(lead as nat) + digits@.take(j as int),
        decreases digits.len() - j,
    {
        out.push(digits[j]);
        j += 1;
        assert(out@ =~= zeros(lead as nat) + digits@.take(j as int));
    }
    assert(digits@.take(digits.len() as int) =~= digits@);
    let mut k: usize = 0;
    while k < trail
        invariant
            k <= trail,
            out@ == zeros(lead as nat) + digits@ + zeros(k as nat),
        decreases trail - k,
    {
        out.push(0);
        k += 1;
        assert(out@ =~= zeros(lead as nat) + digits@ + zeros(k as nat));
    }
    out
}

/// The sum of two numbers written with the same count of digits.
pub(crate) fn sum_of(a: &Vec<u8>, b: &Vec<u8>) -> (out: Vec<u8>)
    requires
        a.len() == b.len(),
        are_digits(a@),
        are_digits(b@),
    ensures
        are_digits(out@),
        out.len() >= a.len(),
        digits_value(out@) == digits_value(a@) + digits_value(b@),
{
    let n = a.len();
    let mut low: Vec<u8> = padded(a, 0, 0);
    assert(low@ =~= a@);
    let mut carry: u8 = 0;
    let mut i: usize = n;
    proof {
        assert(low@.skip(n as int) =~= Seq::<u8>::empty());
        assert(a@.skip(n as int) =~= Seq::<u8>::empty());
        assert(b@.skip(n as int) =~= Seq::<u8>::empty());
    }
    while i > 0
        invariant
            i <= n,
            n == a.len(),
            n == b.len(),
            n == low.len(),
            are_digits(a@),
            are_digits(b@),
            are_digits(low@),
            carry <= 1,
            digits_value(low@.skip(i as int)) + carry * pow10((n - i) as nat) == digits_value(
                a@.skip(i as int),
            ) + digits_value(b@.skip(i as int)),
        decreases i,
    {
        let ghost before = low@;
        let ghost carry_in = carry as int;
        i -= 1;
        let total: u8 = a[i] + b[i] + carry;
        let digit: u8 = if total >= 10 {
            total - 10
        } else {
            total
        };
        carry = if total >= 10 {
            1
        } else {
            0
        };
        low.set(i, digit);
        proof {
            assert(low@.skip(i + 1) =~= before.skip(i + 1));
            lemma_value_from(low@, i as int);
            lemma_value_from(a@, i as int);
            lemma_value_from(b@, i as int);
            let p = pow10((n - i - 1) as nat) as int;
            assert(pow10((n - i) as nat) == 10 * p);
            let x = a@[i as int] as int;
            let y = b@[i as int] as int;
            let d = digit as int;
            let c = carry as int;
            assert(d + 10 * c == x + y + carry_in);
            assert(d * p + c * (10 * p) == (x + y + carry_in) * p) by (nonlinear_arith)
                requires
                    d + 10 * c == x + y + carry_in,
            ;
            assert((x + y + carry_in) * p == x * p + y * p + carry_in * p) by (nonlinear_arith);
        }
    }
    proof {
        assert(low@.skip(0) =~= low@);
        assert(a@.skip(0) =~= a@);
        assert(b@.skip(0) =~= b@);
        assert(0 * pow10(n as nat) == 0);
        assert(1 * pow10(n as nat) == pow10(n as nat));
    }
    if carry == 0 {
        low
    } else {
        let mut out: Vec<u8> = Vec::new();
        out.push(carry);
        let mut j: usize = 0;
        while j < n
            invariant
                j <= n,
                n == low.len(),
                out@ == seq![carry] + low@.take(j as int),
            decreases n - j,
        {
            out.push(low[j]);
            j += 1;
            assert(out@ =~= seq![carry] + low@.take(j as int));
        }
        proof {
            assert(low@.take(n as int) =~= low@);
            lemma_value_concat(seq![carry], low@);
            lemma_value_single(carry);
        }
        out
    }
}

/// The difference of two numbers written with the same count of digits.
///
/// When the first is at least the second, `borrowed` is false and `out`
/// writes the first less the second. Otherwise `borrowed` is true, and `out`
/// writes that difference increased by ten to the count of digits.
pub(crate) fn difference_of(a: &Vec<u8>, b: &Vec<u8>) -> (result: (Vec<u8>, bool))
    requires
        a.len() == b.len(),
        are_digits(a@),
        are_digits(b@),
    ensures
        are_digits(result.0@),
        result.0.len() == a.len(),
        result.1 == (digits_value(a@) < digits_value(b@)),
        digits_value(result.0@) == digits_value(a@) - digits_value(b@) + if result.1 {
            pow10(a.len() as nat) as int
        } else {
            0
        },
{
    let n = a.len();
    let mut out: Vec<u8> = padded(a, 0, 0);
    assert(out@ =~= a@);
    let mut borrow: u8 = 0;
    let mut i: usize = n;
    proof {
        assert(out@.skip(n as int) =~= Seq::<u8>::empty());
        assert(a@.skip(n as int) =~= Seq::<u8>::empty());
        assert(b@.skip(n as int) =~= Seq::<u8>::empty());
    }
    while i > 0
        invariant
            i <= n,
            n == a.len(),
            n == b.len(),
            n == out.len(),
            are_digits(a@),
            are_digits(b@),
            are_digits(out@),
            borrow <= 1,
            digits_value(out@.skip(i as int)) - borrow * pow10((n - i) as nat) == digits_value(
                a@.skip(i as int),
            ) - digits_value(b@.skip(i as int)),
        decreases i,
    {
        let ghost before = out@;
        let ghost borrow_in = borrow as int;
        i -= 1;
        let taken: u8 = b[i] + borrow;
        let digit: u8 = if a[i] >= taken {
            a[i] - taken
        } else {
            a[i] + 10 - taken
        };
        borrow = if a[i] >= taken {
            0
        } else {
            1
        };
        out.set(i, digit);
        proof {
            assert(out@.skip(i + 1) =~= before.skip(i + 1));
            lemma_value_from(out@, i as int);
            lemma_value_from(a@, i as int);
            lemma_value_from(b@, i as int);
            let p = pow10((n - i - 1) as nat) as int;
            assert(pow10((n - i) as nat) == 10 * p);
            let x = a@[i as int] as int;
            let y = b@[i as int] as int;
            let d = digit as int;
            let c = borrow as int;
            assert(d - 10 * c == x - y - borrow_in);
            assert(d * p - c * (10 * p) == (x - y - borrow_in) * p) by (nonlinear_arith)
                requires
                    d - 10 * c == x - y - borrow_in,
            ;
            assert((x - y - borrow_in) * p == x * p - y * p - borrow_in * p) by (nonlinear_arith);
        }
    }
    proof {
        assert(out@.skip(0) =~= out@);
        assert(a@.skip(0) =~= a@);
        assert(b@.skip(0) =~= b@);
        lemma_value_bound(out@);
        assert(1 * pow10(n as nat) == pow10(n as nat));
        assert(0 * pow10(n as nat) == 0);
    }
    (out, borrow == 1)
}

} // verus!
