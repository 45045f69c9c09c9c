//! Money as a whole number of cents.
//!
//! Every operation yields a whole number of cents, so nothing below a cent
//! is ever carried from one operation to the next.

use crate::decimal::{
    amount_shape, decimal_cents, lemma_numeral_reads_back, push_decimal, push_two_digits,
    read_cents, two_digits,
};
use crate::error::LedgerError;
use crate::text::{chars_of, decimal, is_digit};
use core::cmp::Ordering;
use vstd::prelude::*;

verus! {

/// An amount of money, held as a signed number of cents. Amounts are
/// ordered by their cents.
#[derive(Clone, Copy, Debug, PartialEq, Eq, Structural, Ord, Hash)]
pub struct Dollar {
    pub cents: i64,
}

impl Default for Dollar {
    /// No money.
    fn default() -> (r: Dollar)
        ensures
            r.cents == 0,
    {
        Dollar { cents: 0 }
    }
}

impl PartialOrd for Dollar {
    fn partial_cmp(&self, other: &Dollar) -> (r: Option<Ordering>) {
        if self.cents < other.cents {
            Some(Ordering::Less)
        } else if self.cents > other.cents {
            Some(Ordering::Greater)
        } else {
            Some(Ordering::Equal)
        }
    }
}

impl vstd::std_specs::cmp::PartialOrdSpecImpl for Dollar {
    open spec fn obeys_partial_cmp_spec() -> bool {
        true
    }

    open spec fn partial_cmp_spec(&self, other: &Dollar) -> Option<Ordering> {
        if self.cents < other.cents {
            Some(Ordering::Less)
        } else if self.cents > other.cents {
            Some(Ordering::Greater)
        } else {
            Some(Ordering::Equal)
        }
    }
}

/// `v` limited to what an amount can hold.
pub open spec fn clamp(v: int) -> int {
    if v < i64::MIN {
        i64::MIN as int
    } else if v > i64::MAX {
        i64::MAX as int
    } else {
        v
    }
}

/// Whether `v` is a number of cents that an amount can hold.
pub open spec fn fits(v: int) -> bool {
    i64::MIN <= v <= i64::MAX
}

/// The size of `v`, whatever its sign.
pub open spec fn magnitude(v: int) -> int {
    if v < 0 {
        -v
    } else {
        v
    }
}

/// The quotient `n / d` rounded to the nearest whole number, a tie going
/// away from zero. Zero where `d` is zero.
pub open spec fn round_div(n: int, d: int) -> int {
    if d == 0 {
        0
    } else {
        let q = magnitude(n) / magnitude(d);
        let r = magnitude(n) % magnitude(d);
        let m = if 2 * r >= magnitude(d) {
            q + 1
        } else {
            q
        };
        if (n < 0) != (d < 0) {
            -m
        } else {
            m
        }
    }
}

/// The size up to which numbers are divided here: 2 to the power 126.
pub open spec fn wide_limit() -> int {
    0x4000_0000_0000_0000_0000_0000_0000_0000
}

fn magnitude_wide(v: i128) -> (m: u128)
    requires
        -wide_limit() <= v <= wide_limit(),
    ensures
        m == magnitude(v as int),
{
    if v < 0 {
        (-v) as u128
    } else {
        v as u128
    }
}

/// `round_div` on machine integers.
pub(crate) fn round_div_wide(n: i128, d: i128) -> (q: i128)
    requires
        d != 0,
        -wide_limit() <= n <= wide_limit(),
        -wide_limit() <= d <= wide_limit(),
    ensures
        q == round_div(n as int, d as int),
        magnitude(q as int) <= magnitude(n as int),
{
    let an: u128 = magnitude_wide(n);
    let ad: u128 = magnitude_wide(d);
    let q: u128 = an / ad;
    let r: u128 = an % ad;
    proof {
        lemma_quotient_bound(an as int, ad as int);
    }
    let m: u128 = if r >= ad - r {
        q + 1
    } else {
        q
    };
    if (n < 0) != (d < 0) {
        -(m as i128)
    } else {
        m as i128
    }
}

/// A rounded quotient is no larger in size than its numerator.
pub proof fn lemma_quotient_bound(n: int, d: int)
    requires
        n >= 0,
        d > 0,
    ensures
        n / d <= n,
        0 <= n % d < d,
        n == d * (n / d) + n % d,
        2 * (n % d) >= d ==> n / d + 1 <= n,
{
    vstd::arithmetic::div_mod::lemma_fundamental_div_mod(n, d);
    vstd::arithmetic::div_mod::lemma_div_pos_is_pos(n, d);
    vstd::arithmetic::div_mod::lemma_mod_bound(n, d);
    let q = n / d;
    let r = n % d;
    assert(q <= n && (2 * r >= d ==> q + 1 <= n)) by (nonlinear_arith)
        requires
            n == d * q + r,
            0 <= r < d,
            d > 0,
            q >= 0,
    {
        if q >= 1 {
            assert(d * q >= q);
            if d >= 2 {
                assert(d * q >= 2 * q);
            }
        }
    }
}

/// A rounded quotient is within half of the exact one: twice what it
/// differs by, times the denominator, is no more than the denominator.
pub proof fn lemma_round_div_is_near(n: int, d: int)
    requires
        d != 0,
    ensures
        -magnitude(d) <= 2 * (round_div(n, d) * d - n) <= magnitude(d),
{
    let an = magnitude(n);
    let ad = magnitude(d);
    lemma_quotient_bound(an, ad);
    let q = an / ad;
    let r = an % ad;
    let m = if 2 * r >= ad {
        q + 1
    } else {
        q
    };
    assert(-ad <= 2 * (m * ad - an) <= ad) by (nonlinear_arith)
        requires
            an == ad * q + r,
            0 <= r < ad,
            m == (if 2 * r >= ad {
                q + 1
            } else {
                q
            }),
    ;
    let rd = round_div(n, d);
    assert(rd * d - n == m * ad - an || rd * d - n == -(m * ad - an)) by (nonlinear_arith)
        requires
            (n < 0) != (d < 0) ==> rd == -m,
            (n < 0) == (d < 0) ==> rd == m,
            an == (if n < 0 {
                -n
            } else {
                n
            }),
            ad == (if d < 0 {
                -d
            } else {
                d
            }),
            d != 0,
    ;
}

/// A quotient by a positive number, rounded, lies between zero and its
/// numerator.
pub proof fn lemma_round_div_between(n: int, d: int)
    requires
        d > 0,
    ensures
        n >= 0 ==> 0 <= round_div(n, d) <= n,
        n <= 0 ==> n <= round_div(n, d) <= 0,
{
    lemma_quotient_bound(magnitude(n), d);
    vstd::arithmetic::div_mod::lemma_div_pos_is_pos(magnitude(n), d);
}

/// The part of an amount that a weight is of a total of weights, rounded,
/// lies between zero and the amount.
pub proof fn lemma_share_between(amount: int, weight: int, all: int)
    requires
        0 <= weight <= all,
        all > 0,
    ensures
        amount >= 0 ==> 0 <= round_div(amount * weight, all) <= amount,
        amount <= 0 ==> amount <= round_div(amount * weight, all) <= 0,
{
    let a = magnitude(amount);
    let n = a * weight;
    assert(n >= 0) by (nonlinear_arith)
        requires
            a >= 0,
            weight >= 0,
            n == a * weight,
    ;
    assert(magnitude(amount * weight) == n && (amount * weight < 0 ==> amount < 0) && (amount
        * weight > 0 ==> amount > 0)) by (nonlinear_arith)
        requires
            a == magnitude(amount),
            n == a * weight,
            weight >= 0,
    ;
    lemma_quotient_bound(n, all);
    vstd::arithmetic::div_mod::lemma_div_pos_is_pos(n, all);
    let q = n / all;
    let r = n % all;
    assert(q <= a && (2 * r >= all ==> q + 1 <= a)) by (nonlinear_arith)
        requires
            n == all * q + r,
            0 <= r < all,
            n == a * weight,
            0 <= weight <= all,
            a >= 0,
            q >= 0,
    {
        assert(a * weight <= a * all);
        if q >= a + 1 {
            assert(all * q >= all * (a + 1));
        }
        if q == a && 2 * r >= all {
            assert(all * q + r > a * all);
        }
    }
}

impl Dollar {
    /// The amount of so many cents.
    pub fn from_cents(cents: i64) -> (r: Dollar)
        ensures
            r.cents == cents,
    {
        Dollar { cents }
    }

    /// No money.
    pub fn zero() -> (r: Dollar)
        ensures
            r.cents == 0,
    {
        Dollar { cents: 0 }
    }

    /// The amount in cents.
    pub fn cents(&self) -> (c: i64)
        ensures
            c == self.cents,
    {
        self.cents
    }

    /// The sum, or `None` where it is more than an amount can hold.
    pub fn checked_add(self, rhs: Dollar) -> (r: Option<Dollar>)
        ensures
            fits(self.cents + rhs.cents) <==> r is Some,
            r matches Some(d) ==> d.cents == self.cents + rhs.cents,
    {
        match self.cents.checked_add(rhs.cents) {
            Some(c) => Some(Dollar { cents: c }),
            None => None,
        }
    }

    /// The difference, or `None` where it is more than an amount can hold.
    pub fn checked_sub(self, rhs: Dollar) -> (r: Option<Dollar>)
        ensures
            fits(self.cents - rhs.cents) <==> r is Some,
            r matches Some(d) ==> d.cents == self.cents - rhs.cents,
    {
        match self.cents.checked_sub(rhs.cents) {
            Some(c) => Some(Dollar { cents: c }),
            None => None,
        }
    }

    /// This amount times `num / den`, rounded to the nearest cent (a tie
    /// going away from zero) and limited to what an amount can hold. Zero
    /// where `den` is zero.
    pub fn scale(self, num: i64, den: i64) -> (r: Dollar)
        ensures
            r.cents == clamp(round_div(self.cents * num, den as int)),
    {
        if den == 0 {
            return Dollar { cents: 0 };
        }
        proof {
            lemma_product_bound(self.cents as int, num as int);
        }
        let n: i128 = (self.cents as i128) * (num as i128);
        let q: i128 = round_div_wide(n, den as i128);
        Dollar { cents: clamp_wide(q) }
    }
}

/// `a + b` adds two amounts; a sum beyond what an amount can hold stops at
/// the nearest amount that it can hold.
impl core::ops::Add for Dollar {
    type Output = Dollar;

    fn add(self, rhs: Dollar) -> (r: Dollar) {
        Dollar { cents: clamp_wide(self.cents as i128 + rhs.cents as i128) }
    }
}

impl vstd::std_specs::ops::AddSpecImpl for Dollar {
    open spec fn obeys_add_spec() -> bool {
        true
    }

    open spec fn add_req(self, rhs: Dollar) -> bool {
        true
    }

    open spec fn add_spec(self, rhs: Dollar) -> Dollar {
        Dollar { cents: clamp(self.cents + rhs.cents) as i64 }
    }
}

/// `a - b` subtracts one amount from another; a difference beyond what an
/// amount can hold stops at the nearest amount that it can hold.
impl core::ops::Sub for Dollar {
    type Output = Dollar;

    fn sub(self, rhs: Dollar) -> (r: Dollar) {
        Dollar { cents: clamp_wide(self.cents as i128 - rhs.cents as i128) }
    }
}

impl vstd::std_specs::ops::SubSpecImpl for Dollar {
    open spec fn obeys_sub_spec() -> bool {
        true
    }

    open spec fn sub_req(self, rhs: Dollar) -> bool {
        true
    }

    open spec fn sub_spec(self, rhs: Dollar) -> Dollar {
        Dollar { cents: clamp(self.cents - rhs.cents) as i64 }
    }
}

/// The product of two numbers of at most 63 bits stays within the wide limit.
pub proof fn lemma_product_bound(a: int, b: int)
    requires
        magnitude(a) <= 0x8000_0000_0000_0000,
        magnitude(b) <= 0x8000_0000_0000_0000,
    ensures
        -wide_limit() <= a * b <= wide_limit(),
        magnitude(a * b) == magnitude(a) * magnitude(b),
{
    let x = magnitude(a);
    let y = magnitude(b);
    vstd::arithmetic::mul::lemma_mul_upper_bound(
        x,
        0x8000_0000_0000_0000,
        y,
        0x8000_0000_0000_0000,
    );
    assert(0x8000_0000_0000_0000int * 0x8000_0000_0000_0000int == wide_limit());
    assert(0 <= x * y) by (nonlinear_arith)
        requires
            x >= 0,
            y >= 0,
    ;
    assert(a * b == x * y || a * b == -(x * y)) by (nonlinear_arith)
        requires
            x == a || x == -a,
            y == b || y == -b,
    ;
    assert(a * b >= 0 <==> (a * b == x * y)) by (nonlinear_arith)
        requires
            a * b == x * y || a * b == -(x * y),
            0 <= x * y,
    ;
}

/// `v` limited to what an amount can hold.
pub fn clamp_wide(v: i128) -> (c: i64)
    ensures
        c == clamp(v as int),
{
    if v < i64::MIN as i128 {
        i64::MIN
    } else if v > i64::MAX as i128 {
        i64::MAX
    } else {
        v as i64
    }
}

/// The characters that hand-typed amounts carry besides the number.
pub open spec fn is_separator(c: char) -> bool {
    c == '$' || c == ',' || c == ' '
}

/// What is read as a number in a text: the text without currency signs,
/// thousands separators and spaces, and without a `+` in front.
pub open spec fn amount_text(s: Seq<char>) -> Seq<char> {
    let kept = s.filter(|c: char| !is_separator(c));
    if kept.len() > 0 && kept[0] == '+' {
        kept.skip(1)
    } else {
        kept
    }
}

/// The cents that a text stands for, where it holds a decimal numeral
/// that an amount can hold.
pub open spec fn text_cents(s: Seq<char>) -> Option<int> {
    match decimal_cents(amount_text(s)) {
        Some(c) => if fits(c) {
            Some(c)
        } else {
            None
        },
        None => None,
    }
}

/// The cents that a hand-typed text stands for: zero where it holds no
/// decimal numeral that an amount can hold.
pub open spec fn lenient_cents(s: Seq<char>) -> int {
    match text_cents(s) {
        Some(c) => c,
        None => 0,
    }
}

/// An amount as it is shown: `$`, a `-` for an amount below zero, the
/// dollars, a point and two digits of cents.
pub open spec fn display_text(cents: int) -> Seq<char> {
    let m = magnitude(cents);
    let sign = if cents < 0 {
        seq!['$', '-']
    } else {
        seq!['$']
    };
    sign + decimal(m / 100) + seq!['.'] + two_digits(m % 100)
}

fn without_separators(v: &Vec<char>) -> (kept: Vec<char>)
    ensures
        kept@ == v@.filter(|c: char| !is_separator(c)),
{
    let ghost keep = |c: char| !is_separator(c);
    let mut kept: Vec<char> = Vec::new();
    let mut i: usize = 0;
    proof {
        reveal(Seq::filter);
        assert(v@.take(0).len() == 0);
    }
    while i < v.len()
        invariant
            i <= v.len(),
            keep == |c: char| !is_separator(c),
            kept@ == v@.take(i as int).filter(keep),
        decreases v.len() - i,
    {
        let c = v[i];
        proof {
            reveal(Seq::filter);
            assert(v@.take(i + 1).drop_last() =~= v@.take(i as int));
            assert(v@.take(i + 1).last() == c);
        }
        if !(c == '$' || c == ',' || c == ' ') {
            kept.push(c);
        }
        i += 1;
    }
    proof {
        assert(v@.take(v.len() as int) =~= v@);
    }
    kept
}

impl Dollar {
    /// Reads an amount from text. The text may carry currency signs,
    /// thousands separators, spaces and a `+` in front; what is left has to
    /// be a decimal numeral that an amount can hold.
    pub fn parse(text: &str) -> (r: Result<Dollar, LedgerError>)
        ensures
            match text_cents(text@) {
                Some(c) => r == Ok::<Dollar, LedgerError>(Dollar { cents: c as i64 }),
                None => r == Err::<Dollar, LedgerError>(LedgerError::ParseFailure),
            },
    {
        let v = chars_of(text);
        let kept = without_separators(&v);
        let from: usize = if kept.len() > 0 && kept[0] == '+' {
            1
        } else {
            0
        };
        proof {
            if from == 1 {
                assert(kept@.subrange(1, kept.len() as int) =~= kept@.skip(1));
            } else {
                assert(kept@.subrange(0, kept.len() as int) =~= kept@);
            }
        }
        match read_cents(&kept, from, kept.len()) {
            Some(c) => Ok(Dollar { cents: c }),
            None => Err(LedgerError::ParseFailure),
        }
    }

    /// The amount as it is shown, such as `$12.30` or `$-4.50`.
    pub fn to_string(&self) -> (s: String)
        ensures
            s@ == display_text(self.cents as int),
    {
        let mut s = String::new();
        s.push('$');
        let m: u64 = if self.cents < 0 {
            s.push('-');
            (-(self.cents as i128)) as u64
        } else {
            self.cents as u64
        };
        push_decimal(&mut s, m / 100);
        s.push('.');
        push_two_digits(&mut s, (m % 100) as u8);
        proof {
            let sign = if self.cents < 0 {
                seq!['$', '-']
            } else {
                seq!['$']
            };
            assert(s@ =~= sign + decimal(m as int / 100) + seq!['.'] + two_digits(m as int % 100));
        }
        s
    }
}

/// An amount from hand-typed text: what `parse` reads, and zero for a text
/// that `parse` does not accept.
impl From<&str> for Dollar {
    fn from(value: &str) -> (r: Dollar) {
        match Dollar::parse(value) {
            Ok(d) => d,
            Err(_) => Dollar { cents: 0 },
        }
    }
}

impl vstd::std_specs::convert::FromSpecImpl<&str> for Dollar {
    open spec fn obeys_from_spec() -> bool {
        true
    }

    open spec fn from_spec(value: &str) -> Dollar {
        Dollar { cents: lenient_cents(value@) as i64 }
    }
}

/// What an amount is shown as starts with `$`; what follows has the shape
/// of an amount, is made of digits, a point and at most a `-`, and is read
/// as the amount.
pub proof fn lemma_display_reads_back(cents: int)
    ensures
        display_text(cents).len() >= 5,
        display_text(cents)[0] == '$',
        amount_shape(display_text(cents).skip(1)),
        decimal_cents(display_text(cents).skip(1)) == Some(cents),
        forall|k: int|
            1 <= k < display_text(cents).len() ==> is_digit(#[trigger] display_text(cents)[k])
                || display_text(cents)[k] == '.' || display_text(cents)[k] == '-',
{
    let m = magnitude(cents);
    let shown = display_text(cents);
    let body = decimal(m / 100) + seq!['.'] + two_digits(m % 100);
    lemma_numeral_reads_back(m / 100, m % 100);
    crate::decimal::lemma_decimal(m / 100);
    let rest = shown.skip(1);
    if cents < 0 {
        assert(shown =~= seq!['$', '-'] + body);
        assert(rest =~= seq!['-'] + body);
        assert(rest[0] == '-');
        assert(rest.skip(1) =~= body);
        assert forall|k: int| 1 <= k < shown.len() implies is_digit(#[trigger] shown[k])
            || shown[k] == '.' || shown[k] == '-' by {
            if k >= 2 {
                assert(shown[k] == body[k - 2]);
            }
        }
    } else {
        assert(shown =~= seq!['$'] + body);
        assert(rest =~= body);
        assert forall|k: int| 1 <= k < shown.len() implies is_digit(#[trigger] shown[k])
            || shown[k] == '.' || shown[k] == '-' by {
            assert(shown[k] == body[k - 1]);
        }
    }
}

/// A text without currency signs, thousands separators and spaces is
/// all that is read of itself.
proof fn lemma_nothing_to_strip(s: Seq<char>)
    requires
        forall|k: int| 0 <= k < s.len() ==> !is_separator(#[trigger] s[k]),
    ensures
        s.filter(|c: char| !is_separator(c)) == s,
    decreases s.len(),
{
    reveal(Seq::filter);
    if s.len() > 0 {
        let rest = s.drop_last();
        assert forall|k: int| 0 <= k < rest.len() implies !is_separator(#[trigger] rest[k]) by {
            assert(rest[k] == s[k]);
        }
        lemma_nothing_to_strip(rest);
        assert(!is_separator(s[s.len() - 1]));
        assert(rest.push(s.last()) =~= s);
    }
}

/// Of a `$` nothing is read.
proof fn lemma_sign_is_stripped()
    ensures
        seq!['$'].filter(|c: char| !is_separator(c)) == Seq::<char>::empty(),
{
    reveal_with_fuel(Seq::filter, 2);
    assert(seq!['$'].drop_last() =~= Seq::<char>::empty());
}

/// What an amount is shown as is read as what follows the `$`.
proof fn lemma_display_is_stripped(cents: int)
    ensures
        display_text(cents).filter(|c: char| !is_separator(c)) == display_text(cents).skip(1),
{
    let shown = display_text(cents);
    let rest = shown.skip(1);
    let keep = |c: char| !is_separator(c);
    lemma_display_reads_back(cents);
    assert forall|k: int| 0 <= k < rest.len() implies !is_separator(#[trigger] rest[k]) by {
        assert(rest[k] == shown[k + 1]);
    }
    lemma_nothing_to_strip(rest);
    lemma_sign_is_stripped();
    assert(shown =~= seq!['$'] + rest);
    Seq::filter_distributes_over_add(seq!['$'], rest, keep);
    assert(Seq::<char>::empty() + rest =~= rest);
}

/// An amount is read back from what it is shown as.
pub proof fn law_display_reads_back(cents: int)
    requires
        fits(cents),
    ensures
        text_cents(display_text(cents)) == Some(cents),
        lenient_cents(display_text(cents)) == cents,
{
    let shown = display_text(cents);
    let rest = shown.skip(1);
    lemma_display_reads_back(cents);
    lemma_display_is_stripped(cents);
    assert(rest[0] == shown[1]);
    assert(rest[0] != '+');
}

} // verus!
