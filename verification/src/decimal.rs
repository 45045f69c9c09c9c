//! Decimal numerals: writing a number as digits and reading digits back.

use crate::dollar::fits;
use crate::text::{
    all_digits, char_of_digit, decimal, digit_char, digit_of, digit_value, digits_value,
    is_digit, is_digit_char,
};
use vstd::prelude::*;

verus! {

/// The position of the first `c` in `s`, or the length of `s` where it has
/// none.
pub open spec fn first_index_of(s: Seq<char>, c: char) -> int
    decreases s.len(),
{
    if s.len() == 0 || s[0] == c {
        0
    } else {
        1 + first_index_of(s.drop_first(), c)
    }
}

/// `first_index_of` is the one position before which `c` does not occur
/// and at which it does, or the text ends.
pub proof fn lemma_first_index_of(s: Seq<char>, c: char, i: int)
    requires
        0 <= i <= s.len(),
        forall|k: int| 0 <= k < i ==> s[k] != c,
        i == s.len() || s[i] == c,
    ensures
        first_index_of(s, c) == i,
    decreases i,
{
    if i > 0 {
        let t = s.drop_first();
        assert forall|k: int| 0 <= k < i - 1 implies t[k] != c by {
            assert(t[k] == s[k + 1]);
        }
        lemma_first_index_of(t, c, i - 1);
    }
}

/// `first_index_of` lies within the text; `c` does not occur before it
/// and stands at it unless the text ends there.
pub proof fn lemma_first_index_of_bounds(s: Seq<char>, c: char)
    ensures
        0 <= first_index_of(s, c) <= s.len(),
        forall|k: int| 0 <= k < first_index_of(s, c) ==> s[k] != c,
        first_index_of(s, c) < s.len() ==> s[first_index_of(s, c)] == c,
    decreases s.len(),
{
    if s.len() == 0 || s[0] == c {
    } else {
        let t = s.drop_first();
        lemma_first_index_of_bounds(t, c);
        assert forall|k: int| 0 <= k < first_index_of(s, c) implies s[k] != c by {
            if k > 0 {
                assert(s[k] == t[k - 1]);
            }
        }
        if first_index_of(s, c) < s.len() {
            assert(s[first_index_of(s, c)] == t[first_index_of(t, c)]);
        }
    }
}

/// Appending a digit multiplies the value by ten and adds the digit.
pub proof fn lemma_digits_value_push(s: Seq<char>, c: char)
    ensures
        digits_value(s.push(c)) == digits_value(s) * 10 + digit_value(c),
{
    assert(s.push(c).drop_last() =~= s);
}

/// The value of a digit sequence is not negative and not below the value
/// of any of its prefixes.
pub proof fn lemma_digits_value_prefix(s: Seq<char>, i: int)
    requires
        all_digits(s),
        0 <= i <= s.len(),
    ensures
        0 <= digits_value(s.subrange(0, i)) <= digits_value(s),
    decreases s.len() - i,
{
    if i == s.len() {
        assert(s.subrange(0, i) =~= s);
        lemma_digits_value_nonnegative(s);
    } else {
        lemma_digits_value_prefix(s, i + 1);
        let p = s.subrange(0, i + 1);
        assert(p.drop_last() =~= s.subrange(0, i));
        assert(is_digit(s[i]));
        assert(p.last() == s[i]);
        assert(all_digits(s.subrange(0, i)));
        lemma_digits_value_nonnegative(s.subrange(0, i));
    }
}

/// Digits write a number that is not negative.
pub proof fn lemma_digits_value_nonnegative(s: Seq<char>)
    requires
        all_digits(s),
    ensures
        0 <= digits_value(s),
    decreases s.len(),
{
    if s.len() > 0 {
        assert(all_digits(s.drop_last()));
        lemma_digits_value_nonnegative(s.drop_last());
        assert(is_digit(s.last()));
    }
}

/// The cents that the digits after a decimal point stand for: tenths,
/// hundredths, and one more cent where the third digit is five or more.
pub open spec fn fraction_cents(frac: Seq<char>) -> int {
    let tenths = if frac.len() > 0 {
        digit_value(frac[0])
    } else {
        0
    };
    let hundredths = if frac.len() > 1 {
        digit_value(frac[1])
    } else {
        0
    };
    let up: int = if frac.len() > 2 && digit_value(frac[2]) >= 5 {
        1
    } else {
        0
    };
    tenths * 10 + hundredths + up
}

/// The cents that an unsigned decimal numeral stands for: digits, with or
/// without a decimal point among them, at least one digit in all. What
/// lies beyond the second digit after the point is rounded to the nearer
/// cent, a half upwards.
pub open spec fn numeral_cents(body: Seq<char>) -> Option<int> {
    let dot = first_index_of(body, '.');
    let whole = body.subrange(0, dot);
    let frac = if dot < body.len() {
        body.subrange(dot + 1, body.len() as int)
    } else {
        Seq::<char>::empty()
    };
    if all_digits(whole) && all_digits(frac) && whole.len() + frac.len() > 0 {
        Some(digits_value(whole) * 100 + fraction_cents(frac))
    } else {
        None
    }
}

/// The cents that a decimal numeral stands for, which a `-` may precede.
pub open spec fn decimal_cents(s: Seq<char>) -> Option<int> {
    if s.len() > 0 && s[0] == '-' {
        match numeral_cents(s.skip(1)) {
            Some(v) => Some(-v),
            None => None,
        }
    } else {
        numeral_cents(s)
    }
}

/// The shape of an amount in a token: digits, a point and digits, which a
/// `-` may precede.
pub open spec fn amount_shape(a: Seq<char>) -> bool {
    let body = if a.len() > 0 && a[0] == '-' {
        a.skip(1)
    } else {
        a
    };
    let dot = first_index_of(body, '.');
    &&& 0 < dot
    &&& dot + 1 < body.len()
    &&& all_digits(body.subrange(0, dot))
    &&& all_digits(body.subrange(dot + 1, body.len() as int))
}

/// Reads `v[from..to]` as a decimal numeral of cents. `None` where it is
/// no numeral, or stands for more than 64 bits hold.
pub(crate) fn read_cents(v: &Vec<char>, from: usize, to: usize) -> (r: Option<i64>)
    requires
        from <= to <= v.len(),
    ensures
        match decimal_cents(v@.subrange(from as int, to as int)) {
            Some(c) => if fits(c) {
                r == Some(c as i64)
            } else {
                r is None
            },
            None => r is None,
        },
{
    let ghost s = v@.subrange(from as int, to as int);
    let negative = from < to && v[from] == '-';
    let start: usize = if negative {
        from + 1
    } else {
        from
    };
    let ghost body = v@.subrange(start as int, to as int);
    proof {
        if negative {
            assert(s[0] == v@[from as int]);
            assert(s.skip(1) =~= body);
        } else {
            assert(s =~= body);
            if s.len() > 0 {
                assert(s[0] == v@[from as int]);
            }
        }
    }
    let mut i: usize = start;
    let mut whole: i128 = 0;
    while i < to && is_digit_char(v[i])
        invariant
            start <= i <= to <= v.len(),
            body == v@.subrange(start as int, to as int),
            all_digits(body.subrange(0, i - start)),
            whole == digits_value(body.subrange(0, i - start)),
            0 <= whole <= 0x8000_0000_0000_0000,
            negative ==> s.len() > 0 && s[0] == '-' && s.skip(1) == body,
            !negative ==> s == body && (s.len() == 0 || s[0] != '-'),
            s == v@.subrange(from as int, to as int),
        decreases to - i,
    {
        let d: u8 = digit_of(v[i]);
        let ghost prefix = body.subrange(0, i - start);
        proof {
            assert(body[i - start] == v@[i as int]);
            assert(body.subrange(0, i + 1 - start) =~= prefix.push(v@[i as int]));
            lemma_digits_value_push(prefix, v@[i as int]);
        }
        whole = whole * 10 + d as i128;
        i += 1;
        if whole > 0x8000_0000_0000_0000 {
            proof {
                lemma_too_large(body, i - start, negative, s);
            }
            return None;
        }
    }
    let whole_len: usize = i - start;
    let ghost dot: int = i - start;
    proof {
        assert forall|k: int| 0 <= k < dot implies body[k] != '.' by {
            assert(is_digit(body.subrange(0, dot)[k]));
        }
    }
    let mut tenths: u8 = 0;
    let mut hundredths: u8 = 0;
    let mut up: u8 = 0;
    let mut frac_len: usize = 0;
    if i < to {
        proof {
            assert(body[dot] == v@[i as int]);
        }
        if v[i] != '.' {
            proof {
                lemma_first_index_of_bounds(body, '.');
                let fi = first_index_of(body, '.');
                assert(fi > dot);
                assert(body.subrange(0, fi)[dot] == body[dot]);
                assert(!all_digits(body.subrange(0, fi)));
            }
            return None;
        }
        proof {
            lemma_first_index_of(body, '.', dot);
        }
        let frac_start: usize = i + 1;
        let ghost frac = body.subrange(dot + 1, body.len() as int);
        let mut j: usize = frac_start;
        while j < to
            invariant
                frac_start <= j <= to <= v.len(),
                frac_start == start + dot + 1,
                start <= to,
                0 <= dot < body.len(),
                first_index_of(body, '.') == dot,
                negative ==> s.len() > 0 && s[0] == '-' && s.skip(1) == body,
                !negative ==> s == body && (s.len() == 0 || s[0] != '-'),
                s == v@.subrange(from as int, to as int),
                body == v@.subrange(start as int, to as int),
                frac == body.subrange(dot + 1, body.len() as int),
                frac_len == j - frac_start,
                all_digits(frac.subrange(0, j - frac_start)),
                tenths < 10,
                hundredths < 10,
                up <= 1,
                tenths == (if j - frac_start > 0 {
                    digit_value(frac[0])
                } else {
                    0
                }),
                hundredths == (if j - frac_start > 1 {
                    digit_value(frac[1])
                } else {
                    0
                }),
                up == (if j - frac_start > 2 && digit_value(frac[2]) >= 5 {
                    1int
                } else {
                    0int
                }),
            decreases to - j,
        {
            proof {
                assert(frac[j - frac_start] == v@[j as int]);
            }
            if !is_digit_char(v[j]) {
                proof {
                    assert(!is_digit(frac[j - frac_start]));
                }
                return None;
            }
            let d: u8 = digit_of(v[j]);
            if frac_len == 0 {
                tenths = d;
            } else if frac_len == 1 {
                hundredths = d;
            } else if frac_len == 2 {
                up = if d >= 5 {
                    1
                } else {
                    0
                };
            }
            proof {
                let a = frac.subrange(0, j - frac_start);
                let b = frac.subrange(0, j + 1 - frac_start);
                assert forall|k: int| 0 <= k < b.len() implies is_digit(#[trigger] b[k]) by {
                    if k < a.len() {
                        assert(b[k] == a[k]);
                    }
                }
            }
            frac_len += 1;
            j += 1;
        }
        proof {
            assert(frac.subrange(0, j - frac_start) =~= frac);
        }
    } else {
        proof {
            lemma_first_index_of(body, '.', dot);
            assert(body.subrange(0, dot) =~= body);
        }
    }
    if whole_len == 0 && frac_len == 0 {
        return None;
    }
    let size: i128 = whole * 100 + (tenths as i128) * 10 + hundredths as i128 + up as i128;
    let value: i128 = if negative {
        -size
    } else {
        size
    };
    if value < i64::MIN as i128 || value > i64::MAX as i128 {
        None
    } else {
        Some(value as i64)
    }
}

/// A numeral whose leading digits already stand for more than 2^63 stands
/// for more than 64 bits hold.
proof fn lemma_too_large(body: Seq<char>, i: int, negative: bool, s: Seq<char>)
    requires
        0 <= i <= body.len(),
        all_digits(body.subrange(0, i)),
        digits_value(body.subrange(0, i)) > 0x8000_0000_0000_0000,
        negative ==> s.len() > 0 && s[0] == '-' && s.skip(1) == body,
        !negative ==> s == body && (s.len() == 0 || s[0] != '-'),
    ensures
        decimal_cents(s) matches Some(c) ==> !fits(c),
{
    if numeral_cents(body) is Some {
        let dot = first_index_of(body, '.');
        lemma_first_index_of_bounds(body, '.');
        let whole = body.subrange(0, dot);
        if dot < i {
            assert(body.subrange(0, i)[dot] == '.');
            assert(is_digit(body.subrange(0, i)[dot]));
        }
        assert(whole.subrange(0, i) =~= body.subrange(0, i));
        lemma_digits_value_prefix(whole, i);
        let frac = if dot < body.len() {
            body.subrange(dot + 1, body.len() as int)
        } else {
            Seq::<char>::empty()
        };
        lemma_fraction_cents_bounds(frac);
    }
}

/// The digits after a decimal point stand for no more than a hundred
/// cents.
pub proof fn lemma_fraction_cents_bounds(frac: Seq<char>)
    requires
        all_digits(frac),
    ensures
        0 <= fraction_cents(frac) <= 100,
{
    if frac.len() > 0 {
        assert(is_digit(frac[0]));
    }
    if frac.len() > 1 {
        assert(is_digit(frac[1]));
    }
}

/// Appends the decimal digits of `n` to `s`.
pub fn push_decimal(s: &mut String, n: u64)
    ensures
        final(s)@ == old(s)@ + decimal(n as int),
    decreases n,
{
    if n >= 10 {
        push_decimal(s, n / 10);
    }
    s.push(char_of_digit((n % 10) as u8));
    proof {
        if n >= 10 {
            assert(old(s)@ + decimal(n as int) =~= (old(s)@ + decimal(n as int / 10)).push(
                digit_char(n as int % 10),
            ));
        } else {
            assert(old(s)@ + decimal(n as int) =~= old(s)@.push(digit_char(n as int)));
        }
    }
}

/// The two digits of a number below a hundred.
pub open spec fn two_digits(n: int) -> Seq<char> {
    seq![digit_char(n / 10), digit_char(n % 10)]
}

/// Appends the two digits of `n` to `s`.
pub(crate) fn push_two_digits(s: &mut String, n: u8)
    requires
        n < 100,
    ensures
        final(s)@ == old(s)@ + two_digits(n as int),
{
    s.push(char_of_digit(n / 10));
    s.push(char_of_digit(n % 10));
    proof {
        assert(old(s)@.push(digit_char(n as int / 10)).push(digit_char(n as int % 10)) =~= old(
            s,
        )@ + two_digits(n as int));
    }
}

/// The digit of a value below ten is a digit with that value.
pub proof fn lemma_digit_char(d: int)
    requires
        0 <= d < 10,
    ensures
        is_digit(digit_char(d)),
        digit_value(digit_char(d)) == d,
        digit_char(d) != '.',
        digit_char(d) != '-',
        digit_char(d) != '|',
        digit_char(d) != ' ',
        digit_char(d) != '$',
        digit_char(d) != ',',
        digit_char(d) != '+',
{
}

/// The decimal digits of a number are digits, at least one, and write
/// that number.
pub proof fn lemma_decimal(n: int)
    requires
        n >= 0,
    ensures
        decimal(n).len() >= 1,
        all_digits(decimal(n)),
        digits_value(decimal(n)) == n,
    decreases n,
{
    if n < 10 {
        lemma_digit_char(n);
        let s = decimal(n);
        assert(s.drop_last() =~= Seq::<char>::empty());
        assert(digits_value(s) == digits_value(s.drop_last()) * 10 + digit_value(s.last()));
    } else {
        lemma_decimal(n / 10);
        lemma_digit_char(n % 10);
        lemma_digits_value_push(decimal(n / 10), digit_char(n % 10));
        let s = decimal(n);
        assert forall|i: int| 0 <= i < s.len() implies is_digit(#[trigger] s[i]) by {
            if i < s.len() - 1 {
                assert(s[i] == decimal(n / 10)[i]);
            }
        }
    }
}

/// The two digits of a number below a hundred are digits and write that
/// number.
pub proof fn lemma_two_digits(n: int)
    requires
        0 <= n < 100,
    ensures
        two_digits(n).len() == 2,
        all_digits(two_digits(n)),
        digits_value(two_digits(n)) == n,
        fraction_cents(two_digits(n)) == n,
{
    lemma_digit_char(n / 10);
    lemma_digit_char(n % 10);
    let s = two_digits(n);
    assert(s.drop_last() =~= seq![digit_char(n / 10)]);
    assert(s.drop_last().drop_last() =~= Seq::<char>::empty());
    reveal_with_fuel(digits_value, 3);
}

/// A numeral made of digits, a point and two digits is read as the cents
/// that it writes.
pub proof fn lemma_numeral_reads_back(whole: int, cents: int)
    requires
        whole >= 0,
        0 <= cents < 100,
    ensures
        ({
            let body = decimal(whole) + seq!['.'] + two_digits(cents);
            &&& numeral_cents(body) == Some(whole * 100 + cents)
            &&& amount_shape(body)
            &&& body[0] != '-'
            &&& forall|k: int|
                0 <= k < body.len() ==> is_digit(#[trigger] body[k]) || body[k] == '.'
        }),
{
    lemma_decimal(whole);
    lemma_two_digits(cents);
    let w = decimal(whole);
    let f = two_digits(cents);
    let body = w + seq!['.'] + f;
    let dot = w.len() as int;
    assert forall|k: int| 0 <= k < dot implies body[k] != '.' by {
        assert(body[k] == w[k]);
        assert(is_digit(w[k]));
    }
    assert(body[dot] == '.');
    lemma_first_index_of(body, '.', dot);
    assert(body.subrange(0, dot) =~= w);
    assert(body.subrange(dot + 1, body.len() as int) =~= f);
    assert(body[0] == w[0]);
    assert(is_digit(w[0]));
    assert forall|k: int| 0 <= k < body.len() implies is_digit(#[trigger] body[k]) || body[k]
        == '.' by {
        if k < dot {
            assert(body[k] == w[k]);
            assert(is_digit(w[k]));
        } else if k > dot {
            assert(body[k] == f[k - dot - 1]);
            assert(is_digit(f[k - dot - 1]));
        }
    }
}

} // verus!
