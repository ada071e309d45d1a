//! Decimal numerals in ASCII: how a natural number is written, and what a
//! run of digits denotes.

use vstd::prelude::*;

verus! {

/// Whether `b` is one of the ASCII digits `0` to `9`.
pub open spec fn is_digit(b: u8) -> bool {
    48 <= b <= 57
}

/// The ASCII digit that stands for `d`, for `d` below ten.
pub open spec fn digit_byte(d: nat) -> u8 {
    (48 + d) as u8
}

/// Whether every byte of `s` is an ASCII digit.
pub open spec fn all_digits(s: Seq<u8>) -> bool {
    forall|i: int| 0 <= i < s.len() ==> is_digit(#[trigger] s[i])
}

/// The shortest decimal numeral of `n`: no leading zero, and `0` for zero.
pub open spec fn decimal(n: nat) -> Seq<u8>
    decreases n,
{
    if n < 10 {
        seq![digit_byte(n)]
    } else {
        decimal(n / 10).push(digit_byte(n % 10))
    }
}

/// The number that a run of digits denotes, leading zeros allowed; zero for
/// the empty run.
pub open spec fn decimal_value(s: Seq<u8>) -> nat
    decreases s.len(),
{
    if s.len() == 0 {
        0
    } else {
        decimal_value(s.drop_last()) * 10 + (s.last() - 48) as nat
    }
}

/// How many digits stand at the front of `s`.
pub open spec fn leading_digits(s: Seq<u8>) -> nat
    decreases s.len(),
{
    if s.len() > 0 && is_digit(s[0]) {
        1 + leading_digits(s.drop_first())
    } else {
        0
    }
}

/// A numeral is a non-empty run of digits.
pub proof fn lemma_decimal_digits(n: nat)
    ensures
        decimal(n).len() >= 1,
        all_digits(decimal(n)),
    decreases n,
{
    if n >= 10 {
        lemma_decimal_digits(n / 10);
    }
}

/// Reading a numeral gives the number back.
pub proof fn lemma_decimal_value(n: nat)
    ensures
        decimal_value(decimal(n)) == n,
    decreases n,
{
    if n < 10 {
        assert(decimal(n).drop_last() =~= Seq::<u8>::empty());
        assert(decimal_value(decimal(n).drop_last()) == 0);
    } else {
        lemma_decimal_value(n / 10);
        assert(decimal(n).drop_last() =~= decimal(n / 10));
    }
}

/// The leading digits of `s` are digits, they end within `s`, and what
/// follows them, if anything, is not a digit.
pub proof fn lemma_leading_digits(s: Seq<u8>)
    ensures
        leading_digits(s) <= s.len(),
        all_digits(s.take(leading_digits(s) as int)),
        leading_digits(s) < s.len() ==> !is_digit(s[leading_digits(s) as int]),
    decreases s.len(),
{
    if s.len() > 0 && is_digit(s[0]) {
        let t = s.drop_first();
        lemma_leading_digits(t);
        let n: int = leading_digits(t) as int;
        assert forall|i: int| 0 <= i < n + 1 implies is_digit(#[trigger] s.take(n + 1)[i]) by {
            if i > 0 {
                assert(s.take(n + 1)[i] == t.take(n)[i - 1]);
            }
        }
        if n + 1 < s.len() {
            assert(s[n + 1] == t[n]);
        }
    }
}

/// A run of digits that is followed by the end or by something else than a
/// digit is exactly the leading digits.
pub proof fn lemma_leading_digits_of(digits: Seq<u8>, rest: Seq<u8>)
    requires
        all_digits(digits),
        rest.len() == 0 || !is_digit(rest[0]),
    ensures
        leading_digits(digits + rest) == digits.len(),
    decreases digits.len(),
{
    let s = digits + rest;
    if digits.len() == 0 {
        assert(s =~= rest);
    } else {
        assert(s[0] == digits[0]);
        assert(s.drop_first() =~= digits.drop_first() + rest);
        assert forall|i: int| 0 <= i < digits.drop_first().len() implies is_digit(
            #[trigger] digits.drop_first()[i],
        ) by {
            assert(digits.drop_first()[i] == digits[i + 1]);
        }
        lemma_leading_digits_of(digits.drop_first(), rest);
    }
}

/// Appends the decimal numeral of `n` to `out`.
pub fn push_decimal(out: &mut Vec<u8>, n: u64)
    ensures
        final(out)@ == old(out)@ + decimal(n as nat),
{
    let mut digits: Vec<u8> = Vec::new();
    let mut m: u64 = n;
    // Collect the digits from the last to the first.
    while m >= 10
        invariant
            decimal(n as nat) =~= decimal(m as nat) + digits@.reverse(),
        decreases m,
    {
        let d: u8 = (m % 10) as u8;
        proof {
            let older = digits@;
            let newer = older.push((48 + d) as u8);
            assert(newer.reverse() =~= seq![(48 + d) as u8] + older.reverse());
            assert(decimal(m as nat) =~= decimal((m / 10) as nat).push(
                digit_byte((m % 10) as nat),
            ));
        }
        digits.push(48 + d);
        m = m / 10;
    }
    out.push(48 + (m as u8));
    let ghost before = out@;
    let mut i: usize = digits.len();
    while i > 0
        invariant
            i <= digits.len(),
            out@ =~= before + digits@.reverse().take(digits.len() - i),
        decreases i,
    {
        i -= 1;
        proof {
            let r = digits@.reverse();
            assert(r.take(digits.len() - i) =~= r.take(digits.len() - i - 1).push(
                digits@[i as int],
            ));
        }
        out.push(digits[i]);
    }
    proof {
        assert(digits@.reverse().take(digits.len() as int) =~= digits@.reverse());
        assert(decimal(m as nat) =~= seq![digit_byte(m as nat)]);
    }
}

} // verus!
