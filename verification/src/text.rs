//! Decimal rendering of counters, shared by the tree builders and the emitters.
use vstd::prelude::*;

verus! {

/// The character for a single decimal digit.
pub open spec fn dec_digit_char(d: nat) -> char {
    if d == 0 {
        '0'
    } else if d == 1 {
        '1'
    } else if d == 2 {
        '2'
    } else if d == 3 {
        '3'
    } else if d == 4 {
        '4'
    } else if d == 5 {
        '5'
    } else if d == 6 {
        '6'
    } else if d == 7 {
        '7'
    } else if d == 8 {
        '8'
    } else {
        '9'
    }
}

/// The decimal notation of `n`, without leading zeros (a single `0` for zero).
pub open spec fn dec_digits(n: nat) -> Seq<char>
    decreases n,
{
    if n < 10 {
        seq![dec_digit_char(n)]
    } else {
        dec_digits(n / 10) + seq![dec_digit_char(n % 10)]
    }
}

fn digit_str(d: u128) -> (s: &'static str)
    requires
        d < 10,
    ensures
        s@ == seq![dec_digit_char(d as nat)],
{
    proof {
        reveal_strlit("0");
        reveal_strlit("1");
        reveal_strlit("2");
        reveal_strlit("3");
        reveal_strlit("4");
        reveal_strlit("5");
        reveal_strlit("6");
        reveal_strlit("7");
        reveal_strlit("8");
        reveal_strlit("9");
    }
    if d == 0 {
        "0"
    } else if d == 1 {
        "1"
    } else if d == 2 {
        "2"
    } else if d == 3 {
        "3"
    } else if d == 4 {
        "4"
    } else if d == 5 {
        "5"
    } else if d == 6 {
        "6"
    } else if d == 7 {
        "7"
    } else if d == 8 {
        "8"
    } else {
        "9"
    }
}

/// Appends the decimal notation of `n` to `out`.
pub fn push_decimal(out: &mut String, n: u128)
    ensures
        final(out)@ == old(out)@ + dec_digits(n as nat),
    decreases n,
{
    if n < 10 {
        out.append(digit_str(n));
    } else {
        push_decimal(out, n / 10);
        out.append(digit_str(n % 10));
        proof {
            assert(out@ =~= old(out)@ + dec_digits(n as nat));
        }
    }
}

/// The decimal notation of `n` as an owned string.
pub fn to_decimal(n: u128) -> (s: String)
    ensures
        s@ == dec_digits(n as nat),
{
    let mut s = String::new();
    push_decimal(&mut s, n);
    proof {
        assert(s@ =~= dec_digits(n as nat));
    }
    s
}

/// Every character of a decimal notation is a digit.
pub proof fn lemma_dec_digits_shape(n: nat)
    ensures
        dec_digits(n).len() >= 1,
        n >= 10 ==> dec_digits(n).len() >= 2,
    decreases n,
{
    if n >= 10 {
        lemma_dec_digits_shape(n / 10);
    }
}

/// Distinct numbers render as distinct digit strings.
pub proof fn lemma_dec_digits_injective(m: nat, n: nat)
    requires
        dec_digits(m) == dec_digits(n),
    ensures
        m == n,
    decreases m,
{
    lemma_dec_digits_shape(m);
    lemma_dec_digits_shape(n);
    if m < 10 && n < 10 {
        assert(dec_digits(m)[0] == dec_digit_char(m));
        assert(dec_digits(n)[0] == dec_digit_char(n));
    } else if m >= 10 && n >= 10 {
        assert(dec_digits(m).last() == dec_digit_char(m % 10));
        assert(dec_digits(n).last() == dec_digit_char(n % 10));
        assert(dec_digits(m).drop_last() =~= dec_digits(m / 10));
        assert(dec_digits(n).drop_last() =~= dec_digits(n / 10));
        lemma_dec_digits_injective(m / 10, n / 10);
        assert(m % 10 == n % 10);
    } else {
        // one is a single digit, the other at least two: lengths differ
        assert(false);
    }
}

} // verus!
