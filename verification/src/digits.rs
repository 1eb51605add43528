//! Canonical base-10 rendering of the integers that appear in transaction
//! fields: no leading zeros, no separators, a single leading `-` for a
//! negative value.  The digit strings become Merkle leaves, so any deviation
//! from this form would change the commitment.

use vstd::prelude::*;

verus! {

/// The character for a single decimal digit value `d < 10`.
pub open spec fn digit_char(d: nat) -> char {
    ((48 + d) as u8) as char
}

/// Canonical decimal digits of `n`, most significant first, no leading
/// zeros (`0` itself is the single digit `0`).
pub open spec fn dec_digits(n: nat) -> Seq<char>
    decreases n,
{
    if n < 10 {
        seq![digit_char(n)]
    } else {
        dec_digits(n / 10).push(digit_char(n % 10))
    }
}

/// Canonical decimal rendering of a signed integer: a leading `-` for a
/// negative value, plain digits otherwise.
pub open spec fn dec_int(v: int) -> Seq<char> {
    if v < 0 {
        seq!['-'] + dec_digits((-v) as nat)
    } else {
        dec_digits(v as nat)
    }
}

/// Every character of a canonical digit string is a decimal digit
/// (code points 48 through 57); in particular none is a `-`.
pub proof fn lemma_dec_digits_are_digits(n: nat)
    ensures
        forall|i: int|
            0 <= i < dec_digits(n).len() ==> 48 <= (#[trigger] dec_digits(n)[i]) as int <= 57,
    decreases n,
{
    if n < 10 {
        assert(digit_char(n) as int == 48 + n);
    } else {
        lemma_dec_digits_are_digits(n / 10);
        assert(digit_char(n % 10) as int == 48 + n % 10);
        assert forall|i: int| 0 <= i < dec_digits(n).len() implies 48 <= (#[trigger] dec_digits(
            n,
        )[i]) as int <= 57 by {
            if i < dec_digits(n / 10).len() {
                assert(dec_digits(n)[i] == dec_digits(n / 10)[i]);
            } else {
                assert(dec_digits(n)[i] == digit_char(n % 10));
            }
        }
    }
}

/// A canonical digit string has one digit exactly when the value is below 10.
pub proof fn lemma_dec_digits_len(n: nat)
    ensures
        dec_digits(n).len() >= 1,
        n >= 10 ==> dec_digits(n).len() >= 2,
    decreases n,
{
    if n >= 10 {
        lemma_dec_digits_len(n / 10);
    }
}

/// Distinct digit values render as distinct characters.
pub proof fn lemma_digit_char_injective(d1: nat, d2: nat)
    requires
        d1 < 10,
        d2 < 10,
        d1 != d2,
    ensures
        digit_char(d1) != digit_char(d2),
{
    assert(digit_char(d1) as u8 == 48 + d1);
    assert(digit_char(d2) as u8 == 48 + d2);
}

/// Canonical digit strings are injective: distinct natural numbers render
/// as distinct digit sequences.
pub proof fn lemma_dec_digits_injective(a: nat, b: nat)
    requires
        dec_digits(a) == dec_digits(b),
    ensures
        a == b,
    decreases a,
{
    lemma_dec_digits_len(a);
    lemma_dec_digits_len(b);
    if a < 10 && b < 10 {
        if a != b {
            lemma_digit_char_injective(a, b);
            assert(dec_digits(a)[0] == digit_char(a));
            assert(dec_digits(b)[0] == digit_char(b));
        }
    } else if a < 10 {
        assert(dec_digits(a).len() == 1);
        assert(dec_digits(b).len() >= 2);
    } else if b < 10 {
        assert(dec_digits(a).len() >= 2);
        assert(dec_digits(b).len() == 1);
    } else {
        assert(dec_digits(a).last() == digit_char(a % 10));
        assert(dec_digits(b).last() == digit_char(b % 10));
        if a % 10 != b % 10 {
            lemma_digit_char_injective(a % 10, b % 10);
            assert(false);
        }
        assert(dec_digits(a).drop_last() =~= dec_digits(a / 10));
        assert(dec_digits(b).drop_last() =~= dec_digits(b / 10));
        lemma_dec_digits_injective(a / 10, b / 10);
        assert(a == (a / 10) * 10 + a % 10);
        assert(b == (b / 10) * 10 + b % 10);
    }
}

/// Canonical signed decimal renderings are injective: distinct integers
/// render as distinct character sequences.
pub proof fn lemma_dec_int_injective(a: int, b: int)
    requires
        dec_int(a) == dec_int(b),
    ensures
        a == b,
{
    if a < 0 && b < 0 {
        assert(dec_int(a).skip(1) =~= dec_digits((-a) as nat));
        assert(dec_int(b).skip(1) =~= dec_digits((-b) as nat));
        lemma_dec_digits_injective((-a) as nat, (-b) as nat);
    } else if a >= 0 && b >= 0 {
        lemma_dec_digits_injective(a as nat, b as nat);
    } else if a < 0 {
        lemma_dec_digits_len(-a as nat);
        lemma_dec_digits_are_digits(b as nat);
        assert(dec_int(a)[0] == '-');
        assert(48 <= dec_int(b)[0] as int <= 57);
        assert('-' as int == 45);
    } else {
        lemma_dec_digits_len(-b as nat);
        lemma_dec_digits_are_digits(a as nat);
        assert(dec_int(b)[0] == '-');
        assert(48 <= dec_int(a)[0] as int <= 57);
        assert('-' as int == 45);
    }
}

/// The one-character string for a decimal digit value.
fn digit_str(d: u64) -> (s: &'static str)
    requires
        d < 10,
    ensures
        s@ == seq![digit_char(d as nat)],
{
    proof {
        reveal_strlit("0");
        reveal_strlit("1");
        reveal_strlit("2");
        reveal_strlit("3");
        reveal_strlit("4");
        reveal_strlit("5");
        reveal_strlit("6");
        reveal_strlit("7");
        reveal_strlit("8");
        reveal_strlit("9");
    }
    if d == 0 {
        "0"
    } else if d == 1 {
        "1"
    } else if d == 2 {
        "2"
    } else if d == 3 {
        "3"
    } else if d == 4 {
        "4"
    } else if d == 5 {
        "5"
    } else if d == 6 {
        "6"
    } else if d == 7 {
        "7"
    } else if d == 8 {
        "8"
    } else {
        "9"
    }
}

/// Renders `n` in canonical decimal form.
pub fn u64_to_dec(n: u64) -> (s: String)
    ensures
        s@ == dec_digits(n as nat),
    decreases n,
{
    if n < 10 {
        String::from_str(digit_str(n))
    } else {
        let mut s = u64_to_dec(n / 10);
        s.append(digit_str(n % 10));
        proof {
            assert(s@ =~= dec_digits((n / 10) as nat).push(digit_char((n % 10) as nat)));
        }
        s
    }
}

/// Renders `v` in canonical decimal form, with a leading `-` when negative.
pub fn i32_to_dec(v: i32) -> (s: String)
    ensures
        s@ == dec_int(v as int),
{
    if v >= 0 {
        u64_to_dec(v as u64)
    } else {
        let mag: i64 = -(v as i64);
        let mut s = String::from_str("-");
        let digits = u64_to_dec(mag as u64);
        s.append(digits.as_str());
        proof {
            reveal_strlit("-");
            assert(s@ =~= seq!['-'] + dec_digits((-(v as int)) as nat));
        }
        s
    }
}

} // verus!
