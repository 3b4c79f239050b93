//! Decimal spelling of integers: the mathematical definitions, and the
//! printers that produce them digit by digit.
use crate::text::push_char;
use vstd::arithmetic::div_mod::*;
use vstd::arithmetic::mul::*;
use vstd::prelude::*;

verus! {

/// The ASCII character of decimal digit `d`.
pub open spec fn digit_char(d: nat) -> char {
    (d + 48) as char
}

/// Is `c` one of the ASCII digits `0`–`9`?
pub open spec fn is_ascii_digit_char(c: char) -> bool {
    '0' <= c && c <= '9'
}

/// The digit denoted by an ASCII digit character.
pub open spec fn ascii_digit_value(c: char) -> nat {
    (c as int - 48) as nat
}

/// The shortest decimal spelling of `n` (no leading zeros; `0` is "0").
pub open spec fn nat_to_decimal(n: nat) -> Seq<char>
    decreases n,
{
    if n < 10 {
        seq![digit_char(n)]
    } else {
        nat_to_decimal(n / 10).push(digit_char(n % 10))
    }
}

/// The decimal spelling of an integer: a `-` before the magnitude of a negative.
pub open spec fn int_to_decimal(v: int) -> Seq<char> {
    if v < 0 {
        seq!['-'] + nat_to_decimal((-v) as nat)
    } else {
        nat_to_decimal(v as nat)
    }
}

/// The lowest `k` decimal digits of `n`, zero-padded to exactly `k` characters.
pub open spec fn fixed_digits(n: nat, k: nat) -> Seq<char>
    decreases k,
{
    if k == 0 {
        Seq::empty()
    } else {
        fixed_digits(n / 10, (k - 1) as nat).push(digit_char(n % 10))
    }
}

/// 10^k.
pub open spec fn pow10(k: nat) -> nat
    decreases k,
{
    if k == 0 {
        1
    } else {
        10 * pow10((k - 1) as nat)
    }
}

/// The number spelled by a string of ASCII digits (most significant first).
pub open spec fn digits_value(s: Seq<char>) -> nat
    decreases s.len(),
{
    if s.len() == 0 {
        0
    } else {
        digits_value(s.drop_last()) * 10 + ascii_digit_value(s.last())
    }
}

/// Every character of `s` is an ASCII digit.
pub open spec fn all_ascii_digits(s: Seq<char>) -> bool {
    forall|i: int| 0 <= i < s.len() ==> is_ascii_digit_char(#[trigger] s[i])
}

/// The digits part of an optionally signed literal.
pub open spec fn unsigned_part(s: Seq<char>) -> Seq<char> {
    if s.len() > 0 && s[0] == '-' {
        s.drop_first()
    } else {
        s
    }
}

/// An optional `-` followed by one or more ASCII digits.
pub open spec fn is_decimal_literal(s: Seq<char>) -> bool {
    unsigned_part(s).len() > 0 && all_ascii_digits(unsigned_part(s))
}

/// The integer a decimal literal denotes.
pub open spec fn decimal_literal_value(s: Seq<char>) -> int {
    if s.len() > 0 && s[0] == '-' {
        -digits_value(s.drop_first())
    } else {
        digits_value(s) as int
    }
}

pub proof fn lemma_pow10_positive(k: nat)
    ensures
        pow10(k) >= 1,
    decreases k,
{
    if k > 0 {
        lemma_pow10_positive((k - 1) as nat);
    }
}

/// A number with a non-zero high part and `k` low digits spells as the high
/// part followed by exactly `k` digits.
pub proof fn lemma_decimal_split(q: nat, r: nat, k: nat)
    requires
        q > 0,
        r < pow10(k),
    ensures
        nat_to_decimal(q * pow10(k) + r) == nat_to_decimal(q) + fixed_digits(r, k),
    decreases k,
{
    if k == 0 {
        assert(q * 1 + r == q);
        assert(nat_to_decimal(q) + Seq::<char>::empty() =~= nat_to_decimal(q));
    } else {
        let k1 = (k - 1) as nat;
        let n = q * pow10(k) + r;
        lemma_pow10_positive(k1);
        assert(pow10(k) == 10 * pow10(k1));
        // n / 10 = q * 10^(k-1) + r / 10 and n % 10 = r % 10
        let p = pow10(k1);
        lemma_fundamental_div_mod(r as int, 10);
        let rq = r / 10;
        let rr = r % 10;
        assert(n == (q * p + rq) * 10 + rr) by (nonlinear_arith)
            requires
                n == q * (10 * p) + r,
                r == 10 * rq + rr,
        ;
        lemma_fundamental_div_mod_converse(n as int, 10, (q * p + rq) as int, rr as int);
        assert(rq < p) by (nonlinear_arith)
            requires
                r < 10 * p,
                r == 10 * rq + rr,
                rr >= 0,
        ;
        assert(q * p >= 1) by (nonlinear_arith)
            requires
                q >= 1,
                p >= 1,
        ;
        assert(n >= 10);
        lemma_decimal_split(q, rq, k1);
        assert(nat_to_decimal(n) == nat_to_decimal(n / 10).push(digit_char(n % 10)));
        assert(fixed_digits(r, k) == fixed_digits(rq, k1).push(digit_char(rr)));
        assert((nat_to_decimal(q) + fixed_digits(rq, k1)).push(digit_char(rr)) =~= nat_to_decimal(
            q,
        ) + fixed_digits(rq, k1).push(digit_char(rr)));
    }
}

/// The shortest spelling is all digits, and reads back as the number.
pub proof fn lemma_decimal_roundtrip(n: nat)
    ensures
        nat_to_decimal(n).len() > 0,
        all_ascii_digits(nat_to_decimal(n)),
        digits_value(nat_to_decimal(n)) == n,
        nat_to_decimal(n)[0] != '-',
    decreases n,
{
    if n < 10 {
        let s = nat_to_decimal(n);
        assert(s.drop_last() =~= Seq::<char>::empty());
        assert(digits_value(s.drop_last()) == 0);
    } else {
        lemma_decimal_roundtrip(n / 10);
        let s = nat_to_decimal(n);
        let h = nat_to_decimal(n / 10);
        assert(s.drop_last() =~= h);
        assert(s[0] == h[0]);
        lemma_fundamental_div_mod(n as int, 10);
        assert forall|i: int| 0 <= i < s.len() implies is_ascii_digit_char(#[trigger] s[i]) by {
            if i < h.len() {
                assert(s[i] == h[i]);
            }
        }
    }
}

/// Printing then reading a decimal literal gives back the integer.
pub proof fn lemma_int_decimal_roundtrip(v: int)
    ensures
        is_decimal_literal(int_to_decimal(v)),
        decimal_literal_value(int_to_decimal(v)) == v,
{
    let s = int_to_decimal(v);
    if v < 0 {
        lemma_decimal_roundtrip((-v) as nat);
        assert(s.drop_first() =~= nat_to_decimal((-v) as nat));
        assert(s[0] == '-');
    } else {
        lemma_decimal_roundtrip(v as nat);
    }
}

/// The ASCII character of digit `d`.
pub fn digit_to_char(d: u32) -> (c: char)
    requires
        d < 10,
    ensures
        c == digit_char(d as nat),
        is_ascii_digit_char(c),
        ascii_digit_value(c) == d,
{
    let b = d as u8 + 48;
    b as char
}

/// Append the shortest decimal spelling of `x`.
pub fn push_decimal(out: &mut String, x: u64)
    ensures
        final(out)@ == old(out)@ + nat_to_decimal(x as nat),
    decreases x,
{
    let ghost orig = out@;
    if x >= 10 {
        push_decimal(out, x / 10);
    }
    push_char(out, digit_to_char((x % 10) as u32));
    proof {
        if x >= 10 {
            let a = nat_to_decimal((x / 10) as nat);
            assert((orig + a).push(digit_char((x % 10) as nat)) =~= orig + a.push(
                digit_char((x % 10) as nat),
            ));
        } else {
            assert(orig.push(digit_char(x as nat)) =~= orig + seq![digit_char(x as nat)]);
        }
    }
}

/// Append exactly `k` decimal digits: the lowest `k` digits of `x`, zero-padded.
pub fn push_fixed_digits(out: &mut String, x: u32, k: usize)
    ensures
        final(out)@ == old(out)@ + fixed_digits(x as nat, k as nat),
    decreases k,
{
    let ghost orig = out@;
    if k > 0 {
        push_fixed_digits(out, x / 10, k - 1);
        push_char(out, digit_to_char(x % 10));
        proof {
            let a = fixed_digits((x / 10) as nat, (k - 1) as nat);
            assert((orig + a).push(digit_char((x % 10) as nat)) =~= orig + a.push(
                digit_char((x % 10) as nat),
            ));
        }
    } else {
        assert(old(out)@ + Seq::<char>::empty() =~= old(out)@);
    }
}

} // verus!
