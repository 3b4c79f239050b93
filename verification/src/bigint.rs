//! Arbitrary-precision integers: sign and magnitude, base 2³², little-endian
//! limbs, with a canonical zero (`negative = false`, no limbs) so that every
//! integer has exactly one representation.
use crate::decimal::{
    all_ascii_digits, decimal_literal_value, digits_value, fixed_digits,
    int_to_decimal, is_ascii_digit_char, is_decimal_literal, lemma_decimal_split,
    lemma_pow10_positive, nat_to_decimal, pow10, push_decimal, push_fixed_digits, unsigned_part,
};
use crate::limbs::{
    is_trimmed, lemma_trimmed_lower, lemma_mag_push, lemma_trimmed_unique, lemma_trimmed_zero,
    lemma_weight_basics, lemma_weight_monotone, limb_base, mag_value, weight,
};
use crate::magnitude::{
    add_mag, add_small, cmp_mag, copy_limbs, divmod_mag, divmod_small, mul_mag, mul_small, sub_mag,
    trim,
};
use crate::text::{chars_of, push_char};
use std::cmp::Ordering;
use vstd::arithmetic::div_mod::*;
use vstd::arithmetic::mul::*;
use vstd::prelude::*;
use vstd::std_specs::cmp::PartialEqSpecImpl;
use vstd::std_specs::cmp::PartialOrdSpecImpl;

verus! {

/// |v|.
pub open spec fn abs(v: int) -> int {
    if v < 0 {
        -v
    } else {
        v
    }
}

/// Quotient truncated toward zero, as for machine integers.
pub open spec fn trunc_div(a: int, b: int) -> int {
    let q = abs(a) / abs(b);
    if (a < 0) != (b < 0) {
        -q
    } else {
        q
    }
}

/// Remainder of truncating division: it takes the dividend's sign.
pub open spec fn trunc_rem(a: int, b: int) -> int {
    let r = abs(a) % abs(b);
    if a < 0 {
        -r
    } else {
        r
    }
}

/// The signed value of a sign and a magnitude.
pub open spec fn signed_value(negative: bool, m: nat) -> int {
    if negative {
        -m
    } else {
        m as int
    }
}

#[derive(Debug)]
pub struct BigInt {
    negative: bool,
    mag: Vec<u32>,
}

impl View for BigInt {
    type V = int;

    closed spec fn view(&self) -> int {
        signed_value(self.negative, mag_value(self.mag@))
    }
}

impl BigInt {
    /// Trimmed limbs, and zero is never negative.
    #[verifier::type_invariant]
    pub closed spec fn well_formed(self) -> bool {
        &&& is_trimmed(self.mag@)
        &&& (self.mag@.len() == 0 ==> !self.negative)
    }

    /// The number of limbs in use.
    pub closed spec fn limb_count(self) -> nat {
        self.mag@.len()
    }

    /// The limbs, least significant first.
    pub closed spec fn limbs_spec(self) -> Seq<u32> {
        self.mag@
    }

    /// The sign bit as stored.
    pub closed spec fn negative_spec(self) -> bool {
        self.negative
    }

    pub fn zero() -> (r: BigInt)
        ensures
            r@ == 0,
    {
        BigInt { negative: false, mag: Vec::new() }
    }

    pub fn is_zero(&self) -> (r: bool)
        ensures
            r == (self@ == 0),
    {
        proof {
            use_type_invariant(self);
            lemma_trimmed_zero(self.mag@);
        }
        self.mag.len() == 0
    }

    fn normalized(negative: bool, mag: Vec<u32>) -> (r: BigInt)
        ensures
            r@ == signed_value(negative, mag_value(mag@)),
            r.limb_count() <= mag@.len(),
    {
        let mag = trim(mag);
        proof {
            lemma_trimmed_zero(mag@);
        }
        let neg = mag.len() > 0 && negative;
        BigInt { negative: neg, mag }
    }

    pub fn from_i64(n: i64) -> (r: BigInt)
        ensures
            r@ == n,
            r.limb_count() <= 2,
    {
        let neg = n < 0;
        let m: u128 = if neg {
            (-(n as i128)) as u128
        } else {
            n as u128
        };
        let r = Self::from_u128(neg, m);
        proof {
            use_type_invariant(&r);
            if r.mag@.len() > 2 {
                lemma_trimmed_lower(r.mag@);
                lemma_weight_monotone(2, (r.mag@.len() - 1) as nat);
                lemma_weight_basics(0);
                lemma_weight_basics(1);
                assert(weight(2) == limb_base() * limb_base());
                assert(mag_value(r.mag@) >= 0x1_0000_0000_0000_0000);
            }
        }
        r
    }

    pub(crate) fn from_u128(negative: bool, m: u128) -> (r: BigInt)
        ensures
            r@ == signed_value(negative, m as nat),
    {
        let ghost m0 = m;
        let mut m = m;
        let mut mag: Vec<u32> = Vec::new();
        proof {
            lemma_weight_basics(0);
            assert(m * weight(0) == m) by (nonlinear_arith)
                requires
                    weight(0) == 1,
            ;
        }
        while m > 0
            invariant
                mag_value(mag@) + m * weight(mag@.len()) == m0,
            decreases m,
        {
            let lo = (m & 0xFFFF_FFFF) as u32;
            proof {
                assert(m == (m & 0xFFFF_FFFF) + (m >> 32) * 0x1_0000_0000 && (m & 0xFFFF_FFFF)
                    < 0x1_0000_0000 && m >> 32 < m) by (bit_vector)
                    requires
                        m > 0,
                ;
                lemma_mag_push(mag@, lo);
                lemma_weight_basics(mag@.len());
                let w = weight(mag@.len());
                let hi = (m >> 32) as nat;
                assert(m * w == lo as nat * w + hi * (w * limb_base())) by (nonlinear_arith)
                    requires
                        m == lo + hi * limb_base(),
                ;
            }
            mag.push(lo);
            m = m >> 32;
        }
        proof {
            assert(0 * weight(mag@.len()) == 0);
        }
        Self::normalized(negative, mag)
    }

    /// Convert back to `i64` when it fits.
    pub fn to_i64(&self) -> (r: Option<i64>)
        ensures
            r == (if i64::MIN <= self@ <= i64::MAX {
                Some(self@ as i64)
            } else {
                None::<i64>
            }),
    {
        proof {
            use_type_invariant(self);
            lemma_weight_basics(0);
            lemma_weight_basics(1);
            lemma_weight_basics(2);
        }
        if self.mag.len() > 2 {
            proof {
                crate::limbs::lemma_trimmed_lower(self.mag@);
                lemma_weight_monotone(2, (self.mag@.len() - 1) as nat);
                assert(weight(2) == 0x1_0000_0000_0000_0000);
            }
            return None;
        }
        let mut v: u128 = 0;
        if self.mag.len() >= 1 {
            v = self.mag[0] as u128;
        }
        if self.mag.len() == 2 {
            let hi = self.mag[1] as u128;
            proof {
                let s = self.mag@;
                let dl = s.drop_last();
                assert(dl.drop_last().len() == 0);
                assert(mag_value(dl.drop_last()) == 0);
                assert(dl.last() == s[0]);
                assert(mag_value(dl) == s[0] as nat * weight(0));
                assert(s[0] as nat * weight(0) == s[0] as nat);
                assert(mag_value(s) == mag_value(dl) + s[1] as nat * weight(1));
                assert(mag_value(s) == s[0] as nat + s[1] as nat * 0x1_0000_0000);
            }
            v = v + hi * 0x1_0000_0000;
        } else if self.mag.len() == 1 {
            proof {
                let s = self.mag@;
                assert(s.drop_last().len() == 0);
                assert(mag_value(s.drop_last()) == 0);
                assert(s[0] as nat * weight(0) == s[0] as nat);
            }
        }
        proof {
            if self.mag.len() == 0 {
                assert(mag_value(self.mag@) == 0);
            }
        }
        assert(v == mag_value(self.mag@));
        if self.negative {
            if v <= 0x8000_0000_0000_0000 {
                Some((-(v as i128)) as i64)
            } else {
                None
            }
        } else if v <= 0x7FFF_FFFF_FFFF_FFFF {
            Some(v as i64)
        } else {
            None
        }
    }

    /// Parse an optional `-` followed by ASCII decimal digits.
    pub fn parse_decimal(s: &str) -> (r: Option<BigInt>)
        ensures
            r is Some <==> is_decimal_literal(s@),
            r matches Some(b) ==> b@ == decimal_literal_value(s@),
    {
        let cs = chars_of(s);
        let negative = cs.len() > 0 && cs[0] == '-';
        let start: usize = if negative {
            1
        } else {
            0
        };
        let ghost digits = unsigned_part(s@);
        proof {
            assert(digits =~= cs@.skip(start as int));
        }
        if start == cs.len() {
            proof {
                assert(digits.len() == 0);
            }
            return None;
        }
        let mut i = start;
        while i < cs.len()
            invariant
                start <= i <= cs.len(),
                digits =~= cs@.skip(start as int),
                digits == unsigned_part(s@),
                forall|k: int| start <= k < i ==> is_ascii_digit_char(#[trigger] cs@[k]),
            decreases cs.len() - i,
        {
            let c = cs[i];
            if !('0' <= c && c <= '9') {
                proof {
                    assert(digits[i - start] == c);
                    assert(!is_ascii_digit_char(digits[i - start]));
                    assert(!all_ascii_digits(digits));
                }
                return None;
            }
            i = i + 1;
        }
        proof {
            assert forall|k: int| 0 <= k < digits.len() implies is_ascii_digit_char(
                #[trigger] digits[k],
            ) by {
                assert(digits[k] == cs@[start + k]);
            }
        }
        let mut mag: Vec<u32> = Vec::new();
        let mut i = start;
        proof {
            assert(cs@.subrange(start as int, start as int) =~= Seq::<char>::empty());
        }
        while i < cs.len()
            invariant
                start <= i <= cs.len(),
                forall|k: int| start <= k < cs@.len() ==> is_ascii_digit_char(#[trigger] cs@[k]),
                mag_value(mag@) == digits_value(cs@.subrange(start as int, i as int)),
            decreases cs.len() - i,
        {
            let d = cs[i] as u32 - 48;
            proof {
                assert(is_ascii_digit_char(cs@[i as int]));
                let sub1 = cs@.subrange(start as int, i + 1);
                assert(sub1.drop_last() =~= cs@.subrange(start as int, i as int));
                assert(sub1.last() == cs@[i as int]);
            }
            mul_small(&mut mag, 10);
            add_small(&mut mag, d);
            i = i + 1;
        }
        proof {
            assert(cs@.subrange(start as int, cs@.len() as int) =~= digits);
            if negative {
                assert(s@[0] == '-');
            }
        }
        Some(Self::normalized(negative, mag))
    }

    /// The shortest decimal spelling, with a leading `-` for negatives.
    pub fn to_decimal_string(&self) -> (r: String)
        ensures
            r@ == int_to_decimal(self@),
    {
        proof {
            use_type_invariant(self);
            lemma_trimmed_zero(self.mag@);
        }
        if self.mag.len() == 0 {
            let mut out = String::new();
            push_char(&mut out, '0');
            proof {
                assert(out@ =~= nat_to_decimal(0));
            }
            return out;
        }
        let mut limbs = copy_limbs(&self.mag);
        let mut chunks: Vec<u32> = Vec::new();
        let ghost total = mag_value(self.mag@);
        proof {
            lemma_pow10_positive(0);
            assert(pow10(0) == 1);
            assert(chunks@.len() == 0);
            assert(chunk_value(chunks@) == 0);
            assert(mag_value(limbs@) * pow10(9 * chunks@.len()) == mag_value(limbs@)) by (nonlinear_arith)
                requires
                    pow10(9 * chunks@.len()) == 1,
            ;
        }
        while limbs.len() > 0
            invariant
                is_trimmed(limbs@),
                total > 0,
                total == mag_value(limbs@) * pow10(9 * chunks@.len()) + chunk_value(chunks@),
                forall|k: int| 0 <= k < chunks@.len() ==> #[trigger] chunks@[k] < 1_000_000_000,
                limbs@.len() == 0 ==> chunks@.len() > 0 && chunks@.last() > 0,
            decreases mag_value(limbs@),
        {
            proof {
                lemma_trimmed_zero(limbs@);
            }
            let ghost before = mag_value(limbs@);
            let rem = divmod_small(&mut limbs, 1_000_000_000);
            proof {
                lemma_trimmed_zero(limbs@);
                let q = mag_value(limbs@);
                let pk = pow10(9 * chunks@.len());
                lemma_chunk_push(chunks@, rem);
                lemma_pow10_step9(chunks@.len());
                assert(before * pk == q * (1_000_000_000 * pk) + rem * pk) by (nonlinear_arith)
                    requires
                        before == q * 1_000_000_000 + rem,
                ;
                assert(pow10(9 * (chunks@.len() + 1)) == 1_000_000_000 * pk);
                if q == 0 {
                    assert(before == rem);
                }
                assert(q < before) by (nonlinear_arith)
                    requires
                        before == q * 1_000_000_000 + rem,
                        before > 0,
                ;
            }
            chunks.push(rem);
        }
        proof {
            assert(0 * pow10(9 * chunks@.len()) == 0);
            lemma_chunks_spelling(chunks@);
        }
        let mut out = String::new();
        if self.negative {
            push_char(&mut out, '-');
        }
        let ghost prefix = out@;
        let last = chunks.len() - 1;
        push_decimal(&mut out, chunks[last] as u64);
        proof {
            assert(chunks@.skip(last as int) =~= seq![chunks@[last as int]]);
        }
        let mut k = last;
        while k > 0
            invariant
                k <= last,
                last == chunks@.len() - 1,
                out@ == prefix + chunks_spelling(chunks@.skip(k as int)),
            decreases k,
        {
            let j = k - 1;
            let ghost before = out@;
            push_fixed_digits(&mut out, chunks[j], 9);
            proof {
                let t = chunks@.skip(j as int);
                assert(t.drop_first() =~= chunks@.skip(k as int));
                assert(t[0] == chunks@[j as int]);
                assert(out@ =~= prefix + chunks_spelling(t));
            }
            k = j;
        }
        proof {
            assert(chunks@.skip(0) =~= chunks@);
            if self.negative {
                assert(prefix =~= seq!['-']);
            } else {
                assert(prefix =~= Seq::<char>::empty());
                assert(out@ =~= chunks_spelling(chunks@));
            }
        }
        out
    }

    pub fn neg(&self) -> (r: BigInt)
        ensures
            r@ == -self@,
    {
        Self::normalized(!self.negative, copy_limbs(&self.mag))
    }

    pub fn add(&self, other: &BigInt) -> (r: BigInt)
        ensures
            r@ == self@ + other@,
    {
        proof {
            use_type_invariant(self);
            use_type_invariant(other);
        }
        if self.negative == other.negative {
            Self::normalized(self.negative, add_mag(&self.mag, &other.mag))
        } else {
            match cmp_mag(&self.mag, &other.mag) {
                Ordering::Equal => BigInt::zero(),
                Ordering::Greater => Self::normalized(self.negative, sub_mag(&self.mag, &other.mag)),
                Ordering::Less => Self::normalized(other.negative, sub_mag(&other.mag, &self.mag)),
            }
        }
    }

    pub fn sub(&self, other: &BigInt) -> (r: BigInt)
        ensures
            r@ == self@ - other@,
    {
        self.add(&other.neg())
    }

    pub fn mul(&self, other: &BigInt) -> (r: BigInt)
        requires
            self.limb_count() + other.limb_count() <= usize::MAX,
        ensures
            r@ == self@ * other@,
    {
        let m = mul_mag(&self.mag, &other.mag);
        proof {
            let a = mag_value(self.mag@);
            let b = mag_value(other.mag@);
            lemma_signed_mul(self.negative, other.negative, a, b);
        }
        Self::normalized(self.negative != other.negative, m)
    }

    /// Truncating division and remainder, matching `i64` semantics: the
    /// quotient truncates toward zero and the remainder takes the dividend's
    /// sign. Returns `None` on division by zero.
    pub fn div_rem(&self, other: &BigInt) -> (r: Option<(BigInt, BigInt)>)
        requires
            self.limb_count() * 32 <= usize::MAX,
        ensures
            r is None <==> other@ == 0,
            r matches Some((q, rem)) ==> q@ == trunc_div(self@, other@) && rem@ == trunc_rem(
                self@,
                other@,
            ),
    {
        proof {
            use_type_invariant(self);
            use_type_invariant(other);
            lemma_trimmed_zero(other.mag@);
        }
        if other.is_zero() {
            return None;
        }
        let (q_mag, r_mag) = divmod_mag(&self.mag, &other.mag);
        proof {
            let a = mag_value(self.mag@);
            let b = mag_value(other.mag@);
            lemma_fundamental_div_mod_converse(
                a as int,
                b as int,
                mag_value(q_mag@) as int,
                mag_value(r_mag@) as int,
            );
            lemma_signed_div(self.negative, other.negative, a, b);
        }
        let q = Self::normalized(self.negative != other.negative, q_mag);
        let r = Self::normalized(self.negative, r_mag);
        Some((q, r))
    }

    /// The limbs, least significant first (no most-significant zero limb).
    pub fn limbs(&self) -> (r: &[u32])
        ensures
            r@ == self.limbs_spec(),
            self@ == signed_value(self.negative_spec(), mag_value(r@)),
    {
        self.mag.as_slice()
    }

    /// Is the bit count of this integer's limbs within `usize`? (Every
    /// integer that fits in memory passes.)
    pub fn within_limb_limit(&self) -> (r: bool)
        ensures
            r == (self.limb_count() * 32 <= usize::MAX),
            r == value_within_limb_limit(self@),
    {
        proof {
            use_type_invariant(self);
            assert forall|b: BigInt| b.well_formed() && b@ == self@ implies #[trigger] b.limb_count() * 32
                == self.limb_count() * 32 by {
                lemma_value_determines_representation(*self, b);
            }
        }
        self.mag.len() <= usize::MAX / 32
    }

    /// Is the integer below zero?
    pub fn is_negative(&self) -> (r: bool)
        ensures
            r == (self@ < 0),
            r == self.negative_spec(),
    {
        proof {
            use_type_invariant(self);
            lemma_trimmed_zero(self.mag@);
        }
        self.negative
    }
}

/// 10^(9·(k+1)) = 10⁹ · 10^(9·k).
proof fn lemma_pow10_step9(k: nat)
    ensures
        pow10(9 * (k + 1)) == 1_000_000_000 * pow10(9 * k),
{
    let b = 9 * k;
    assert(9 * (k + 1) == b + 9);
    reveal_with_fuel(pow10, 10);
    assert(pow10(b + 9) == 10 * pow10((b + 8) as nat));
    assert(pow10((b + 8) as nat) == 10 * pow10((b + 7) as nat));
    assert(pow10((b + 7) as nat) == 10 * pow10((b + 6) as nat));
    assert(pow10((b + 6) as nat) == 10 * pow10((b + 5) as nat));
    assert(pow10((b + 5) as nat) == 10 * pow10((b + 4) as nat));
    assert(pow10((b + 4) as nat) == 10 * pow10((b + 3) as nat));
    assert(pow10((b + 3) as nat) == 10 * pow10((b + 2) as nat));
    assert(pow10((b + 2) as nat) == 10 * pow10((b + 1) as nat));
    assert(pow10((b + 1) as nat) == 10 * pow10(b));
}

/// Value of base-10⁹ chunks, least significant first.
pub open spec fn chunk_value(c: Seq<u32>) -> nat
    decreases c.len(),
{
    if c.len() == 0 {
        0
    } else {
        c[0] as nat + 1_000_000_000 * chunk_value(c.drop_first())
    }
}

/// The spelling of base-10⁹ chunks: the top chunk unpadded, the rest as 9 digits each.
pub open spec fn chunks_spelling(c: Seq<u32>) -> Seq<char>
    decreases c.len(),
{
    if c.len() <= 1 {
        if c.len() == 1 {
            nat_to_decimal(c[0] as nat)
        } else {
            Seq::empty()
        }
    } else {
        chunks_spelling(c.drop_first()) + fixed_digits(c[0] as nat, 9)
    }
}

proof fn lemma_chunk_push(c: Seq<u32>, x: u32)
    ensures
        chunk_value(c.push(x)) == chunk_value(c) + x as nat * pow10(9 * c.len()),
    decreases c.len(),
{
    if c.len() == 0 {
        assert(c.push(x).drop_first() =~= Seq::<u32>::empty());
        reveal_with_fuel(pow10, 1);
        assert(chunk_value(Seq::<u32>::empty()) == 0);
        assert(pow10(0) == 1);
        assert(9 * c.len() == 0);
        assert(pow10(9 * c.len()) == 1);
        assert(x as nat * pow10(9 * c.len()) == x as nat) by (nonlinear_arith)
            requires
                pow10(9 * c.len()) == 1,
        ;
        assert(chunk_value(c) == 0);
    } else {
        assert(c.push(x).drop_first() =~= c.drop_first().push(x));
        assert(c.push(x)[0] == c[0]);
        lemma_chunk_push(c.drop_first(), x);
        let k = (c.len() - 1) as nat;
        lemma_pow10_step9(k);
        assert(c.drop_first().len() == k);
        let r = chunk_value(c.drop_first());
        assert(1_000_000_000 * (r + x as nat * pow10(9 * k)) == 1_000_000_000 * r + x as nat * (
        1_000_000_000 * pow10(9 * k))) by (nonlinear_arith);
    }
}

/// The chunk spelling is the shortest decimal spelling when the top chunk is
/// non-zero and every chunk is below 10⁹.
proof fn lemma_chunks_spelling(c: Seq<u32>)
    requires
        c.len() > 0,
        c.last() > 0,
        forall|k: int| 0 <= k < c.len() ==> #[trigger] c[k] < 1_000_000_000,
    ensures
        chunks_spelling(c) == nat_to_decimal(chunk_value(c)),
        chunk_value(c) > 0,
    decreases c.len(),
{
    if c.len() == 1 {
        assert(c.drop_first() =~= Seq::<u32>::empty());
        assert(chunk_value(c.drop_first()) == 0);
    } else {
        let d = c.drop_first();
        assert(d.last() == c.last());
        assert forall|k: int| 0 <= k < d.len() implies #[trigger] d[k] < 1_000_000_000 by {
            assert(d[k] == c[k + 1]);
        }
        lemma_chunks_spelling(d);
        let q = chunk_value(d);
        reveal_with_fuel(pow10, 10);
        assert(pow10(9) == 1_000_000_000);
        assert(c[0] < 1_000_000_000);
        lemma_decimal_split(q, c[0] as nat, 9);
        assert(q * 1_000_000_000 + c[0] as nat == c[0] as nat + 1_000_000_000 * q);
    }
}

/// Zero-divisor-free sign rule for products.
proof fn lemma_signed_mul(na: bool, nb: bool, a: nat, b: nat)
    ensures
        signed_value(na != nb, a * b) == signed_value(na, a) * signed_value(nb, b),
{
    if na && nb {
        assert((-a) * (-b) == a * b) by (nonlinear_arith);
    } else if na {
        assert((-a) * b == -(a * b)) by (nonlinear_arith);
    } else if nb {
        assert(a * (-b) == -(a * b)) by (nonlinear_arith);
    }
}

/// Sign rules for truncating division on magnitudes.
proof fn lemma_signed_div(na: bool, nb: bool, a: nat, b: nat)
    requires
        b > 0,
    ensures
        signed_value(na != nb, a / b) == trunc_div(signed_value(na, a), signed_value(nb, b)),
        signed_value(na, a % b) == trunc_rem(signed_value(na, a), signed_value(nb, b)),
{
    let x = signed_value(na, a);
    let y = signed_value(nb, b);
    assert(abs(x) == a);
    assert(abs(y) == b);
    if a == 0 {
        lemma_small_mod(0, b);
        assert(0nat / b == 0) by {
            lemma_basic_div(0, b as int);
        }
    }
}

/// The ordering of two integers.
pub open spec fn int_order(a: int, b: int) -> Ordering {
    if a < b {
        Ordering::Less
    } else if a == b {
        Ordering::Equal
    } else {
        Ordering::Greater
    }
}

impl BigInt {
    /// Total order by value.
    pub fn cmp(&self, other: &BigInt) -> (r: Ordering)
        ensures
            r == int_order(self@, other@),
    {
        proof {
            use_type_invariant(self);
            use_type_invariant(other);
            lemma_trimmed_zero(self.mag@);
            lemma_trimmed_zero(other.mag@);
        }
        match (self.negative, other.negative) {
            (false, true) => Ordering::Greater,
            (true, false) => Ordering::Less,
            (false, false) => cmp_mag(&self.mag, &other.mag),
            (true, true) => cmp_mag(&other.mag, &self.mag),
        }
    }
}

impl PartialEq for BigInt {
    fn eq(&self, other: &Self) -> (r: bool) {
        proof {
            use_type_invariant(self);
            use_type_invariant(other);
            lemma_trimmed_zero(self.mag@);
            lemma_trimmed_zero(other.mag@);
        }
        self.negative == other.negative && matches!(cmp_mag(&self.mag, &other.mag), Ordering::Equal)
    }
}

impl PartialEqSpecImpl for BigInt {
    open spec fn obeys_eq_spec() -> bool {
        true
    }

    open spec fn eq_spec(&self, other: &BigInt) -> bool {
        self@ == other@
    }
}

impl Eq for BigInt {

}

impl PartialOrd for BigInt {
    fn partial_cmp(&self, other: &Self) -> (r: Option<Ordering>) {
        Some(BigInt::cmp(self, other))
    }
}

impl PartialOrdSpecImpl for BigInt {
    open spec fn obeys_partial_cmp_spec() -> bool {
        true
    }

    open spec fn partial_cmp_spec(&self, other: &BigInt) -> Option<Ordering> {
        Some(int_order(self@, other@))
    }
}

impl Clone for BigInt {
    fn clone(&self) -> (r: BigInt)
        ensures
            r@ == self@,
            r.limb_count() == self.limb_count(),
    {
        proof {
            use_type_invariant(self);
        }
        BigInt { negative: self.negative, mag: copy_limbs(&self.mag) }
    }
}

/// Does the integer of value `v` have few enough limbs that their bit count
/// fits in `usize`? (The limbs of a value are unique.)
pub open spec fn value_within_limb_limit(v: int) -> bool {
    forall|b: BigInt| b.well_formed() && b@ == v ==> #[trigger] b.limb_count() * 32 <= usize::MAX
}

/// Canonical representation: two well-formed integers with the same value
/// have the same sign bit and the same limbs.
pub proof fn lemma_value_determines_representation(a: BigInt, b: BigInt)
    requires
        a.well_formed(),
        b.well_formed(),
        a@ == b@,
    ensures
        a.limbs_spec() == b.limbs_spec(),
        a.negative_spec() == b.negative_spec(),
{
    lemma_trimmed_zero(a.mag@);
    lemma_trimmed_zero(b.mag@);
    assert(mag_value(a.mag@) == mag_value(b.mag@));
    lemma_trimmed_unique(a.mag@, b.mag@);
}

/// Truncating division is division: `q·b + r = a`, `|r| < |b|`, and a
/// non-zero remainder has the dividend's sign.
pub proof fn lemma_trunc_div_rem(a: int, b: int)
    requires
        b != 0,
    ensures
        trunc_div(a, b) * b + trunc_rem(a, b) == a,
        abs(trunc_rem(a, b)) < abs(b),
        trunc_rem(a, b) == 0 || ((trunc_rem(a, b) < 0) == (a < 0)),
{
    let x = abs(a);
    let y = abs(b);
    lemma_fundamental_div_mod(x, y);
    lemma_mod_bound(x, y);
    let q = x / y;
    let r = x % y;
    assert(x == y * q + r);
    if a < 0 && b < 0 {
        assert(q * b + (-r) == a) by (nonlinear_arith)
            requires
                x == y * q + r,
                x == -a,
                y == -b,
        ;
    } else if a < 0 {
        assert((-q) * b + (-r) == a) by (nonlinear_arith)
            requires
                x == y * q + r,
                x == -a,
                y == b,
        ;
    } else if b < 0 {
        assert((-q) * b + r == a) by (nonlinear_arith)
            requires
                x == y * q + r,
                x == a,
                y == -b,
        ;
    } else {
        assert(q * b + r == a) by (nonlinear_arith)
            requires
                x == y * q + r,
                x == a,
                y == b,
        ;
    }
}

} // verus!
