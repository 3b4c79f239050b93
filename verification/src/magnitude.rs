//! Magnitude arithmetic on little-endian base-2³² limbs. Every result is
//! trimmed (no most-significant zero limb) unless stated otherwise.
use crate::limbs::{
    is_trimmed, lemma_mag_bound, lemma_mag_drop_zero, lemma_mag_first, lemma_mag_push,
    lemma_mag_split, lemma_mag_take_step, lemma_mag_update, lemma_mag_zeros,
    lemma_trimmed_lower, lemma_trimmed_zero, lemma_weight_adds, lemma_weight_basics, lemma_weight_monotone,
    limb_base, mag_value, weight,
};
use std::cmp::Ordering;
use vstd::arithmetic::div_mod::*;
use vstd::arithmetic::mul::*;
use vstd::arithmetic::power2::*;
use vstd::bits::lemma_u32_shr_is_div;
use vstd::std_specs::bits::axiom_u32_leading_zeros;
use vstd::prelude::*;

verus! {

/// Limb `i` of `s`, reading missing high limbs as zero.
pub open spec fn limb_at(s: Seq<u32>, i: int) -> nat {
    if 0 <= i < s.len() {
        s[i] as nat
    } else {
        0
    }
}

/// The value of the lowest `i` limbs of `s` (all of `s` once `i` passes its length).
pub open spec fn low_value(s: Seq<u32>, i: nat) -> nat {
    if i <= s.len() {
        mag_value(s.take(i as int))
    } else {
        mag_value(s)
    }
}

proof fn lemma_low_value_step(s: Seq<u32>, i: nat)
    ensures
        low_value(s, i + 1) == low_value(s, i) + limb_at(s, i as int) * weight(i),
        low_value(s, 0) == 0,
{
    assert(s.take(0) =~= Seq::<u32>::empty());
    if i < s.len() {
        lemma_mag_take_step(s, i as int);
    } else {
        if i == s.len() {
            assert(s.take(i as int) =~= s);
        }
        assert(limb_at(s, i as int) == 0);
        assert(0 * weight(i) == 0);
    }
}

proof fn lemma_low_value_full(s: Seq<u32>, i: nat)
    requires
        s.len() <= i,
    ensures
        low_value(s, i) == mag_value(s),
{
    if i == s.len() {
        assert(s.take(i as int) =~= s);
    }
}

/// Splitting a 64-bit sum into its low limb and carry.
proof fn lemma_split_u64(s: u64)
    ensures
        s == (s & 0xFFFF_FFFF) + (s >> 32) * 0x1_0000_0000,
        (s & 0xFFFF_FFFF) < 0x1_0000_0000,
        s >> 32 < 0x1_0000_0000,
{
    assert(s == (s & 0xFFFF_FFFF) + (s >> 32) * 0x1_0000_0000) by (bit_vector);
    assert((s & 0xFFFF_FFFF) < 0x1_0000_0000) by (bit_vector);
    assert(s >> 32 < 0x1_0000_0000) by (bit_vector);
}

/// Folding one limb-sized step into a running value at weight `w`.
proof fn lemma_carry_fold(v: int, w: nat, lo: nat, hi: nat, s: nat)
    requires
        s == lo + hi * limb_base(),
    ensures
        v + lo * w + hi * (w * limb_base()) == v + s * w,
{
    assert(lo * w + hi * (w * limb_base()) == (lo + hi * limb_base()) * w) by (nonlinear_arith);
}

/// Remove most-significant zero limbs.
pub fn trim(m: Vec<u32>) -> (res: Vec<u32>)
    ensures
        is_trimmed(res@),
        mag_value(res@) == mag_value(m@),
        res@.len() <= m@.len(),
        res@ =~= m@.take(res@.len() as int),
{
    let mut m = m;
    let ghost orig = m@;
    while m.len() > 0 && m[m.len() - 1] == 0
        invariant
            m@.len() <= orig.len(),
            m@ =~= orig.take(m@.len() as int),
            mag_value(m@) == mag_value(orig),
        decreases m.len(),
    {
        proof {
            lemma_mag_drop_zero(m@);
        }
        m.pop();
    }
    m
}

/// Compare two trimmed magnitudes by value.
pub fn cmp_mag(a: &[u32], b: &[u32]) -> (res: Ordering)
    requires
        is_trimmed(a@),
        is_trimmed(b@),
    ensures
        res == Ordering::Less <==> mag_value(a@) < mag_value(b@),
        res == Ordering::Equal <==> mag_value(a@) == mag_value(b@),
        res == Ordering::Greater <==> mag_value(a@) > mag_value(b@),
{
    if a.len() != b.len() {
        if a.len() < b.len() {
            proof {
                lemma_shorter_is_smaller(a@, b@);
            }
            return Ordering::Less;
        } else {
            proof {
                lemma_shorter_is_smaller(b@, a@);
            }
            return Ordering::Greater;
        }
    }
    let mut i = a.len();
    while i > 0
        invariant
            a.len() == b.len(),
            i <= a.len(),
            tail_from(a@, i) =~= tail_from(b@, i),
        decreases i,
    {
        let k = i - 1;
        if a[k] != b[k] {
            proof {
                lemma_first_difference_decides(a@, b@, k);
            }
            if a[k] < b[k] {
                return Ordering::Less;
            } else {
                return Ordering::Greater;
            }
        }
        proof {
            lemma_equal_tail_extends(a@, b@, k);
        }
        i = k;
    }
    proof {
        lemma_equal_tail_whole(a@, b@);
    }
    Ordering::Equal
}

/// The limbs of `s` from position `i` upward.
pub open spec fn tail_from(s: Seq<u32>, i: usize) -> Seq<u32> {
    s.skip(i as int)
}

/// The limbs of `s` strictly above position `k`.
pub open spec fn tail_above(s: Seq<u32>, k: usize) -> Seq<u32> {
    s.skip(k as int + 1)
}

proof fn lemma_equal_tail_extends(a: Seq<u32>, b: Seq<u32>, k: usize)
    requires
        a.len() == b.len(),
        k < a.len(),
        tail_above(a, k) =~= tail_above(b, k),
        a[k as int] == b[k as int],
    ensures
        tail_from(a, k) =~= tail_from(b, k),
{
    assert(a.skip(k as int) =~= seq![a[k as int]] + a.skip(k + 1));
    assert(b.skip(k as int) =~= seq![b[k as int]] + b.skip(k + 1));
}

proof fn lemma_equal_tail_whole(a: Seq<u32>, b: Seq<u32>)
    requires
        tail_from(a, 0) =~= tail_from(b, 0),
    ensures
        mag_value(a) == mag_value(b),
{
    assert(a =~= a.skip(0));
    assert(b =~= b.skip(0));
}

/// Among trimmed magnitudes, the one with fewer limbs is the smaller.
proof fn lemma_shorter_is_smaller(a: Seq<u32>, b: Seq<u32>)
    requires
        is_trimmed(b),
        a.len() < b.len(),
    ensures
        mag_value(a) < mag_value(b),
{
    lemma_mag_bound(a);
    lemma_trimmed_lower(b);
    lemma_weight_monotone(a.len(), (b.len() - 1) as nat);
}

/// With equal lengths and equal limbs above position `k`, limb `k` decides.
proof fn lemma_first_difference_decides(a: Seq<u32>, b: Seq<u32>, k: usize)
    requires
        a.len() == b.len(),
        k < a.len(),
        tail_above(a, k) =~= tail_above(b, k),
        a[k as int] != b[k as int],
    ensures
        a[k as int] < b[k as int] ==> mag_value(a) < mag_value(b),
        a[k as int] > b[k as int] ==> mag_value(a) > mag_value(b),
{
    let ki = k as int;
    lemma_mag_split(a, k as nat);
    lemma_mag_split(b, k as nat);
    lemma_mag_first(a.skip(ki));
    lemma_mag_first(b.skip(ki));
    assert(a.skip(ki).drop_first() =~= a.skip(ki + 1));
    assert(b.skip(ki).drop_first() =~= b.skip(ki + 1));
    lemma_mag_bound(a.take(ki));
    lemma_mag_bound(b.take(ki));
    let w = weight(k as nat);
    let h = limb_base() * mag_value(a.skip(ki + 1));
    let la = mag_value(a.take(ki));
    let lb = mag_value(b.take(ki));
    let x = a[ki] as nat;
    let y = b[ki] as nat;
    assert(mag_value(a) == la + w * (x + h));
    assert(mag_value(b) == lb + w * (y + h));
    if x < y {
        assert(la + w * (x + h) < lb + w * (y + h)) by (nonlinear_arith)
            requires
                la < w,
                x + 1 <= y,
        ;
    } else {
        assert(lb + w * (y + h) < la + w * (x + h)) by (nonlinear_arith)
            requires
                lb < w,
                y + 1 <= x,
        ;
    }
}

/// Sum of two magnitudes.
pub fn add_mag(a: &[u32], b: &[u32]) -> (res: Vec<u32>)
    ensures
        is_trimmed(res@),
        mag_value(res@) == mag_value(a@) + mag_value(b@),
{
    let n = if a.len() >= b.len() {
        a.len()
    } else {
        b.len()
    };
    let mut out: Vec<u32> = Vec::new();
    let mut carry: u64 = 0;
    let mut i: usize = 0;
    proof {
        lemma_low_value_step(a@, 0);
        lemma_low_value_step(b@, 0);
        lemma_weight_basics(0);
    }
    while i < n
        invariant
            n >= a.len(),
            n >= b.len(),
            i <= n,
            out@.len() == i,
            carry <= 1,
            mag_value(out@) + carry * weight(i as nat) == low_value(a@, i as nat) + low_value(
                b@,
                i as nat,
            ),
        decreases n - i,
    {
        let x: u64 = if i < a.len() {
            a[i] as u64
        } else {
            0
        };
        let y: u64 = if i < b.len() {
            b[i] as u64
        } else {
            0
        };
        let s = x + y + carry;
        let lo = (s & 0xFFFF_FFFF) as u32;
        let hi = s >> 32;
        proof {
            lemma_split_u64(s);
            lemma_low_value_step(a@, i as nat);
            lemma_low_value_step(b@, i as nat);
            lemma_weight_basics(i as nat);
            lemma_mag_push(out@, lo);
            lemma_carry_fold(mag_value(out@) as int, weight(i as nat), lo as nat, hi as nat, s as nat);
            let w = weight(i as nat);
            assert(s * w == carry * w + x * w + y * w) by (nonlinear_arith)
                requires
                    s == x + y + carry,
            ;
        }
        out.push(lo);
        carry = hi;
        i = i + 1;
    }
    proof {
        lemma_low_value_full(a@, n as nat);
        lemma_low_value_full(b@, n as nat);
    }
    if carry > 0 {
        proof {
            lemma_mag_push(out@, carry as u32);
        }
        out.push(carry as u32);
    }
    trim(out)
}

/// Difference of two magnitudes, the first no smaller than the second.
pub fn sub_mag(a: &[u32], b: &[u32]) -> (res: Vec<u32>)
    requires
        mag_value(a@) >= mag_value(b@),
        is_trimmed(b@),
    ensures
        is_trimmed(res@),
        mag_value(res@) == mag_value(a@) - mag_value(b@),
{
    let mut out: Vec<u32> = Vec::new();
    let mut borrow: i64 = 0;
    let mut i: usize = 0;
    proof {
        lemma_low_value_step(a@, 0);
        lemma_low_value_step(b@, 0);
        lemma_weight_basics(0);
        if b.len() > a.len() {
            lemma_shorter_is_smaller(a@, b@);
        }
    }
    while i < a.len()
        invariant
            b.len() <= a.len(),
            i <= a.len(),
            out@.len() == i,
            0 <= borrow <= 1,
            mag_value(out@) - borrow * weight(i as nat) == low_value(a@, i as nat) - low_value(
                b@,
                i as nat,
            ),
        decreases a.len() - i,
    {
        let x = a[i] as i64;
        let y: i64 = if i < b.len() {
            b[i] as i64
        } else {
            0
        };
        let mut d = x - y - borrow;
        let ghost old_borrow = borrow;
        proof {
            assert(1i64 << 32 == 0x1_0000_0000) by (bit_vector);
        }
        if d < 0 {
            d += 1 << 32;
            borrow = 1;
        } else {
            borrow = 0;
        }
        proof {
            lemma_low_value_step(a@, i as nat);
            lemma_low_value_step(b@, i as nat);
            lemma_weight_basics(i as nat);
            lemma_mag_push(out@, d as u32);
            let w = weight(i as nat);
            assert(d == x - y - old_borrow + borrow * limb_base());
            assert(d * w + old_borrow * w == x * w - y * w + borrow * (w * limb_base()))
                by (nonlinear_arith)
                requires
                    d == x - y - old_borrow + borrow * limb_base(),
            ;
        }
        out.push(d as u32);
        i = i + 1;
    }
    proof {
        lemma_low_value_full(a@, a.len() as nat);
        lemma_low_value_full(b@, a.len() as nat);
        lemma_mag_bound(out@);
        lemma_weight_basics(a.len() as nat);
        let w = weight(a.len() as nat);
        if borrow == 1 {
            assert(borrow * w == w);
        }
        assert(borrow == 0);
        assert(borrow * w == 0);
    }
    trim(out)
}

/// Product of two magnitudes (schoolbook).
pub fn mul_mag(a: &[u32], b: &[u32]) -> (res: Vec<u32>)
    requires
        a.len() + b.len() <= usize::MAX,
    ensures
        is_trimmed(res@),
        mag_value(res@) == mag_value(a@) * mag_value(b@),
{
    if a.len() == 0 || b.len() == 0 {
        proof {
            if a.len() == 0 {
                assert(mag_value(a@) == 0);
            } else {
                assert(mag_value(b@) == 0);
            }
            assert(mag_value(a@) * mag_value(b@) == 0) by (nonlinear_arith)
                requires
                    mag_value(a@) == 0 || mag_value(b@) == 0,
            ;
        }
        return Vec::new();
    }
    let total = a.len() + b.len();
    let mut out: Vec<u32> = Vec::new();
    while out.len() < total
        invariant
            out.len() <= total,
            forall|k: int| 0 <= k < out.len() ==> out@[k] == 0,
        decreases total - out.len(),
    {
        out.push(0);
    }
    let ghost mb = mag_value(b@);
    proof {
        lemma_mag_zeros(out@);
        lemma_low_value_step(a@, 0);
        assert(0 * mb == 0);
    }
    let mut i: usize = 0;
    while i < a.len()
        invariant
            total == a.len() + b.len(),
            b.len() > 0,
            mb == mag_value(b@),
            i <= a.len(),
            out.len() == total,
            mag_value(out@) == low_value(a@, i as nat) * mb,
            forall|k: int| i + b.len() <= k < out.len() ==> out@[k] == 0,
        decreases a.len() - i,
    {
        let ai = a[i];
        let mut carry: u64 = 0;
        let mut j: usize = 0;
        let ghost wi = weight(i as nat);
        proof {
            lemma_low_value_step(b@, 0);
            lemma_weight_basics(i as nat);
            assert(ai as nat * 0 * wi == 0) by (nonlinear_arith);
        }
        while j < b.len()
            invariant
                total == a.len() + b.len(),
                i < a.len(),
                ai == a@[i as int],
                wi == weight(i as nat),
                mb == mag_value(b@),
                j <= b.len(),
                out.len() == total,
                carry < 0x1_0000_0000,
                mag_value(out@) + carry * weight((i + j) as nat) == low_value(a@, i as nat) * mb
                    + ai as nat * low_value(b@, j as nat) * wi,
                forall|k: int| i + b.len() <= k < out.len() ==> out@[k] == 0,
            decreases b.len() - j,
        {
            let bj = b[j];
            let idx = i + j;
            let old_limb = out[idx];
            proof {
                assert(ai as u64 * bj as u64 <= 0xFFFF_FFFE_0000_0001) by (nonlinear_arith)
                    requires
                        ai < 0x1_0000_0000,
                        bj < 0x1_0000_0000,
                ;
            }
            let cur = old_limb as u64 + ai as u64 * bj as u64 + carry;
            let lo = (cur & 0xFFFF_FFFF) as u32;
            let hi = cur >> 32;
            proof {
                lemma_split_u64(cur);
                let w = weight(idx as nat);
                let wj = weight(j as nat);
                lemma_weight_adds(i as nat, j as nat);
                lemma_weight_basics(idx as nat);
                lemma_low_value_step(b@, j as nat);
                lemma_mag_update(out@, idx as int, lo);
                lemma_carry_fold(0, w, lo as nat, hi as nat, cur as nat);
                let p = ai as nat * bj as nat;
                assert(p * w == ai as nat * (bj as nat * wj) * wi) by (nonlinear_arith)
                    requires
                        w == wi * wj,
                        p == ai as nat * bj as nat,
                ;
                assert(ai as nat * low_value(b@, (j + 1) as nat) * wi == ai as nat * low_value(
                    b@,
                    j as nat,
                ) * wi + ai as nat * (bj as nat * wj) * wi) by (nonlinear_arith)
                    requires
                        low_value(b@, (j + 1) as nat) == low_value(b@, j as nat) + bj as nat * wj,
                ;
                assert(cur * w == old_limb as nat * w + p * w + carry * w) by (nonlinear_arith)
                    requires
                        cur == old_limb as nat + p + carry,
                ;
            }
            out.set(idx, lo);
            carry = hi;
            j = j + 1;
        }
        let top = i + b.len();
        proof {
            lemma_low_value_full(b@, b.len() as nat);
            lemma_low_value_step(a@, i as nat);
            lemma_mag_update(out@, top as int, carry as u32);
            assert(low_value(a@, (i + 1) as nat) * mb == low_value(a@, i as nat) * mb + ai as nat
                * mb * wi) by (nonlinear_arith)
                requires
                    low_value(a@, (i + 1) as nat) == low_value(a@, i as nat) + ai as nat * wi,
            ;
        }
        out.set(top, carry as u32);
        i = i + 1;
    }
    proof {
        lemma_low_value_full(a@, a.len() as nat);
    }
    trim(out)
}

/// `m = m * x`, in place.
pub fn mul_small(m: &mut Vec<u32>, x: u32)
    ensures
        mag_value(final(m)@) == mag_value(old(m)@) * x,
        is_trimmed(old(m)@) && x > 0 ==> is_trimmed(final(m)@),
{
    let ghost orig = m@;
    let mut carry: u64 = 0;
    let mut k: usize = 0;
    proof {
        assert(m@.take(0) =~= Seq::<u32>::empty());
        assert(orig.take(0) =~= Seq::<u32>::empty());
        lemma_weight_basics(0);
        assert(mag_value(orig.take(0)) == 0);
        assert(0 * (x as nat) == 0);
    }
    while k < m.len()
        invariant
            m@.len() == orig.len(),
            k <= m@.len(),
            carry < 0x1_0000_0000,
            m@.skip(k as int) =~= orig.skip(k as int),
            mag_value(m@.take(k as int)) + carry * weight(k as nat) == mag_value(orig.take(k as int))
                * x,
            is_trimmed(orig) && x > 0 && k == m@.len() && k > 0 ==> (m@[k - 1] != 0 || carry != 0),
        decreases m.len() - k,
    {
        let limb = m[k];
        proof {
            assert(limb == orig[k as int]) by {
                assert(m@.skip(k as int)[0] == orig.skip(k as int)[0]);
            }
            assert(limb as u64 * x as u64 <= 0xFFFF_FFFE_0000_0001) by (nonlinear_arith)
                requires
                    limb < 0x1_0000_0000,
                    x < 0x1_0000_0000,
            ;
        }
        let cur = limb as u64 * x as u64 + carry;
        let lo = (cur & 0xFFFF_FFFF) as u32;
        let hi = cur >> 32;
        proof {
            lemma_split_u64(cur);
            let w = weight(k as nat);
            lemma_weight_basics(k as nat);
            let m2 = m@.update(k as int, lo);
            assert(m2.take(k as int) =~= m@.take(k as int));
            lemma_mag_take_step(m2, k as int);
            lemma_mag_take_step(orig, k as int);
            lemma_carry_fold(0, w, lo as nat, hi as nat, cur as nat);
            let mo = mag_value(orig.take(k as int));
            assert(mo * x + limb as nat * w * x == (mo + limb as nat * w) * x) by (nonlinear_arith);
            assert(cur * w == limb as nat * x * w + carry * w) by (nonlinear_arith)
                requires
                    cur == limb as nat * x + carry,
            ;
            assert(limb as nat * x * w == limb as nat * w * x) by (nonlinear_arith);
            assert(m2.skip(k + 1) =~= m@.skip(k as int).drop_first());
            assert(orig.skip(k + 1) =~= orig.skip(k as int).drop_first());
            if is_trimmed(orig) && x > 0 && k + 1 == m@.len() {
                assert(orig.last() == limb);
                assert(limb as nat * x >= 1) by (nonlinear_arith)
                    requires
                        limb >= 1,
                        x >= 1,
                ;
                assert(lo != 0 || hi != 0);
            }
        }
        m.set(k, lo);
        carry = hi;
        k = k + 1;
    }
    proof {
        assert(m@.take(k as int) =~= m@);
        assert(orig.take(k as int) =~= orig);
    }
    while carry > 0
        invariant
            mag_value(m@) + carry * weight(m@.len()) == mag_value(orig) * x,
            is_trimmed(orig) && x > 0 ==> (is_trimmed(m@) || carry != 0),
            carry < 0x1_0000_0000,
        decreases carry,
    {
        let lo = (carry & 0xFFFF_FFFF) as u32;
        proof {
            lemma_split_u64(carry);
            lemma_mag_push(m@, lo);
            lemma_weight_basics(m@.len());
            lemma_carry_fold(0, weight(m@.len()), lo as nat, (carry >> 32) as nat, carry as nat);
            assert(carry >> 32 == 0) by (bit_vector)
                requires
                    carry < 0x1_0000_0000,
            ;
            assert(lo == carry);
        }
        m.push(lo);
        carry = carry >> 32;
    }
    proof {
        assert(carry == 0);
        assert(0 * weight(m@.len()) == 0);
    }
}

/// `m = m + x`, in place.
pub fn add_small(m: &mut Vec<u32>, x: u32)
    ensures
        mag_value(final(m)@) == mag_value(old(m)@) + x,
        is_trimmed(old(m)@) ==> is_trimmed(final(m)@),
{
    let ghost orig = m@;
    let mut carry = x as u64;
    let mut i: usize = 0;
    proof {
        lemma_weight_basics(0);
    }
    while carry > 0
        invariant
            i <= m@.len(),
            m@.len() == orig.len() || (m@.len() == orig.len() + 1 && carry == 0),
            carry > 0 ==> i <= orig.len(),
            i <= orig.len() + 1,
            carry < 0x1_0000_0000,
            mag_value(m@) + carry * weight(i as nat) == mag_value(orig) + x,
            is_trimmed(orig) ==> (is_trimmed(m@) || (carry > 0 && i == m@.len())),
            is_trimmed(orig) && m@.len() > 0 && i < m@.len() ==> m@.last() == orig.last(),
        decreases orig.len() + 1 - i,
    {
        if i == m.len() {
            proof {
                lemma_mag_push(m@, 0);
                assert(0 * weight(m@.len()) == 0);
            }
            m.push(0);
        }
        let cur = m[i] as u64 + carry;
        let lo = (cur & 0xFFFF_FFFF) as u32;
        let hi = cur >> 32;
        proof {
            lemma_split_u64(cur);
            let w = weight(i as nat);
            lemma_weight_basics(i as nat);
            lemma_mag_update(m@, i as int, lo);
            lemma_carry_fold(0, w, lo as nat, hi as nat, cur as nat);
            assert(cur * w == m@[i as int] as nat * w + carry * w) by (nonlinear_arith)
                requires
                    cur == m@[i as int] as nat + carry,
            ;
            if i + 1 == m@.len() {
                assert(lo != 0 || hi != 0);
            }
        }
        let len = m.len();
        m.set(i, lo);
        carry = hi;
        i = i + 1;
        proof {
            assert(i <= len);
        }
    }
    proof {
        assert(0 * weight(i as nat) == 0);
    }
}

/// `m = m / divisor` in place (trimmed afterwards), returning the remainder.
pub fn divmod_small(m: &mut Vec<u32>, divisor: u32) -> (rem: u32)
    requires
        divisor > 0,
    ensures
        is_trimmed(final(m)@),
        mag_value(old(m)@) == mag_value(final(m)@) * divisor + rem,
        rem < divisor,
{
    let ghost orig = m@;
    let mut rem: u64 = 0;
    let mut k: usize = m.len();
    proof {
        assert(m@.skip(k as int) =~= Seq::<u32>::empty());
        assert(orig.skip(k as int) =~= Seq::<u32>::empty());
        assert(0 * (divisor as nat) == 0);
    }
    while k > 0
        invariant
            divisor > 0,
            m@.len() == orig.len(),
            k <= m@.len(),
            m@.take(k as int) =~= orig.take(k as int),
            mag_value(orig.skip(k as int)) == mag_value(m@.skip(k as int)) * divisor + rem,
            rem < divisor,
        decreases k,
    {
        let j = k - 1;
        let limb = m[j];
        proof {
            assert(limb == orig[j as int]) by {
                assert(m@.take(k as int)[j as int] == orig.take(k as int)[j as int]);
            }
        }
        let cur = (rem << 32) | limb as u64;
        proof {
            assert(rem < 0x1_0000_0000);
            assert((rem << 32) | limb as u64 == rem * 0x1_0000_0000 + limb) by (bit_vector)
                requires
                    rem < 0x1_0000_0000,
            ;
        }
        let q = cur / divisor as u64;
        let r = cur % divisor as u64;
        proof {
            let d = divisor as nat;
            lemma_fundamental_div_mod(cur as int, d as int);
            assert(cur < d * limb_base()) by (nonlinear_arith)
                requires
                    cur == rem * limb_base() + limb,
                    rem + 1 <= d,
                    limb < limb_base(),
            ;
            assert(q < limb_base()) by (nonlinear_arith)
                requires
                    cur < d * limb_base(),
                    cur == d * q + r,
                    0 <= r,
            ;
            let m2 = m@.update(j as int, q as u32);
            lemma_mag_first(orig.skip(j as int));
            lemma_mag_first(m2.skip(j as int));
            assert(orig.skip(j as int).drop_first() =~= orig.skip(k as int));
            assert(m2.skip(j as int).drop_first() =~= m@.skip(k as int));
            let big_m = mag_value(m@.skip(k as int));
            assert(limb as nat + limb_base() * (big_m * d + rem) == (q + limb_base() * big_m) * d
                + r) by (nonlinear_arith)
                requires
                    cur == rem * limb_base() + limb,
                    cur == d * q + r,
            ;
            assert(m2.take(j as int) =~= orig.take(j as int));
        }
        m.set(j, q as u32);
        rem = r;
        k = j;
    }
    proof {
        assert(m@.skip(0) =~= m@);
        assert(orig.skip(0) =~= orig);
    }
    while m.len() > 0 && m[m.len() - 1] == 0
        invariant
            mag_value(orig) == mag_value(m@) * divisor + rem,
        decreases m.len(),
    {
        proof {
            lemma_mag_drop_zero(m@);
        }
        m.pop();
    }
    rem as u32
}

/// Bit `i` of the natural number `v`.
pub open spec fn bit_of(v: nat, i: nat) -> bool {
    (v / pow2(i)) % 2 == 1
}

/// Bit `i` of a magnitude is bit `i % 32` of limb `i / 32`.
pub proof fn lemma_bit_of_limbs(s: Seq<u32>, i: nat)
    requires
        i < 32 * s.len(),
    ensures
        (mag_value(s) / pow2(i)) % 2 == ((s[(i / 32) as int] >> ((i % 32) as u32)) & 1u32) as nat,
        (mag_value(s) / pow2(i)) % 2 == 0 || (mag_value(s) / pow2(i)) % 2 == 1,
{
    let k = i / 32;
    let r = i % 32;
    assert(i == 32 * k + r);
    assert(k < s.len()) by (nonlinear_arith)
        requires
            i < 32 * s.len(),
            k == i / 32,
    ;
    let ki = k as int;
    let limb = s[ki];
    // value = low + w * (limb + B * high)
    lemma_mag_split(s, k);
    lemma_mag_first(s.skip(ki));
    let low = mag_value(s.take(ki));
    let high = mag_value(s.skip(ki).drop_first());
    let w = weight(k);
    lemma_mag_bound(s.take(ki));
    lemma_weight_basics(k);
    let x = limb as nat + limb_base() * high;
    assert(mag_value(s) == x * w + low) by (nonlinear_arith)
        requires
            mag_value(s) == low + w * x,
    ;
    lemma_fundamental_div_mod_converse(mag_value(s) as int, w as int, x as int, low as int);
    // pow2(i) = w * pow2(r)
    lemma_pow2_adds(32 * k, r);
    lemma_pow2_pos(r);
    lemma_div_denominator(mag_value(s) as int, w as int, pow2(r) as int);
    // x / pow2(r) = limb / pow2(r) + high * pow2(32 - r)
    let pr = pow2(r);
    let lq = limb as nat / pr;
    let lr = limb as nat % pr;
    lemma_fundamental_div_mod(limb as int, pr as int);
    lemma_pow2_adds(r, (32 - r) as nat);
    lemma2_to64();
    let pc = pow2((32 - r) as nat);
    assert(limb_base() == pr * pc);
    assert(x == (lq + high * pc) * pr + lr) by (nonlinear_arith)
        requires
            limb as nat == pr * lq + lr,
            x == limb as nat + limb_base() * high,
            limb_base() == pr * pc,
    ;
    lemma_mod_bound(limb as int, pr as int);
    lemma_fundamental_div_mod_converse(x as int, pr as int, (lq + high * pc) as int, lr as int);
    // parity: pc is even
    lemma_pow2_adds(1, (31 - r) as nat);
    assert(pow2(1) == 2);
    let pc2 = pow2((31 - r) as nat);
    assert(lq + high * pc == (high * pc2) * 2 + lq) by (nonlinear_arith)
        requires
            pc == 2 * pc2,
    ;
    lemma_mod_multiples_vanish((high * pc2) as int, lq as int, 2);
    // the limb's own bit
    lemma_u32_shr_is_div(limb, r as u32);
    let sh = limb >> (r as u32);
    assert(sh & 1u32 == sh % 2) by (bit_vector);
}

/// Number of significant bits of a trimmed magnitude.
pub fn bit_length(m: &[u32]) -> (n: usize)
    requires
        is_trimmed(m@),
        m.len() * 32 <= usize::MAX,
    ensures
        n <= 32 * m.len(),
        mag_value(m@) < pow2(n as nat),
        n > 0 ==> mag_value(m@) >= pow2((n - 1) as nat),
        n == 0 <==> m.len() == 0,
{
    if m.len() == 0 {
        proof {
            lemma2_to64();
        }
        return 0;
    }
    let top = m[m.len() - 1];
    let lz = top.leading_zeros();
    proof {
        axiom_u32_leading_zeros(top);
    }
    let n = (m.len() - 1) * 32 + (32 - lz as usize);
    proof {
        let b = (32 - lz) as nat;
        let t = (m.len() - 1) as nat;
        assert(1 <= b <= 32);
        // top < 2^b and top >= 2^(b-1)
        lemma2_to64();
        if b < 32 {
            lemma_u32_shr_is_div(top, b as u32);
            lemma_pow2_pos(b);
            lemma_fundamental_div_mod(top as int, pow2(b) as int);
            lemma_mod_bound(top as int, pow2(b) as int);
        }
        assert(top < pow2(b));
        lemma_u32_shr_is_div(top, (b - 1) as u32);
        let sh = top >> ((b - 1) as u32);
        assert(sh & 1u32 != 0u32 ==> sh >= 1) by (bit_vector);
        lemma_pow2_pos((b - 1) as nat);
        lemma_fundamental_div_mod(top as int, pow2((b - 1) as nat) as int);
        lemma_mod_bound(top as int, pow2((b - 1) as nat) as int);
        assert(top as nat >= pow2((b - 1) as nat)) by (nonlinear_arith)
            requires
                top as nat == pow2((b - 1) as nat) * sh + top as nat % pow2((b - 1) as nat),
                top as nat % pow2((b - 1) as nat) >= 0,
                sh >= 1,
                pow2((b - 1) as nat) > 0,
        ;
        // value bounds
        let w = weight(t);
        assert(m@.drop_last().len() == t);
        lemma_mag_bound(m@.drop_last());
        let low = mag_value(m@.drop_last());
        assert(mag_value(m@) == low + top as nat * w);
        lemma_pow2_adds(32 * t, b);
        lemma_pow2_adds(32 * t, (b - 1) as nat);
        assert(n as nat == 32 * t + b);
        lemma_mul_is_commutative(w as int, pow2(b) as int);
        lemma_mul_is_commutative(w as int, pow2((b - 1) as nat) as int);
        assert(pow2(b) * w == pow2(n as nat));
        assert(pow2((b - 1) as nat) * w == pow2((n - 1) as nat));
        assert(low + top as nat * w < pow2(b) * w) by (nonlinear_arith)
            requires
                low < w,
                top as nat + 1 <= pow2(b),
        ;
        assert(low + top as nat * w >= pow2((b - 1) as nat) * w) by (nonlinear_arith)
            requires
                top as nat >= pow2((b - 1) as nat),
        ;
        assert(n <= 32 * m.len());
    }
    n
}

/// Is bit `i` of the magnitude set?
pub fn get_bit(m: &[u32], i: usize) -> (res: bool)
    requires
        i < 32 * m.len(),
    ensures
        res == bit_of(mag_value(m@), i as nat),
{
    proof {
        lemma_bit_of_limbs(m@, i as nat);
    }
    (m[i / 32] >> ((i % 32) as u32)) & 1 == 1
}

/// Set bit `i` of the magnitude, which must be clear.
pub fn set_bit(m: &mut Vec<u32>, i: usize)
    requires
        i < 32 * old(m).len(),
        !bit_of(mag_value(old(m)@), i as nat),
    ensures
        final(m)@.len() == old(m)@.len(),
        mag_value(final(m)@) == mag_value(old(m)@) + pow2(i as nat),
{
    let k = i / 32;
    let r = (i % 32) as u32;
    proof {
        lemma_bit_of_limbs(m@, i as nat);
        let limb = m@[k as int];
        assert((limb >> r) & 1u32 == 0u32 ==> (limb | (1u32 << r)) == limb + (1u32 << r)) by (bit_vector)
            requires
                r < 32,
        ;
        vstd::bits::lemma_u32_pow2_no_overflow(r as nat);
        assert(1 * pow2(r as nat) == pow2(r as nat));
        vstd::bits::lemma_u32_shl_is_mul(1, r);
        lemma_mag_update(m@, k as int, limb | (1u32 << r));
        lemma_pow2_adds(32 * (k as nat), r as nat);
        assert(i as nat == 32 * (k as nat) + r as nat);
        assert((limb as nat + pow2(r as nat)) * weight(k as nat) == limb as nat * weight(k as nat)
            + pow2(r as nat) * weight(k as nat)) by (nonlinear_arith);
        lemma_mul_is_commutative(pow2(r as nat) as int, weight(k as nat) as int);
        assert(pow2(r as nat) * weight(k as nat) == pow2(i as nat));
        assert((limb | (1u32 << r)) as nat == limb as nat + pow2(r as nat));
    }
    let v = m[k] | (1u32 << r);
    m.set(k, v);
}

/// Double a magnitude in place.
pub fn shl1(m: &mut Vec<u32>)
    ensures
        mag_value(final(m)@) == 2 * mag_value(old(m)@),
        is_trimmed(old(m)@) ==> is_trimmed(final(m)@),
        final(m)@.len() <= old(m)@.len() + 1,
{
    let ghost orig = m@;
    let mut carry: u32 = 0;
    let mut k: usize = 0;
    proof {
        assert(m@.take(0) =~= Seq::<u32>::empty());
        assert(orig.take(0) =~= Seq::<u32>::empty());
        lemma_weight_basics(0);
        assert(mag_value(orig.take(0)) == 0);
    }
    while k < m.len()
        invariant
            m@.len() == orig.len(),
            k <= m@.len(),
            carry <= 1,
            m@.skip(k as int) =~= orig.skip(k as int),
            mag_value(m@.take(k as int)) + carry * weight(k as nat) == 2 * mag_value(
                orig.take(k as int),
            ),
            is_trimmed(orig) && k == m@.len() && k > 0 ==> (m@[k - 1] != 0 || carry != 0),
        decreases m.len() - k,
    {
        let limb = m[k];
        let new_carry = limb >> 31;
        let lo = (limb << 1) | carry;
        proof {
            assert(limb == orig[k as int]) by {
                assert(m@.skip(k as int)[0] == orig.skip(k as int)[0]);
            }
            assert(lo as nat + new_carry as nat * 0x1_0000_0000 == 2 * limb as nat + carry as nat
                && new_carry <= 1 && (limb != 0 ==> (lo != 0 || new_carry != 0))) by (bit_vector)
                requires
                    carry <= 1,
                    lo == (limb << 1) | carry,
                    new_carry == limb >> 31,
            ;
            let w = weight(k as nat);
            lemma_weight_basics(k as nat);
            let m2 = m@.update(k as int, lo);
            assert(m2.take(k as int) =~= m@.take(k as int));
            lemma_mag_take_step(m2, k as int);
            lemma_mag_take_step(orig, k as int);
            lemma_carry_fold(0, w, lo as nat, new_carry as nat, 2 * limb as nat + carry as nat);
            assert((2 * limb as nat + carry) * w == 2 * (limb as nat * w) + carry * w)
                by (nonlinear_arith);
            assert(m2.skip(k + 1) =~= m@.skip(k as int).drop_first());
            assert(orig.skip(k + 1) =~= orig.skip(k as int).drop_first());
        }
        m.set(k, lo);
        carry = new_carry;
        k = k + 1;
    }
    proof {
        assert(m@.take(k as int) =~= m@);
        assert(orig.take(k as int) =~= orig);
    }
    if carry > 0 {
        proof {
            lemma_mag_push(m@, carry);
        }
        m.push(carry);
    } else {
        proof {
            assert(0 * weight(k as nat) == 0);
        }
    }
}

/// A fresh magnitude of `n` zero limbs.
pub fn zero_limbs(n: usize) -> (res: Vec<u32>)
    ensures
        res@.len() == n,
        forall|k: int| 0 <= k < n ==> res@[k] == 0,
        mag_value(res@) == 0,
{
    let mut out: Vec<u32> = Vec::new();
    while out.len() < n
        invariant
            out.len() <= n,
            forall|k: int| 0 <= k < out.len() ==> out@[k] == 0,
        decreases n - out.len(),
    {
        out.push(0);
    }
    proof {
        lemma_mag_zeros(out@);
    }
    out
}

/// A copy of the limbs.
pub fn copy_limbs(a: &[u32]) -> (res: Vec<u32>)
    ensures
        res@ == a@,
{
    let mut out: Vec<u32> = Vec::new();
    let mut i: usize = 0;
    while i < a.len()
        invariant
            i <= a.len(),
            out@ =~= a@.take(i as int),
        decreases a.len() - i,
    {
        out.push(a[i]);
        i = i + 1;
    }
    proof {
        assert(a@.take(i as int) =~= a@);
    }
    out
}

/// The value of `v` with its lowest `i` bits shifted out.
pub open spec fn high_bits(v: nat, i: usize) -> nat {
    v / pow2(i as nat)
}

/// The lowest `i` bits of `v` are all clear.
pub open spec fn low_bits_clear(v: nat, i: usize) -> bool {
    v % pow2(i as nat) == 0
}

/// The state of binary long division after bits `i..` of the dividend.
pub open spec fn long_division_state(va: nat, vb: nat, vq: nat, vr: nat, i: usize) -> bool {
    &&& high_bits(va, i) == high_bits(vq, i) * vb + vr
    &&& vr < vb
    &&& low_bits_clear(vq, i)
}

proof fn lemma_long_division_start(va: nat, vb: nat, n: usize)
    requires
        va < pow2(n as nat),
        vb > 0,
    ensures
        long_division_state(va, vb, 0, 0, n),
{
    lemma_pow2_pos(n as nat);
    assert(va / pow2(n as nat) == 0) by {
        lemma_basic_div(va as int, pow2(n as nat) as int);
    }
    lemma_small_mod(0, pow2(n as nat));
    assert(0nat / pow2(n as nat) == 0) by {
        lemma_basic_div(0, pow2(n as nat) as int);
    }
}

proof fn lemma_long_division_end(va: nat, vb: nat, vq: nat, vr: nat)
    requires
        long_division_state(va, vb, vq, vr, 0),
    ensures
        va == vq * vb + vr,
        vr < vb,
{
    lemma2_to64();
}

/// One step of binary long division: bring down bit `j` of the dividend, and
/// subtract the divisor once if the partial remainder reaches it.
proof fn lemma_long_division_step(va: nat, vb: nat, vq: nat, vr: nat, j: usize, r1: nat)
    requires
        j < usize::MAX,
        long_division_state(va, vb, vq, vr, (j + 1) as usize),
        r1 == 2 * vr + (if bit_of(va, j as nat) {
            1nat
        } else {
            0nat
        }),
    ensures
        !bit_of(vq, j as nat),
        r1 < 2 * vb,
        r1 < vb ==> long_division_state(va, vb, vq, r1, j),
        r1 >= vb ==> long_division_state(va, vb, vq + pow2(j as nat), (r1 - vb) as nat, j),
{
    let pj = pow2(j as nat);
    lemma_pow2_pos(j as nat);
    lemma_pow2_adds(j as nat, 1);
    lemma2_to64();
    assert(pow2((j + 1) as nat) == pj * 2);
    // the dividend's high part grows by one bit
    lemma_div_denominator(va as int, pj as int, 2);
    let ha = va / pj;
    lemma_fundamental_div_mod(ha as int, 2);
    lemma_mod_bound(ha as int, 2);
    assert(ha == 2 * (ha / 2) + ha % 2);
    assert(bit_of(va, j as nat) <==> ha % 2 == 1);
    // the quotient so far is a multiple of 2^(j+1)
    lemma_fundamental_div_mod(vq as int, (pj * 2) as int);
    let big_q = vq / (pj * 2);
    assert(vq == (pj * 2) * big_q);
    assert(vq == (2 * big_q) * pj + 0) by (nonlinear_arith)
        requires
            vq == (pj * 2) * big_q,
    ;
    lemma_fundamental_div_mod_converse(vq as int, pj as int, (2 * big_q) as int, 0);
    assert(high_bits(vq, j) == 2 * big_q);
    assert(low_bits_clear(vq, j));
    lemma_mod_multiples_vanish(big_q as int, 0, 2);
    assert((2 * big_q) % 2 == 0) by {
        assert(2 * big_q == big_q * 2 + 0);
        lemma_fundamental_div_mod_converse((2 * big_q) as int, 2, big_q as int, 0);
    }
    assert(!bit_of(vq, j as nat));
    assert(high_bits(vq, (j + 1) as usize) == big_q);
    let hb = ha;
    assert(hb == 2 * (big_q * vb + vr) + ha % 2);
    assert(hb == (2 * big_q) * vb + r1) by (nonlinear_arith)
        requires
            hb == 2 * (big_q * vb + vr) + ha % 2,
            r1 == 2 * vr + ha % 2,
    ;
    if r1 >= vb {
        let vq2 = vq + pj;
        assert(vq2 == (2 * big_q + 1) * pj + 0) by (nonlinear_arith)
            requires
                vq == (2 * big_q) * pj,
                vq2 == vq + pj,
        ;
        lemma_fundamental_div_mod_converse(vq2 as int, pj as int, (2 * big_q + 1) as int, 0);
        assert(hb == (2 * big_q + 1) * vb + (r1 - vb)) by (nonlinear_arith)
            requires
                hb == (2 * big_q) * vb + r1,
                r1 >= vb,
        ;
    }
}

/// Setting the low bit of an even magnitude adds one.
proof fn lemma_or_low_bit(r: Seq<u32>)
    requires
        r.len() > 0,
        mag_value(r) % 2 == 0,
    ensures
        mag_value(r.update(0, r[0] | 1u32)) == mag_value(r) + 1,
        is_trimmed(r) ==> is_trimmed(r.update(0, r[0] | 1u32)),
{
    lemma_mag_first(r);
    let rest = mag_value(r.drop_first());
    assert(mag_value(r) == r[0] as nat + (2 * (rest * 0x8000_0000)));
    lemma_mod_multiples_vanish((rest * 0x8000_0000) as int, r[0] as int, 2);
    assert(r[0] as nat % 2 == 0) by {
        assert(r[0] as nat + 2 * (rest * 0x8000_0000) == (rest * 0x8000_0000) * 2 + r[0] as nat);
    }
    let x = r[0];
    assert(x % 2 == 0 ==> (x | 1u32) == x + 1) by (bit_vector);
    assert((x | 1u32) == x + 1);
    lemma_mag_update(r, 0, r[0] | 1u32);
    lemma_weight_basics(0);
    let w0 = weight(0);
    assert(w0 == 1);
    assert(x as nat * w0 == x as nat) by (nonlinear_arith)
        requires
            w0 == 1,
    ;
    assert((x | 1u32) as nat * w0 == x as nat + 1) by (nonlinear_arith)
        requires
            w0 == 1,
            (x | 1u32) as nat == x as nat + 1,
    ;
}

/// A magnitude below a trimmed one has no more limbs once trimmed.
proof fn lemma_smaller_not_longer(r: Seq<u32>, b: Seq<u32>)
    requires
        is_trimmed(r),
        mag_value(r) < mag_value(b),
    ensures
        r.len() <= b.len(),
{
    if r.len() > b.len() {
        lemma_shorter_is_smaller(b, r);
    }
}

/// A doubled magnitude is even.
proof fn lemma_double_even(v: nat)
    ensures
        (2 * v) % 2 == 0,
{
    lemma_fundamental_div_mod_converse((2 * v) as int, 2, v as int, 0);
}

/// Schoolbook binary long division of trimmed magnitudes: (quotient, remainder).
pub fn divmod_mag(a: &[u32], b: &[u32]) -> (res: (Vec<u32>, Vec<u32>))
    requires
        is_trimmed(a@),
        is_trimmed(b@),
        b.len() > 0,
        a.len() * 32 <= usize::MAX,
    ensures
        is_trimmed(res.0@),
        is_trimmed(res.1@),
        mag_value(a@) == mag_value(res.0@) * mag_value(b@) + mag_value(res.1@),
        mag_value(res.1@) < mag_value(b@),
{
    proof {
        lemma_trimmed_zero(b@);
    }
    if let Ordering::Less = cmp_mag(a, b) {
        let r = copy_limbs(a);
        proof {
            lemma_zero_times(mag_value(b@));
        }
        return (Vec::new(), r);
    }
    let nbits = bit_length(a);
    let mut q = zero_limbs(a.len());
    let mut r: Vec<u32> = Vec::new();
    let mut i = nbits;
    proof {
        lemma_long_division_start(mag_value(a@), mag_value(b@), nbits);
    }
    while i > 0
        invariant
            is_trimmed(a@),
            is_trimmed(b@),
            b.len() > 0,
            nbits <= 32 * a.len(),
            i <= nbits,
            q@.len() == a.len(),
            is_trimmed(r@),
            r@.len() <= b.len(),
            long_division_state(mag_value(a@), mag_value(b@), mag_value(q@), mag_value(r@), i),
        decreases i,
    {
        let j = i - 1;
        let ghost vr = mag_value(r@);
        shl1(&mut r);
        let bit = get_bit(a, j);
        if bit {
            if r.len() == 0 {
                proof {
                    lemma_push_one(r@);
                }
                r.push(1);
            } else {
                proof {
                    lemma_double_even(vr);
                    lemma_or_low_bit(r@);
                }
                let v = r[0] | 1;
                r.set(0, v);
            }
        }
        proof {
            lemma_long_division_step(mag_value(a@), mag_value(b@), mag_value(q@), vr, j, mag_value(r@));
        }
        match cmp_mag(&r, b) {
            Ordering::Less => {},
            _ => {
                r = sub_mag(&r, b);
                set_bit(&mut q, j);
            },
        }
        proof {
            lemma_smaller_not_longer(r@, b@);
        }
        i = j;
    }
    proof {
        lemma_long_division_end(mag_value(a@), mag_value(b@), mag_value(q@), mag_value(r@));
    }
    let q = trim(q);
    let r = trim(r);
    (q, r)
}

proof fn lemma_zero_times(v: nat)
    ensures
        0 * v == 0,
{
}

proof fn lemma_push_one(r: Seq<u32>)
    requires
        r.len() == 0,
    ensures
        mag_value(r.push(1)) == mag_value(r) + 1,
        is_trimmed(r.push(1)),
{
    lemma_mag_push(r, 1);
    lemma_weight_basics(0);
}

} // verus!
