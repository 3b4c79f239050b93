//! The mathematical reading of a magnitude: a little-endian sequence of
//! base-2³² limbs, and the facts about it that the arithmetic relies on.
use vstd::arithmetic::div_mod::*;
use vstd::arithmetic::mul::*;
use vstd::arithmetic::power2::*;
use vstd::prelude::*;

verus! {

/// One limb's worth of range: 2³².
pub open spec fn limb_base() -> nat {
    0x1_0000_0000
}

/// The weight of limb position `k`: 2^(32·k).
pub open spec fn weight(k: nat) -> nat {
    pow2(32 * k)
}

/// The natural number denoted by little-endian limbs `s`.
pub open spec fn mag_value(s: Seq<u32>) -> nat
    decreases s.len(),
{
    if s.len() == 0 {
        0
    } else {
        mag_value(s.drop_last()) + s.last() as nat * weight((s.len() - 1) as nat)
    }
}

/// No most-significant zero limb: the canonical spelling of a magnitude.
pub open spec fn is_trimmed(s: Seq<u32>) -> bool {
    s.len() == 0 || s.last() != 0
}

pub proof fn lemma_weight_basics(k: nat)
    ensures
        weight(0) == 1,
        weight(1) == limb_base(),
        weight(k) > 0,
        weight(k + 1) == weight(k) * limb_base(),
{
    lemma2_to64();
    lemma_pow2_pos(32 * k);
    lemma_pow2_adds(32 * k, 32);
    assert(32 * (k + 1) == 32 * k + 32);
}

pub proof fn lemma_weight_adds(a: nat, b: nat)
    ensures
        weight(a) * weight(b) == weight(a + b),
{
    lemma_pow2_adds(32 * a, 32 * b);
    assert(32 * (a + b) == 32 * a + 32 * b) by (nonlinear_arith);
}

pub proof fn lemma_weight_monotone(a: nat, b: nat)
    requires
        a <= b,
    ensures
        weight(a) <= weight(b),
{
    let d = (b - a) as nat;
    lemma_weight_adds(a, d);
    lemma_weight_basics(d);
    lemma_weight_basics(a);
    assert(a + d == b);
    let wa = weight(a);
    let wd = weight(d);
    assert(wa <= wa * wd) by (nonlinear_arith)
        requires
            wd >= 1,
    ;
}

/// Every magnitude of `n` limbs is below 2^(32·n).
pub proof fn lemma_mag_bound(s: Seq<u32>)
    ensures
        mag_value(s) < weight(s.len()),
    decreases s.len(),
{
    lemma_weight_basics(s.len());
    if s.len() > 0 {
        let n = (s.len() - 1) as nat;
        lemma_mag_bound(s.drop_last());
        lemma_weight_basics(n);
        let w = weight(n);
        let l = s.last() as nat;
        assert(mag_value(s) == mag_value(s.drop_last()) + l * w);
        assert(l <= limb_base() - 1);
        assert(l * w <= (limb_base() - 1) * w) by (nonlinear_arith)
            requires
                l <= limb_base() - 1,
                w > 0,
        ;
        assert((limb_base() - 1) * w + w == w * limb_base()) by (nonlinear_arith);
    }
}

/// A trimmed, non-empty magnitude has its top limb in force.
pub proof fn lemma_trimmed_lower(s: Seq<u32>)
    requires
        is_trimmed(s),
        s.len() > 0,
    ensures
        mag_value(s) >= weight((s.len() - 1) as nat),
{
    let n = (s.len() - 1) as nat;
    let w = weight(n);
    let l = s.last() as nat;
    assert(l >= 1);
    assert(l * w >= w) by (nonlinear_arith)
        requires
            l >= 1,
    ;
}

/// Only the empty magnitude among trimmed ones denotes zero.
pub proof fn lemma_trimmed_zero(s: Seq<u32>)
    requires
        is_trimmed(s),
    ensures
        mag_value(s) == 0 <==> s.len() == 0,
{
    if s.len() > 0 {
        lemma_trimmed_lower(s);
        lemma_weight_basics((s.len() - 1) as nat);
    }
}

/// The value of a prefix grows by one limb at a time.
pub proof fn lemma_mag_take_step(s: Seq<u32>, i: int)
    requires
        0 <= i < s.len(),
    ensures
        mag_value(s.take(i + 1)) == mag_value(s.take(i)) + s[i] as nat * weight(i as nat),
{
    assert(s.take(i + 1).drop_last() =~= s.take(i));
}

/// Appending a limb adds it at the next weight.
pub proof fn lemma_mag_push(s: Seq<u32>, v: u32)
    ensures
        mag_value(s.push(v)) == mag_value(s) + v as nat * weight(s.len()),
{
    assert(s.push(v).drop_last() =~= s);
}

/// Trailing zero limbs do not change the value.
pub proof fn lemma_mag_drop_zero(s: Seq<u32>)
    requires
        s.len() > 0,
        s.last() == 0,
    ensures
        mag_value(s.drop_last()) == mag_value(s),
{
}

/// The value splits at any limb position: low part plus shifted high part.
pub proof fn lemma_mag_split(s: Seq<u32>, k: nat)
    requires
        k <= s.len(),
    ensures
        mag_value(s) == mag_value(s.take(k as int)) + weight(k) * mag_value(s.skip(k as int)),
    decreases s.len(),
{
    if k == s.len() {
        assert(s.take(k as int) =~= s);
        assert(s.skip(k as int) =~= Seq::<u32>::empty());
        assert(mag_value(s.skip(k as int)) == 0);
        assert(weight(k) * 0 == 0);
    } else {
        let n = (s.len() - 1) as nat;
        let dl = s.drop_last();
        lemma_mag_split(dl, k);
        assert(dl.take(k as int) =~= s.take(k as int));
        let hi = s.skip(k as int);
        assert(hi.drop_last() =~= dl.skip(k as int));
        assert(hi.last() == s.last());
        let l = s.last() as nat;
        assert(mag_value(hi) == mag_value(dl.skip(k as int)) + l * weight((n - k) as nat));
        lemma_weight_adds(k, (n - k) as nat);
        let wk = weight(k);
        let wr = weight((n - k) as nat);
        let m = mag_value(dl.skip(k as int));
        assert(wk * (m + l * wr) == wk * m + l * (wk * wr)) by (nonlinear_arith);
        assert(k + (n - k) as nat == n);
        assert(weight(n) == wk * wr);
        assert(mag_value(s) == mag_value(dl) + l * weight(n));
        assert(mag_value(dl) == mag_value(s.take(k as int)) + wk * m);
        assert(mag_value(s) == mag_value(s.take(k as int)) + wk * mag_value(hi));
    }
}

/// The value read from the low end: first limb plus the rest shifted by one.
pub proof fn lemma_mag_first(s: Seq<u32>)
    requires
        s.len() > 0,
    ensures
        mag_value(s) == s[0] as nat + limb_base() * mag_value(s.drop_first()),
{
    lemma_mag_split(s, 1);
    assert(s.take(1).drop_last() =~= Seq::<u32>::empty());
    lemma_weight_basics(0);
    assert(s.take(1).last() == s[0]);
    assert(mag_value(s.take(1).drop_last()) == 0);
    assert(s[0] as nat * weight(0) == s[0] as nat);
    assert(mag_value(s.take(1)) == s[0] as nat);
    assert(s.skip(1) =~= s.drop_first());
}

/// Writing limb `k` shifts the value by the difference at weight `k`.
pub proof fn lemma_mag_update(s: Seq<u32>, k: int, v: u32)
    requires
        0 <= k < s.len(),
    ensures
        mag_value(s.update(k, v)) + s[k] as nat * weight(k as nat) == mag_value(s) + v as nat
            * weight(k as nat),
{
    let t = s.update(k, v);
    lemma_mag_split(s, k as nat);
    lemma_mag_split(t, k as nat);
    assert(t.take(k) =~= s.take(k));
    let sh = s.skip(k);
    let th = t.skip(k);
    lemma_mag_first(sh);
    lemma_mag_first(th);
    assert(th.drop_first() =~= sh.drop_first());
    let w = weight(k as nat);
    let r = mag_value(sh.drop_first());
    assert(w * (v as nat + limb_base() * r) + s[k] as nat * w == w * (s[k] as nat + limb_base()
        * r) + v as nat * w) by (nonlinear_arith);
}

/// A run of zero limbs denotes zero.
pub proof fn lemma_mag_zeros(s: Seq<u32>)
    requires
        forall|i: int| 0 <= i < s.len() ==> s[i] == 0,
    ensures
        mag_value(s) == 0,
    decreases s.len(),
{
    if s.len() > 0 {
        lemma_mag_zeros(s.drop_last());
    }
}

/// Two trimmed magnitudes of the same value are the same limbs.
pub proof fn lemma_trimmed_unique(a: Seq<u32>, b: Seq<u32>)
    requires
        is_trimmed(a),
        is_trimmed(b),
        mag_value(a) == mag_value(b),
    ensures
        a =~= b,
    decreases a.len(),
{
    if a.len() == 0 || b.len() == 0 {
        lemma_trimmed_zero(a);
        lemma_trimmed_zero(b);
    } else {
        lemma_trimmed_len_determined(a, b);
        // Equal lengths; compare the low limb and recurse on the rest.
        lemma_mag_first(a);
        lemma_mag_first(b);
        let ra = mag_value(a.drop_first());
        let rb = mag_value(b.drop_first());
        let x = a[0] as nat;
        let y = b[0] as nat;
        assert(x + limb_base() * ra == y + limb_base() * rb);
        let t = x + limb_base() * ra;
        assert(t == ra * limb_base() + x) by (nonlinear_arith)
            requires t == x + limb_base() * ra;
        assert(t == rb * limb_base() + y) by (nonlinear_arith)
            requires t == y + limb_base() * rb;
        lemma_fundamental_div_mod_converse(t as int, limb_base() as int, ra as int, x as int);
        lemma_fundamental_div_mod_converse(t as int, limb_base() as int, rb as int, y as int);
        assert(a.drop_first().len() == 0 || a.drop_first().last() == a.last());
        assert(b.drop_first().len() == 0 || b.drop_first().last() == b.last());
        lemma_trimmed_unique(a.drop_first(), b.drop_first());
        assert(a =~= seq![a[0]] + a.drop_first());
        assert(b =~= seq![b[0]] + b.drop_first());
    }
}

/// The length of a trimmed magnitude is fixed by its value.
pub proof fn lemma_trimmed_len_determined(a: Seq<u32>, b: Seq<u32>)
    requires
        is_trimmed(a),
        is_trimmed(b),
        mag_value(a) == mag_value(b),
    ensures
        a.len() == b.len(),
{
    if a.len() < b.len() {
        lemma_mag_bound(a);
        lemma_trimmed_lower(b);
        lemma_weight_monotone(a.len(), (b.len() - 1) as nat);
    } else if b.len() < a.len() {
        lemma_mag_bound(b);
        lemma_trimmed_lower(a);
        lemma_weight_monotone(b.len(), (a.len() - 1) as nat);
    }
}

} // verus!
