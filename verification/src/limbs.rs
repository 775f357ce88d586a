//! The mathematical model of a limb vector: the natural number that a
//! little-endian sequence of 64-bit limbs stands for, and the facts about it
//! that the arithmetic routines rest on.

use vstd::arithmetic::power2::*;
use vstd::prelude::*;

verus! {

/// The weight of limb `n`: `2^(64 n)`.
pub open spec fn radix(n: nat) -> nat {
    pow2(64 * n)
}

/// The number that `s` stands for, limb 0 being the least significant.
pub open spec fn limbs_value(s: Seq<u64>) -> nat
    decreases s.len(),
{
    if s.len() == 0 {
        0
    } else {
        limbs_value(s.drop_last()) + s.last() as nat * radix((s.len() - 1) as nat)
    }
}

/// A sequence of `n` zero limbs.
pub open spec fn zeros(n: nat) -> Seq<u64> {
    Seq::new(n, |i: int| 0u64)
}

/// `s` has no zero limb at its top, except that the single limb `[0]` is allowed.
pub open spec fn is_normalized(s: Seq<u64>) -> bool {
    s.len() <= 1 || s.last() != 0
}

/// Limb 0 has weight 1.
pub proof fn lemma_radix_zero()
    ensures
        radix(0) == 1,
{
    lemma2_to64();
}

/// Limb 1 has weight `2^64`.
pub proof fn lemma_radix_one()
    ensures
        radix(1) == 0x1_0000_0000_0000_0000,
{
    lemma2_to64();
}

/// Every weight is positive.
pub proof fn lemma_radix_pos(n: nat)
    ensures
        radix(n) > 0,
{
    lemma_pow2_pos(64 * n);
}

/// Weights multiply as limb positions add.
pub proof fn lemma_radix_adds(a: nat, b: nat)
    ensures
        radix(a + b) == radix(a) * radix(b),
{
    assert(64 * (a + b) == 64 * a + 64 * b);
    lemma_pow2_adds(64 * a, 64 * b);
}

/// The next limb weighs `2^64` times as much.
pub proof fn lemma_radix_succ(n: nat)
    ensures
        radix(n + 1) == radix(n) * 0x1_0000_0000_0000_0000,
{
    lemma_radix_adds(n, 1);
    lemma_radix_one();
}

/// A higher limb weighs at least as much.
pub proof fn lemma_radix_monotonic(a: nat, b: nat)
    requires
        a <= b,
    ensures
        radix(a) <= radix(b),
{
    if a < b {
        lemma_pow2_strictly_increases(64 * a, 64 * b);
    }
}

/// A single limb stands for itself.
pub proof fn lemma_value_single(x: u64)
    ensures
        limbs_value(seq![x]) == x,
{
    let s = seq![x];
    assert(s.drop_last() =~= Seq::<u64>::empty());
    lemma_radix_zero();
    assert(limbs_value(s) == limbs_value(s.drop_last()) + s.last() as nat * radix(0));
}

/// Appending a limb at the top adds that limb times its weight.
pub proof fn lemma_value_push(s: Seq<u64>, x: u64)
    ensures
        limbs_value(s.push(x)) == limbs_value(s) + x as nat * radix(s.len()),
{
    let t = s.push(x);
    assert(t.drop_last() =~= s);
}

/// A limb vector of length `n` stands for a number below `2^(64 n)`.
pub proof fn lemma_value_bound(s: Seq<u64>)
    ensures
        limbs_value(s) < radix(s.len()),
    decreases s.len(),
{
    if s.len() == 0 {
        lemma_radix_zero();
    } else {
        let k = (s.len() - 1) as nat;
        lemma_value_bound(s.drop_last());
        lemma_radix_succ(k);
        let top = s.last() as nat;
        let w = radix(k);
        assert(top * w + w <= 0x1_0000_0000_0000_0000 * w) by (nonlinear_arith)
            requires
                top < 0x1_0000_0000_0000_0000,
        ;
        assert(radix(k) * 0x1_0000_0000_0000_0000 == 0x1_0000_0000_0000_0000 * w)
            by (nonlinear_arith)
            requires
                w == radix(k),
        ;
    }
}

/// The value of a concatenation: the upper part is shifted by the length of the lower.
pub proof fn lemma_value_concat(a: Seq<u64>, b: Seq<u64>)
    ensures
        limbs_value(a + b) == limbs_value(a) + radix(a.len()) * limbs_value(b),
    decreases b.len(),
{
    if b.len() == 0 {
        assert(a + b =~= a);
        assert(radix(a.len()) * 0 == 0);
    } else {
        let c = a + b;
        assert(c.drop_last() =~= a + b.drop_last());
        assert(c.last() == b.last());
        lemma_value_concat(a, b.drop_last());
        let kb = (b.len() - 1) as nat;
        lemma_radix_adds(a.len(), kb);
        assert(c.len() - 1 == a.len() + kb);
        let ra = radix(a.len());
        let rb = radix(kb);
        let top = b.last() as nat;
        let vb = limbs_value(b.drop_last());
        assert(ra * (vb + top * rb) == ra * vb + top * (ra * rb)) by (nonlinear_arith);
    }
}

/// Splitting at limb `k`: the low `k` limbs plus the rest shifted up by `k` limbs.
pub proof fn lemma_value_split(s: Seq<u64>, k: int)
    requires
        0 <= k <= s.len(),
    ensures
        limbs_value(s) == limbs_value(s.take(k)) + radix(k as nat) * limbs_value(s.skip(k)),
{
    assert(s.take(k) + s.skip(k) =~= s);
    lemma_value_concat(s.take(k), s.skip(k));
}

/// Zero limbs stand for zero.
pub proof fn lemma_value_zeros(n: nat)
    ensures
        limbs_value(zeros(n)) == 0,
    decreases n,
{
    if n > 0 {
        assert(zeros(n).drop_last() =~= zeros((n - 1) as nat));
        lemma_value_zeros((n - 1) as nat);
        assert(0 * radix((n - 1) as nat) == 0);
    }
}

/// Zero limbs appended at the top leave the value as it was.
pub proof fn lemma_value_pad(s: Seq<u64>, n: nat)
    ensures
        limbs_value(s + zeros(n)) == limbs_value(s),
{
    lemma_value_concat(s, zeros(n));
    lemma_value_zeros(n);
    assert(radix(s.len()) * 0 == 0);
}

/// Replacing limb `k` changes the value by the difference times the weight of limb `k`.
pub proof fn lemma_value_update(s: Seq<u64>, k: int, x: u64)
    requires
        0 <= k < s.len(),
    ensures
        limbs_value(s.update(k, x)) + s[k] as nat * radix(k as nat) == limbs_value(s) + x as nat
            * radix(k as nat),
{
    let t = s.update(k, x);
    lemma_value_split(s, k);
    lemma_value_split(t, k);
    assert(t.take(k) =~= s.take(k));
    let su = s.skip(k);
    let tu = t.skip(k);
    lemma_value_split(su, 1);
    lemma_value_split(tu, 1);
    assert(tu.skip(1) =~= su.skip(1));
    assert(su.take(1) =~= seq![s[k]]);
    assert(tu.take(1) =~= seq![x]);
    lemma_value_single(s[k]);
    lemma_value_single(x);
    let w = radix(k as nat);
    let rest = radix(1) * limbs_value(su.skip(1));
    assert(w * (x as nat + rest) + s[k] as nat * w == w * (s[k] as nat + rest) + x as nat * w)
        by (nonlinear_arith);
}

/// The value read as three parts: below limb `a`, the window `[a, b)`, and above.
pub proof fn lemma_value_window(s: Seq<u64>, a: int, b: int)
    requires
        0 <= a <= b <= s.len(),
    ensures
        limbs_value(s) == limbs_value(s.take(a)) + radix(a as nat) * limbs_value(s.subrange(a, b))
            + radix(b as nat) * limbs_value(s.skip(b)),
{
    lemma_value_split(s, b);
    lemma_value_split(s.take(b), a);
    assert(s.take(b).take(a) =~= s.take(a));
    assert(s.take(b).skip(a) =~= s.subrange(a, b));
}

/// The value read as its lowest limb plus `2^64` times the rest.
pub proof fn lemma_value_low_limb(s: Seq<u64>)
    requires
        s.len() >= 1,
    ensures
        limbs_value(s) == s[0] as nat + 0x1_0000_0000_0000_0000 * limbs_value(s.skip(1)),
{
    lemma_value_split(s, 1);
    assert(s.take(1) =~= seq![s[0]]);
    lemma_value_single(s[0]);
    lemma_radix_one();
}

/// A vector of zero limbs stands for zero.
pub proof fn lemma_value_all_zero(s: Seq<u64>)
    requires
        forall|i: int| 0 <= i < s.len() ==> s[i] == 0,
    ensures
        limbs_value(s) == 0,
{
    assert(s =~= zeros(s.len()));
    lemma_value_zeros(s.len());
}

/// Limb `j` of `s`, reading zero above its top.
pub open spec fn limb_at(s: Seq<u64>, j: int) -> u64 {
    if 0 <= j < s.len() {
        s[j]
    } else {
        0
    }
}

/// `s` with zero limbs appended up to length `n`; `s` itself where it
/// already has `n` limbs or more.
pub open spec fn padded(s: Seq<u64>, n: nat) -> Seq<u64> {
    if s.len() < n {
        s + zeros((n - s.len()) as nat)
    } else {
        s
    }
}

/// Dropping zero limbs from the top leaves the value as it was.
pub proof fn lemma_value_take_zeros(s: Seq<u64>, k: int)
    requires
        0 <= k <= s.len(),
        forall|j: int| k <= j < s.len() ==> s[j] == 0,
    ensures
        limbs_value(s.take(k)) == limbs_value(s),
{
    lemma_value_split(s, k);
    lemma_value_all_zero(s.skip(k));
    assert(radix(k as nat) * 0 == 0);
}

/// Comparing from the top: where two vectors agree above limb `i` and differ
/// at limb `i`, the larger limb decides.
pub proof fn lemma_value_top_difference(a: Seq<u64>, b: Seq<u64>, i: int)
    requires
        0 <= i,
        forall|j: int| i < j ==> limb_at(a, j) == limb_at(b, j),
        limb_at(a, i) > limb_at(b, i),
    ensures
        limbs_value(a) > limbs_value(b),
{
    let n0 = if a.len() >= b.len() {
        a.len()
    } else {
        b.len()
    };
    let n = if n0 > i {
        n0
    } else {
        (i + 1) as nat
    };
    let pa = padded(a, n);
    let pb = padded(b, n);
    lemma_value_pad(a, (n - a.len()) as nat);
    lemma_value_pad(b, (n - b.len()) as nat);
    assert forall|j: int| 0 <= j < n implies pa[j] == limb_at(a, j) && pb[j] == limb_at(b, j) by {}
    lemma_value_split(pa, i + 1);
    lemma_value_split(pb, i + 1);
    assert(pa.skip(i + 1) =~= pb.skip(i + 1));
    let la = pa.take(i + 1);
    let lb = pb.take(i + 1);
    assert(la.drop_last() =~= pa.take(i));
    assert(lb.drop_last() =~= pb.take(i));
    lemma_value_bound(pa.take(i));
    lemma_value_bound(pb.take(i));
    let w = radix(i as nat);
    let ta = pa[i] as nat;
    let tb = pb[i] as nat;
    assert(ta * w >= tb * w + w) by (nonlinear_arith)
        requires
            ta >= tb + 1,
    ;
}

/// Two vectors that agree limb for limb, zeros above the top included, stand
/// for the same number.
pub proof fn lemma_value_same_limbs(a: Seq<u64>, b: Seq<u64>)
    requires
        forall|j: int| 0 <= j ==> limb_at(a, j) == limb_at(b, j),
    ensures
        limbs_value(a) == limbs_value(b),
{
    let n = if a.len() >= b.len() {
        a.len()
    } else {
        b.len()
    };
    let pa = padded(a, n);
    let pb = padded(b, n);
    lemma_value_pad(a, (n - a.len()) as nat);
    lemma_value_pad(b, (n - b.len()) as nat);
    assert forall|j: int| 0 <= j < n implies pa[j] == pb[j] by {
        assert(pa[j] == limb_at(a, j));
        assert(pb[j] == limb_at(b, j));
    }
    assert(pa =~= pb);
}

/// Two limb vectors of one length that stand for the same number are the same vector.
pub proof fn lemma_value_unique(a: Seq<u64>, b: Seq<u64>)
    requires
        a.len() == b.len(),
        limbs_value(a) == limbs_value(b),
    ensures
        a == b,
    decreases a.len(),
{
    if a.len() == 0 {
        assert(a =~= b);
    } else {
        let k = (a.len() - 1) as nat;
        let w = radix(k);
        lemma_value_bound(a.drop_last());
        lemma_value_bound(b.drop_last());
        let la = limbs_value(a.drop_last());
        let lb = limbs_value(b.drop_last());
        let ta = a.last() as nat;
        let tb = b.last() as nat;
        assert(ta == tb) by (nonlinear_arith)
            requires
                la + ta * w == lb + tb * w,
                la < w,
                lb < w,
        ;
        lemma_value_unique(a.drop_last(), b.drop_last());
        assert(a =~= a.drop_last().push(a.last()));
        assert(b =~= b.drop_last().push(b.last()));
    }
}

/// A normalized vector whose value is below `2^(64 n)` has at most `n` limbs
/// (one limb where `n` is zero).
pub proof fn lemma_normalized_len(s: Seq<u64>, n: nat)
    requires
        is_normalized(s),
        limbs_value(s) < radix(n),
        n >= 1,
    ensures
        s.len() <= n,
{
    if s.len() > n {
        let k = (s.len() - 1) as nat;
        let top = s.last() as nat;
        lemma_radix_monotonic(n, k);
        assert(top * radix(k) >= radix(k)) by (nonlinear_arith)
            requires
                top >= 1,
        ;
    }
}

/// The canonical vector of a number is unique: two normalized vectors of at
/// least one limb that stand for the same number are the same vector.
pub proof fn lemma_normalized_unique(a: Seq<u64>, b: Seq<u64>)
    requires
        a.len() >= 1,
        b.len() >= 1,
        is_normalized(a),
        is_normalized(b),
        limbs_value(a) == limbs_value(b),
    ensures
        a == b,
{
    lemma_value_bound(a);
    lemma_value_bound(b);
    lemma_normalized_len(a, b.len());
    lemma_normalized_len(b, a.len());
    lemma_value_unique(a, b);
}

} // verus!
