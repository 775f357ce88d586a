//! The chunk-parallel form of the multiply-accumulate primitive, and the
//! choice between it and the sequential form.
//!
//! The products of all limbs are formed first, chunk by chunk on worker
//! threads; the carries are then resolved in one sequential pass.

use crate::big_digit::{BigDigit, DoubleBigDigit, BITS};
use crate::limbs::{
    lemma_radix_pos, lemma_radix_succ, lemma_radix_zero, lemma_value_bound, lemma_value_push,
    lemma_value_unique, limbs_value, radix,
};
use crate::vector::{add_mul_post, add_mul_vvw_seq, lemma_mac_step};
use rayon::iter::{IndexedParallelIterator, ParallelIterator};
use rayon::slice::ParallelSlice;
use vstd::prelude::*;
use vstd::slice::slice_subrange;

verus! {

/// Limbs per chunk when the parallel strategy is chosen without naming a size.
pub const CHUNK_LIMBS: usize = 64;

/// How the multiply-accumulate primitive goes about its work. Both
/// strategies give the same limbs and the same carry.
#[derive(Clone, Copy, Debug, PartialEq, Eq)]
pub enum Strategy {
    /// One limb after another, on the calling thread.
    Sequential,
    /// Products by chunks on worker threads, then a sequential carry pass.
    Parallel,
}

/// The double-width value that limb `x` contributes before any carry comes in.
pub open spec fn wide_product(x: u64, y: u64, z: u64) -> nat {
    (x * y + z) as nat
}

/// The number of chunks of `size` limbs that cover `n` limbs.
pub open spec fn chunk_count(n: nat, size: nat) -> nat {
    ((n + size - 1) / (size as int)) as nat
}

/// The number of limbs in chunk `k`: `size`, or what is left for the last chunk.
pub open spec fn chunk_len(n: nat, size: nat, k: nat) -> nat {
    if (k + 1) * size <= n {
        size
    } else {
        (n - k * size) as nat
    }
}

/// Chunk `k` lies within the first `n` limbs exactly when `k` is below the chunk count.
pub proof fn lemma_chunk_bounds(n: nat, size: nat, k: nat)
    requires
        size >= 1,
    ensures
        k < chunk_count(n, size) <==> k * size < n,
{
    let c = chunk_count(n, size);
    let t = (n + size - 1) as int;
    vstd::arithmetic::div_mod::lemma_fundamental_div_mod(t, size as int);
    vstd::arithmetic::div_mod::lemma_mod_bound(t, size as int);
    let r = t % (size as int);
    vstd::arithmetic::div_mod::lemma_div_pos_is_pos(t, size as int);
    assert(t == size * c + r);
    if k < c {
        assert(k * size <= (c - 1) * size) by (nonlinear_arith)
            requires
                k <= c - 1,
                size >= 1,
        ;
        assert((c - 1) * size == size * c - size) by (nonlinear_arith);
    } else {
        assert(k * size >= c * size) by (nonlinear_arith)
            requires
                k >= c,
                size >= 1,
        ;
        assert(c * size == size * c) by (nonlinear_arith);
    }
}

/// `x * y + z` in double width; it cannot overflow.
pub fn mul_add_wide(x: BigDigit, y: BigDigit, z: BigDigit) -> (r: DoubleBigDigit)
    ensures
        r == wide_product(x, y, z),
        r <= 0xffff_ffff_ffff_ffff_0000_0000_0000_0000,
{
    assert(x * y <= 0xffff_ffff_ffff_ffff * 0xffff_ffff_ffff_ffff) by (nonlinear_arith)
        requires
            x <= 0xffff_ffff_ffff_ffff,
            y <= 0xffff_ffff_ffff_ffff,
    ;
    x as DoubleBigDigit * y as DoubleBigDigit + z as DoubleBigDigit
}

/// The double-width products of one chunk: entry `j` is `x[j] * y + z[j]`,
/// over as many limbs as both slices have.
pub fn chunk_products(z: &[BigDigit], x: &[BigDigit], y: BigDigit) -> (r: Vec<DoubleBigDigit>)
    ensures
        r@.len() == vstd::math::min(z@.len() as int, x@.len() as int),
        forall|j: int| 0 <= j < r@.len() ==> r@[j] == wide_product(x@[j], y, z@[j]),
{
    let n: usize = if z.len() <= x.len() { z.len() } else { x.len() };
    let mut out: Vec<DoubleBigDigit> = Vec::with_capacity(n);
    let mut j: usize = 0;
    while j < n
        invariant
            j <= n,
            n <= z@.len(),
            n <= x@.len(),
            out@.len() == j,
            forall|i: int| 0 <= i < j ==> out@[i] == wide_product(x@[i], y, z@[i]),
        decreases n - j,
    {
        out.push(mul_add_wide(x[j], y, z[j]));
        j += 1;
    }
    out
}

/// Hands the chunks of `z` and `x` to rayon's `par_chunks`, `zip`, `map` and
/// `collect`, which run `chunk_products` on each pair of chunks on the thread
/// pool.
///
/// Nothing of this is proved. The contract states what rayon documents: the
/// chunks are consecutive runs of `chunk_size` limbs, the last one possibly
/// shorter; the two slices are walked in step; and the results are collected
/// in chunk order. Each result is then what `chunk_products` returns for its
/// pair of chunks.
#[verifier::external_body]
fn par_chunk_products(z: &[BigDigit], x: &[BigDigit], y: BigDigit, chunk_size: usize) -> (r: Vec<
    Vec<DoubleBigDigit>,
>)
    requires
        chunk_size >= 1,
        z@.len() == x@.len(),
    ensures
        r@.len() == chunk_count(x@.len(), chunk_size as nat),
        forall|k: int|
            0 <= k < r@.len() ==> (#[trigger] r@[k])@.len() == chunk_len(
                x@.len(),
                chunk_size as nat,
                k as nat,
            ),
        forall|k: int, j: int|
            0 <= k < r@.len() && 0 <= j < r@[k]@.len() ==> #[trigger] r@[k]@[j] == wide_product(
                x@[k * chunk_size + j],
                y,
                z@[k * chunk_size + j],
            ),
{
    z.par_chunks(chunk_size).zip(x.par_chunks(chunk_size)).map(
        |(zc, xc)| chunk_products(zc, xc, y),
    ).collect()
}

/// Splits a double-width sum into its low limb and what is carried on.
proof fn lemma_split_wide(sum: u128, lo: u64, hi: u128)
    by (bit_vector)
    requires
        lo == sum as u64,
        hi == sum >> 64,
    ensures
        hi * 0x1_0000_0000_0000_0000u128 + lo as u128 == sum,
        hi <= 0xffff_ffff_ffff_ffffu128,
{
}

/// Adds `x * y` into the window of `z` that starts at `offset`, forming the
/// limb products by chunks of `chunk_size` limbs in parallel and resolving the
/// carries afterwards in limb order. Returns the carry out of the window.
pub fn add_mul_vvw_parallel(
    z: &mut Vec<BigDigit>,
    offset: usize,
    x: &[BigDigit],
    y: BigDigit,
    chunk_size: usize,
) -> (carry: BigDigit)
    requires
        chunk_size >= 1,
        offset + x@.len() <= old(z)@.len(),
    ensures
        add_mul_post(old(z)@, offset as int, x@, y, final(z)@, carry),
{
    let n: usize = x.len();
    assert(offset + n <= z.len());
    let window = slice_subrange(z.as_slice(), offset, offset + n);
    let partials = par_chunk_products(window, x, y, chunk_size);
    proof {
        assert forall|q: int, j: int|
            0 <= q < partials@.len() && 0 <= j < partials@[q]@.len() implies #[trigger]
            partials@[q]@[j] == wide_product(
                x@[q * chunk_size + j],
                y,
                old(z)@[offset + q * chunk_size + j],
            ) by {
            assert((q + 1) * chunk_size == q * chunk_size + chunk_size) by (nonlinear_arith);
            assert(q * chunk_size >= 0) by (nonlinear_arith)
                requires
                    q >= 0,
            ;
            lemma_chunk_bounds(n as nat, chunk_size as nat, q as nat);
            let i = q * chunk_size + j;
            assert(partials@[q]@.len() == chunk_len(n as nat, chunk_size as nat, q as nat));
            assert(0 <= i < n);
            assert(window@[i] == z@[offset + i]);
        }
    }
    let chunks: usize = partials.len();
    let mut c: DoubleBigDigit = 0;
    let mut g: usize = 0;
    let mut k: usize = 0;
    proof {
        lemma_radix_zero();
        assert(z@.subrange(offset as int, offset as int) =~= Seq::<u64>::empty());
        assert(x@.take(0) =~= Seq::<u64>::empty());
        assert(limbs_value(Seq::<u64>::empty()) == 0);
        assert(0 * (y as int) == 0);
        lemma_chunk_bounds(n as nat, chunk_size as nat, 0);
        assert(0 * chunk_size == 0);
    }
    while k < chunks
        invariant
            k <= chunks,
            chunk_size >= 1,
            n == x@.len(),
            offset + n <= z.len(),
            z@.len() == old(z)@.len(),
            chunks == partials@.len(),
            chunks == chunk_count(n as nat, chunk_size as nat),
            forall|q: int|
                0 <= q < chunks ==> (#[trigger] partials@[q])@.len() == chunk_len(
                    n as nat,
                    chunk_size as nat,
                    q as nat,
                ),
            forall|q: int, j: int|
                0 <= q < chunks && 0 <= j < partials@[q]@.len() ==> #[trigger] partials@[q]@[j]
                    == wide_product(
                    x@[q * chunk_size + j],
                    y,
                    old(z)@[offset + q * chunk_size + j],
                ),
            g <= n,
            k < chunks ==> g == k * chunk_size,
            k == chunks ==> g == n,
            c <= 0xffff_ffff_ffff_ffff,
            forall|i: int|
                0 <= i < z@.len() && !(offset <= i < offset + g) ==> z@[i] == old(z)@[i],
            limbs_value(z@.subrange(offset as int, offset + g)) + c * radix(g as nat)
                == limbs_value(old(z)@.subrange(offset as int, offset + g)) + limbs_value(
                x@.take(g as int),
            ) * y,
        decreases chunks - k,
    {
        let chunk = &partials[k];
        let len: usize = chunk.len();
        let ghost base = g;
        proof {
            lemma_chunk_bounds(n as nat, chunk_size as nat, k as nat);
            lemma_chunk_bounds(n as nat, chunk_size as nat, (k + 1) as nat);
            assert((k + 1) * chunk_size == k * chunk_size + chunk_size) by (nonlinear_arith);
        }
        let mut j: usize = 0;
        while j < len
            invariant
                j <= len,
                k < chunks,
                chunk_size >= 1,
                n == x@.len(),
                offset + n <= z.len(),
                z@.len() == old(z)@.len(),
                chunks == partials@.len(),
                *chunk == partials@[k as int],
                len == chunk@.len(),
                base == k * chunk_size,
                base + len <= n,
                g == base + j,
                forall|i: int|
                    0 <= i < len ==> #[trigger] chunk@[i] == wide_product(
                        x@[base + i],
                        y,
                        old(z)@[offset + base + i],
                    ),
                c <= 0xffff_ffff_ffff_ffff,
                forall|i: int|
                    0 <= i < z@.len() && !(offset <= i < offset + g) ==> z@[i] == old(z)@[i],
                limbs_value(z@.subrange(offset as int, offset + g)) + c * radix(g as nat)
                    == limbs_value(old(z)@.subrange(offset as int, offset + g)) + limbs_value(
                    x@.take(g as int),
                ) * y,
            decreases len - j,
        {
            let ghost zb = z@;
            let ghost xj = x@[g as int];
            let ghost zj = old(z)@[offset + g];
            proof {
                assert(chunk@[j as int] == wide_product(xj, y, zj));
                assert(xj * y <= 0xffff_ffff_ffff_ffff * 0xffff_ffff_ffff_ffff)
                    by (nonlinear_arith)
                    requires
                        xj <= 0xffff_ffff_ffff_ffff,
                        y <= 0xffff_ffff_ffff_ffff,
                ;
            }
            let sum: DoubleBigDigit = chunk[j] + c;
            let lo: BigDigit = #[verifier::truncate] (sum as BigDigit);
            let cn: DoubleBigDigit = sum >> BITS;
            z[offset + g] = lo;
            proof {
                lemma_split_wide(sum, lo, cn);
                let w0 = old(z)@.subrange(offset as int, offset + g);
                let w0n = old(z)@.subrange(offset as int, offset + g + 1);
                let wb = zb.subrange(offset as int, offset + g);
                let wn = z@.subrange(offset as int, offset + g + 1);
                assert(wn =~= wb.push(lo));
                assert(w0n =~= w0.push(zj));
                assert(x@.take(g + 1) =~= x@.take(g as int).push(xj));
                lemma_value_push(wb, lo);
                lemma_value_push(w0, zj);
                lemma_value_push(x@.take(g as int), xj);
                lemma_radix_succ(g as nat);
                lemma_mac_step(
                    limbs_value(wb),
                    c as nat,
                    radix(g as nat),
                    limbs_value(w0),
                    limbs_value(x@.take(g as int)),
                    y as nat,
                    xj as nat,
                    zj as nat,
                    lo as nat,
                    cn as nat,
                );
            }
            c = cn;
            g += 1;
            j += 1;
        }
        k += 1;
    }
    proof {
        assert(x@.take(n as int) =~= x@);
    }
    c as BigDigit
}

/// Adds `x * y` into the window of `z` that starts at `offset` by the chosen
/// strategy and returns the carry out of the window.
pub fn add_mul_vvw(
    z: &mut Vec<BigDigit>,
    offset: usize,
    x: &[BigDigit],
    y: BigDigit,
    strategy: Strategy,
) -> (carry: BigDigit)
    requires
        offset + x@.len() <= old(z)@.len(),
    ensures
        add_mul_post(old(z)@, offset as int, x@, y, final(z)@, carry),
{
    match strategy {
        Strategy::Sequential => add_mul_vvw_seq(z, offset, x, y),
        Strategy::Parallel => add_mul_vvw_parallel(z, offset, x, y, CHUNK_LIMBS),
    }
}

/// The sequential and the chunk-parallel multiply-accumulate agree bit for
/// bit: any two outcomes that meet the primitive's contract on the same
/// inputs hold the same limbs and the same carry, whatever the chunk size.
pub proof fn lemma_add_mul_strategies_agree(
    before: Seq<u64>,
    offset: int,
    x: Seq<u64>,
    y: u64,
    after_a: Seq<u64>,
    carry_a: u64,
    after_b: Seq<u64>,
    carry_b: u64,
)
    requires
        0 <= offset,
        offset + x.len() <= before.len(),
        add_mul_post(before, offset, x, y, after_a, carry_a),
        add_mul_post(before, offset, x, y, after_b, carry_b),
    ensures
        after_a == after_b,
        carry_a == carry_b,
{
    let e = offset + x.len();
    let wa = after_a.subrange(offset, e);
    let wb = after_b.subrange(offset, e);
    lemma_value_bound(wa);
    lemma_value_bound(wb);
    lemma_radix_pos(x.len());
    let r = radix(x.len());
    let va = limbs_value(wa);
    let vb = limbs_value(wb);
    assert(carry_a == carry_b) by (nonlinear_arith)
        requires
            va + carry_a * r == vb + carry_b * r,
            va < r,
            vb < r,
    ;
    lemma_value_unique(wa, wb);
    assert forall|i: int| 0 <= i < before.len() implies after_a[i] == after_b[i] by {
        if offset <= i < e {
            assert(after_a[i] == wa[i - offset]);
            assert(after_b[i] == wb[i - offset]);
        }
    }
    assert(after_a =~= after_b);
}

} // verus!
