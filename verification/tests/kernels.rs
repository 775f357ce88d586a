use rust_monty_parallel::parallel::{
    add_mul_vvw, add_mul_vvw_parallel, chunk_products, mul_add_wide, Strategy, CHUNK_LIMBS,
};
use rust_monty_parallel::vector::{add_mul_vvw_seq, shl1_vw, sub_vv};
use rust_monty_parallel::word::{add_ww, mul_add_www, sub_ww};

#[test]
fn add_ww_carries() {
    assert_eq!(add_ww(1, 2, 0), (0, 3));
    assert_eq!(add_ww(u64::MAX, 1, 0), (1, 0));
    assert_eq!(add_ww(u64::MAX, u64::MAX, 1), (1, u64::MAX));
    assert_eq!(add_ww(u64::MAX, 0, 1), (1, 0));
    assert_eq!(add_ww(5, u64::MAX, 0), (1, 4));
}

#[test]
fn sub_ww_borrows() {
    assert_eq!(sub_ww(5, 3, 0), (0, 2));
    assert_eq!(sub_ww(3, 5, 0), (1, u64::MAX - 1));
    assert_eq!(sub_ww(0, 0, 1), (1, u64::MAX));
    assert_eq!(sub_ww(7, 7, 0), (0, 0));
    assert_eq!(sub_ww(7, 6, 1), (0, 0));
    assert_eq!(sub_ww(0, u64::MAX, 1), (1, 0));
}

#[test]
fn mul_add_www_splits_the_product() {
    assert_eq!(mul_add_www(3, 4, 5), (0, 17));
    assert_eq!(mul_add_www(u64::MAX, u64::MAX, u64::MAX), (u64::MAX, 0));
    assert_eq!(mul_add_www(1 << 63, 2, 0), (1, 0));
    assert_eq!(mul_add_wide(u64::MAX, u64::MAX, u64::MAX), (u64::MAX as u128) << 64);
    assert_eq!(mul_add_wide(3, 4, 5), 17);
}

#[test]
fn add_mul_sequential_exact() {
    // [1, 2] += [u64::MAX, u64::MAX] * 2:
    // 1 + 2 * 2^64 + 2 * (2^128 - 1) = (2^64 - 1) + 2^64 + 2 * 2^128
    let mut z = vec![9, 1, 2, 9];
    let c = add_mul_vvw_seq(&mut z, 1, &[u64::MAX, u64::MAX], 2);
    assert_eq!(z, vec![9, u64::MAX, 1, 9]);
    assert_eq!(c, 2);
}

#[test]
fn add_mul_empty_operand_changes_nothing() {
    let mut z = vec![1, 2, 3];
    assert_eq!(add_mul_vvw_seq(&mut z, 3, &[], 7), 0);
    assert_eq!(add_mul_vvw_parallel(&mut z, 0, &[], 7, 4), 0);
    assert_eq!(z, vec![1, 2, 3]);
}

fn sample(n: usize, seed: u64) -> Vec<u64> {
    let mut s = seed;
    let mut out = Vec::with_capacity(n);
    for i in 0..n {
        s = s.wrapping_mul(6364136223846793005).wrapping_add(1442695040888963407);
        out.push(if i % 5 == 0 { u64::MAX } else { s });
    }
    out
}

#[test]
fn strategies_agree_at_every_chunk_boundary() {
    let sizes = [0usize, 1, 2, 3, 63, 64, 65, 127, 128, 129, 200];
    let chunks = [1usize, 2, 3, 64, 1000];
    for &n in sizes.iter() {
        let x = sample(n, 1);
        let z0 = sample(n + 3, 2);
        for &y in [0u64, 1, 0x1234_5678_9abc_def0, u64::MAX].iter() {
            let mut zs = z0.clone();
            let cs = add_mul_vvw_seq(&mut zs, 2, &x, y);
            for &chunk in chunks.iter() {
                let mut zp = z0.clone();
                let cp = add_mul_vvw_parallel(&mut zp, 2, &x, y, chunk);
                assert_eq!(zp, zs);
                assert_eq!(cp, cs);
            }
            let mut zd = z0.clone();
            assert_eq!(add_mul_vvw(&mut zd, 2, &x, y, Strategy::Parallel), cs);
            assert_eq!(zd, zs);
            let mut ze = z0.clone();
            assert_eq!(add_mul_vvw(&mut ze, 2, &x, y, Strategy::Sequential), cs);
            assert_eq!(ze, zs);
        }
    }
}

#[test]
fn parallel_exact_with_carry_across_chunks() {
    // every limb overflows, so the carry crosses each chunk boundary
    let x = vec![u64::MAX; 5];
    let mut z = vec![u64::MAX; 5];
    let c = add_mul_vvw_parallel(&mut z, 0, &x, u64::MAX, 2);
    // z + x * (2^64 - 1) = x * 2^64 = (2^320 - 1) * 2^64
    assert_eq!(z, vec![0, u64::MAX, u64::MAX, u64::MAX, u64::MAX]);
    assert_eq!(c, u64::MAX);
}

#[test]
fn chunk_size_constant() {
    assert_eq!(CHUNK_LIMBS, 64);
}

#[test]
fn chunk_products_are_per_limb() {
    let r = chunk_products(&[1, 2, 3], &[10, u64::MAX], 3);
    assert_eq!(r, vec![31, 3 * (u64::MAX as u128) + 2]);
}

#[test]
fn sub_vv_exact() {
    let mut z = vec![0, 0, 7];
    let b = sub_vv(&mut z, &[0, 1, 5], &[1, 0]);
    assert_eq!(z, vec![u64::MAX, 0, 7]);
    assert_eq!(b, 0);
    let mut z = vec![0, 0];
    let b = sub_vv(&mut z, &[1, 0], &[2, 0]);
    assert_eq!(z, vec![u64::MAX, u64::MAX]);
    assert_eq!(b, 1);
}

#[test]
fn shl1_vw_exact() {
    let mut z = vec![0x8000_0000_0000_0001, 0x8000_0000_0000_0000];
    let c = shl1_vw(&mut z, true);
    assert_eq!(z, vec![3, 1]);
    assert!(c);
    let mut y = vec![5u64, 1];
    assert!(!shl1_vw(&mut y, false));
    assert_eq!(y, vec![10, 2]);
    let mut e: Vec<u64> = vec![];
    assert!(shl1_vw(&mut e, true));
}
