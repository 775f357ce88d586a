use rust_monty_parallel::biguint::{pad_limbs, zero_limbs, BigUint};

#[test]
fn test_shl_single_limb() {
    let a = BigUint { data: vec![3] };
    let shifted = a << 1; // 3 << 1 = 6.
    assert_eq!(shifted.data, vec![6]);
}

#[test]
fn test_shl_whole_limbs() {
    let a = BigUint { data: vec![1] };
    let shifted: BigUint = a << 128; // 1 << 128 should be represented as [0, 0, 1].
    assert_eq!(shifted.data, vec![0, 0, 1]);
}

#[test]
fn test_shl_with_bit_shift() {
    let a = BigUint {
        data: vec![0xFFFF_FFFF_FFFF_FFFF],
    };
    let shifted = a << 4;
    assert_eq!(shifted.data, vec![0xFFFFFFFFFFFFFFF0, 0xF]);
}

#[test]
fn shl_by_zero_keeps_the_limbs() {
    let a = BigUint { data: vec![7, 9] };
    assert_eq!((a << 0).data, vec![7, 9]);
}

#[test]
fn shl_mixed_limbs_and_bits() {
    // 12345678901234567890123456789 * 2^100
    let a = BigUint { data: vec![0x46bec9b16e398115, 0x27e41b32] };
    let shifted = a << 100;
    assert_eq!(shifted.data, vec![0, 0xe398115000000000, 0x7e41b3246bec9b16, 2]);
}

#[test]
fn shl_appends_no_limb_without_spill() {
    let a = BigUint { data: vec![1, 0] };
    assert_eq!((a << 63).data, vec![0x8000_0000_0000_0000, 0]);
}

#[test]
fn shl_of_empty_vector_is_only_the_zero_limbs() {
    let a = BigUint { data: vec![] };
    assert_eq!((a << 130).data, vec![0, 0]);
}

#[test]
fn zero_and_one() {
    assert_eq!(BigUint::zero().data, vec![0]);
    assert_eq!(BigUint::one().data, vec![1]);
}

#[test]
fn normalize_strips_top_zeros() {
    let mut a = BigUint { data: vec![5, 0, 7, 0, 0] };
    a.normalize();
    assert_eq!(a.data, vec![5, 0, 7]);
}

#[test]
fn normalize_keeps_one_limb_of_zero() {
    let mut a = BigUint { data: vec![0, 0, 0] };
    a.normalize();
    assert_eq!(a.data, vec![0]);
    let mut e = BigUint { data: vec![] };
    e.normalize();
    assert_eq!(e.data, Vec::<u64>::new());
}

#[test]
fn bit_length_counts_significant_bits() {
    assert_eq!(BigUint::zero().bit_length(), 0);
    assert_eq!(BigUint::one().bit_length(), 1);
    assert_eq!(BigUint { data: vec![13] }.bit_length(), 4);
    assert_eq!(BigUint { data: vec![12345] }.bit_length(), 14);
    assert_eq!(BigUint { data: vec![u64::MAX] }.bit_length(), 64);
    assert_eq!(BigUint { data: vec![0, 1] }.bit_length(), 65);
    assert_eq!(BigUint { data: vec![0, 0, 0x10] }.bit_length(), 133);
}

#[test]
fn bit_length_ignores_zero_limbs_at_the_top() {
    assert_eq!(BigUint { data: vec![5, 0, 0] }.bit_length(), 3);
    assert_eq!(BigUint { data: vec![] }.bit_length(), 0);
}

#[test]
fn ge_compares_by_value() {
    let a = BigUint { data: vec![1, 2] };
    let b = BigUint { data: vec![u64::MAX, 1] };
    assert!(a.ge(&b));
    assert!(!b.ge(&a));
    assert!(a.ge(&a));
    // the zero limb at the top does not count
    let c = BigUint { data: vec![1, 2, 0] };
    assert!(a.ge(&c));
    assert!(c.ge(&a));
    let d = BigUint { data: vec![0, 0, 1] };
    assert!(d.ge(&a));
    assert!(!a.ge(&d));
}

#[test]
fn sub_borrows_across_limbs() {
    let a = BigUint { data: vec![0, 0, 1] };
    let b = BigUint { data: vec![1] };
    assert_eq!((a - &b).data, vec![u64::MAX, u64::MAX]);
}

#[test]
fn sub_to_zero_is_one_zero_limb() {
    let a = BigUint { data: vec![9, 4] };
    let b = BigUint { data: vec![9, 4, 0] };
    assert_eq!((a - &b).data, vec![0]);
}

#[test]
fn rem_by_one_limb() {
    let a = BigUint { data: vec![100] };
    let m = BigUint { data: vec![7] };
    assert_eq!((a % &m).data, vec![2]);
}

#[test]
fn rem_multi_limb() {
    // (2^192 + 2^130 + 7) mod (5 * 2^64 + 3)
    let a = BigUint { data: vec![7, 0, 4, 1] };
    let m = BigUint { data: vec![3, 5] };
    assert_eq!((a % &m).data, vec![0x5c28f5c28f5c2900, 3]);
}

#[test]
fn rem_of_smaller_value_is_the_value() {
    let a = BigUint { data: vec![5, 1] };
    let m = BigUint { data: vec![0, 0, 1] };
    assert_eq!((a % &m).data, vec![5, 1]);
}

#[test]
fn rem_by_one_is_zero() {
    let a = BigUint { data: vec![5, 1] };
    assert_eq!((a % &BigUint::one()).data, vec![0]);
}

#[test]
fn pad_and_zero_limbs() {
    assert_eq!(zero_limbs(3), vec![0, 0, 0]);
    let mut v = vec![4u64, 5];
    pad_limbs(&mut v, 4);
    assert_eq!(v, vec![4, 5, 0, 0]);
    pad_limbs(&mut v, 2);
    assert_eq!(v, vec![4, 5, 0, 0]);
}

#[test]
fn clone_keeps_the_limbs() {
    let a = BigUint { data: vec![4, 5, 6] };
    assert_eq!(a.clone(), a);
}

#[test]
fn sub_by_value() {
    let a = BigUint { data: vec![10, 1] };
    let b = BigUint { data: vec![11] };
    assert_eq!((a - b).data, vec![u64::MAX]);
}

#[test]
fn mul_one_limb() {
    let a = BigUint { data: vec![6] };
    let b = BigUint { data: vec![7] };
    assert_eq!((a * b).data, vec![42]);
}

#[test]
fn mul_carries_into_new_limbs() {
    // (2^128 - 1)^2 = 2^256 - 2^129 + 1
    let a = BigUint { data: vec![u64::MAX, u64::MAX] };
    let b = BigUint { data: vec![u64::MAX, u64::MAX] };
    assert_eq!((a * b).data, vec![1, 0, u64::MAX - 1, u64::MAX]);
}

#[test]
fn mul_by_zero_is_one_zero_limb() {
    let a = BigUint { data: vec![5, 6, 7] };
    assert_eq!((a * BigUint::zero()).data, vec![0]);
    let e = BigUint { data: vec![] };
    assert_eq!((e.clone() * e).data, vec![0]);
}
