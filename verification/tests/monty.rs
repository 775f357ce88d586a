use rust_monty_parallel::biguint::BigUint;
use rust_monty_parallel::monty::{
    inv_mod_alt, montgomery, montgomery_with, monty_modpow, monty_modpow_with, power_table,
    radix_squared, reduce_base, window_count, window_digit, MontyReducer,
};
use rust_monty_parallel::parallel::Strategy;

#[test]
fn test_monty_modpow_small() {
    let x = BigUint { data: vec![3] };
    let y = BigUint { data: vec![13] };
    let m = BigUint { data: vec![17] };
    let result = monty_modpow(&x, &y, &m);
    assert_eq!(
        result.data[0] % 17,
        12,
        "3^13 mod 17 should be 12, got {:?}",
        result.data
    );
}

#[test]
fn test_monty_modpow_another() {
    let x = BigUint { data: vec![2] };
    let y = BigUint { data: vec![10] };
    let m = BigUint { data: vec![19] };
    let result = monty_modpow(&x, &y, &m);
    assert_eq!(
        result.data[0] % 19,
        17,
        "2^10 mod 19 should be 17, got {:?}",
        result.data
    );
}

#[test]
fn test_monty_modpow_edge() {
    let x = BigUint::one();
    let y = BigUint { data: vec![12345] };
    let m = BigUint { data: vec![97] };
    let result = monty_modpow(&x, &y, &m);
    assert_eq!(
        result.data[0] % 97,
        1,
        "1^e mod 97 should be 1, got {:?}",
        result.data
    );
}

fn modpow_u64(b: u64, e: u64, m: u64) -> Vec<u64> {
    monty_modpow(
        &BigUint { data: vec![b] },
        &BigUint { data: vec![e] },
        &BigUint { data: vec![m] },
    )
    .data
}

fn schoolbook_u64(b: u64, e: u64, m: u64) -> u64 {
    let mut acc: u128 = 1 % m as u128;
    let mut i = 0;
    while i < e {
        acc = acc * b as u128 % m as u128;
        i += 1;
    }
    acc as u64
}

#[test]
fn modpow_gives_the_reduced_result_exactly() {
    assert_eq!(modpow_u64(3, 13, 17), vec![12]);
    assert_eq!(modpow_u64(2, 10, 19), vec![17]);
    assert_eq!(modpow_u64(1, 12345, 97), vec![1]);
}

#[test]
fn modpow_exponent_not_a_multiple_of_four_bits() {
    // 22 = 0b10110 has five significant bits
    assert_eq!(modpow_u64(3, 22, 1000003), vec![schoolbook_u64(3, 22, 1000003)]);
    assert_eq!(modpow_u64(7, 12345, 97), vec![schoolbook_u64(7, 12345, 97)]);
}

#[test]
fn modpow_agrees_with_schoolbook_on_small_inputs() {
    let moduli = [1u64, 3, 5, 17, 19, 97, 255, 1000003, u64::MAX];
    for &m in moduli.iter() {
        for b in 0..12u64 {
            for e in 0..40u64 {
                assert_eq!(modpow_u64(b, e, m), vec![schoolbook_u64(b, e, m)]);
            }
        }
    }
}

#[test]
fn modpow_zero_exponent_is_one_mod_m() {
    assert_eq!(modpow_u64(5, 0, 17), vec![1]);
    assert_eq!(modpow_u64(0, 0, 17), vec![1]);
    assert_eq!(modpow_u64(5, 0, 1), vec![0]);
    let y = BigUint { data: vec![] };
    let r = monty_modpow(&BigUint { data: vec![5] }, &y, &BigUint { data: vec![17] });
    assert_eq!(r.data, vec![1]);
}

#[test]
fn modpow_modulus_one_is_zero() {
    assert_eq!(modpow_u64(5, 3, 1), vec![0]);
    assert_eq!(modpow_u64(0, 0, 1), vec![0]);
}

#[test]
fn modpow_zero_base() {
    assert_eq!(modpow_u64(0, 5, 17), vec![0]);
    assert_eq!(modpow_u64(0, 0, 17), vec![1]);
}

#[test]
fn modpow_base_at_least_modulus_is_reduced() {
    assert_eq!(modpow_u64(20, 13, 17), modpow_u64(3, 13, 17));
    assert_eq!(modpow_u64(17, 5, 17), vec![0]);
    // a base with more limbs than the modulus
    let b = BigUint { data: vec![0x3039, 0, 0, 0x100] };
    let e = BigUint { data: vec![3, 0x40] };
    let m = BigUint { data: vec![0x33, 0, 1] };
    let r = monty_modpow(&b, &e, &m);
    assert_eq!(r.data, vec![0x50bd86492bab0aef, 0xb4d355bc6a9c067a]);
    let reduced = b % &m;
    assert_eq!(monty_modpow(&reduced, &e, &m).data, r.data);
}

#[test]
fn modpow_multi_limb_exponent() {
    // 2^(2^64) mod 5 = 2^(2^64 mod 4) = 1
    let b = BigUint { data: vec![2] };
    let e = BigUint { data: vec![0, 1] };
    let m = BigUint { data: vec![5] };
    assert_eq!(monty_modpow(&b, &e, &m).data, vec![1]);
    // 3^(2^64 + 1) mod 7: 2^64 = 4 mod 6, so the power is 3^5 = 5 mod 7
    let e = BigUint { data: vec![1, 1] };
    let r = monty_modpow(&BigUint { data: vec![3] }, &e, &BigUint { data: vec![7] });
    assert_eq!(r.data, vec![5]);
}

#[test]
fn modpow_accepts_padded_operands() {
    let b = BigUint { data: vec![3, 0, 0] };
    let e = BigUint { data: vec![13, 0] };
    let m = BigUint { data: vec![17, 0] };
    assert_eq!(monty_modpow(&b, &e, &m).data, vec![12]);
}

#[test]
fn modpow_strategies_agree() {
    let b = BigUint { data: vec![0x3039, 0, 0, 0x100] };
    let e = BigUint { data: vec![3, 0x40] };
    let m = BigUint { data: vec![0x33, 0, 1] };
    let s = monty_modpow_with(&b, &e, &m, Strategy::Sequential);
    let p = monty_modpow_with(&b, &e, &m, Strategy::Parallel);
    assert_eq!(s.data, p.data);
    assert_eq!(p.data, vec![0x50bd86492bab0aef, 0xb4d355bc6a9c067a]);
}

#[test]
fn inverse_times_limb_is_minus_one() {
    let limbs = [1u64, 3, 17, 97, 0x1234_5678_9abc_def1, u64::MAX, 0x8000_0000_0000_0001];
    for &b in limbs.iter() {
        let k = inv_mod_alt(b);
        assert_eq!(k.wrapping_mul(b), u64::MAX);
    }
}

#[test]
fn inverse_exact_values() {
    assert_eq!(inv_mod_alt(1), u64::MAX);
    assert_eq!(inv_mod_alt(17), 0x0f0f_0f0f_0f0f_0f0f);
    assert_eq!(inv_mod_alt(0x1234_5678_9abc_def1), 0x8848_c297_4d33_adef);
}

#[test]
fn reducer_holds_the_inverse_of_the_lowest_limb() {
    let m = BigUint { data: vec![17, 5] };
    assert_eq!(MontyReducer::new(&m).n0inv, 0x0f0f_0f0f_0f0f_0f0f);
}

#[test]
fn montgomery_one_limb_is_congruent() {
    let mods = [3u64, 17, 97, 0xffff_ffff_ffff_ffc5, u64::MAX];
    let vals = [0u64, 1, 2, 16, 96, 0x1234_5678, u64::MAX, u64::MAX - 1];
    for &mv in mods.iter() {
        let m = BigUint { data: vec![mv] };
        let k = MontyReducer::new(&m).n0inv;
        for &a in vals.iter() {
            for &b in vals.iter() {
                let x = BigUint { data: vec![a] };
                let y = BigUint { data: vec![b] };
                let z = montgomery(&x, &y, &m, k, 1);
                assert_eq!(z.data.len(), 1);
                // z * 2^64 = x * y (mod m)
                let r = (1u128 << 64) % mv as u128;
                let lhs = (z.data[0] as u128 % mv as u128) * r % mv as u128;
                let rhs = (a as u128 % mv as u128) * (b as u128 % mv as u128) % mv as u128;
                assert_eq!(lhs, rhs);
                let p = montgomery_with(&x, &y, &m, k, 1, Strategy::Parallel);
                assert_eq!(p.data, z.data);
            }
        }
    }
}

#[test]
fn montgomery_exact_value() {
    // modulus 17, R = 2^64 = 1 (mod 17): 3 * 4 / R = 12
    let m = BigUint { data: vec![17] };
    let k = MontyReducer::new(&m).n0inv;
    let z = montgomery(&BigUint { data: vec![3] }, &BigUint { data: vec![4] }, &m, k, 1);
    assert_eq!(z.data[0] % 17, 12);
    assert!(z.data[0] < 17 + 1);
}

#[test]
fn montgomery_takes_the_subtraction_branch() {
    // operands at the top of the range force a carry out of the sweep
    let m = BigUint { data: vec![u64::MAX, u64::MAX] };
    let k = MontyReducer::new(&m).n0inv;
    let x = BigUint { data: vec![u64::MAX, u64::MAX] };
    let z = montgomery(&x, &x, &m, k, 2);
    assert_eq!(z.data.len(), 2);
    // x = m, so the product is 0 modulo m: z is 0 or m
    let zero = z.data == vec![0, 0];
    let full = z.data == vec![u64::MAX, u64::MAX];
    assert!(zero || full);
}

#[test]
fn reduce_base_pads_a_short_base() {
    let m = BigUint { data: vec![3, 5, 0] };
    let x = BigUint { data: vec![9] };
    assert_eq!(reduce_base(&x, &m).data, vec![9, 0, 0]);
    // as long as the modulus: kept, even above it
    let x = BigUint { data: vec![9, 9, 9] };
    assert_eq!(reduce_base(&x, &m).data, vec![9, 9, 9]);
}

#[test]
fn reduce_base_reduces_a_long_base() {
    // (2^192 + 2^130 + 7) mod (5 * 2^64 + 3)
    let m = BigUint { data: vec![3, 5] };
    let x = BigUint { data: vec![7, 0, 4, 1] };
    assert_eq!(reduce_base(&x, &m).data, vec![0x5c28f5c28f5c2900, 3]);
}

#[test]
fn radix_squared_exact() {
    // 2^128 mod 17 = 1
    assert_eq!(radix_squared(&BigUint { data: vec![17] }).data, vec![1]);
    // 2^256 mod (5 * 2^64 + 3)
    let m = BigUint { data: vec![3, 5] };
    assert_eq!(radix_squared(&m).data, vec![0xf1a9fbe76c8b4398, 3]);
    // padded to the modulus's length
    assert_eq!(radix_squared(&BigUint { data: vec![1, 0] }).data, vec![0, 0]);
}

#[test]
fn power_table_holds_the_powers_in_montgomery_form() {
    let m = BigUint { data: vec![97] };
    let k = MontyReducer::new(&m).n0inv;
    let rr = radix_squared(&m);
    let x = BigUint { data: vec![5] };
    let table = power_table(&x, &rr, &BigUint::one(), &m, k, Strategy::Sequential);
    assert_eq!(table.len(), 16);
    let r = ((1u128 << 64) % 97) as u64;
    let mut power = 1u64;
    for entry in table.iter() {
        assert_eq!(entry.data.len(), 1);
        assert_eq!(entry.data[0] % 97, power * r % 97);
        power = power * 5 % 97;
    }
}

#[test]
fn window_count_rounds_up() {
    assert_eq!(window_count(0), 0);
    assert_eq!(window_count(1), 1);
    assert_eq!(window_count(4), 1);
    assert_eq!(window_count(5), 2);
    assert_eq!(window_count(64), 16);
    assert_eq!(window_count(u64::MAX), 1 << 62);
}

#[test]
fn window_digit_reads_four_bits() {
    let y = BigUint { data: vec![0x0123_4567_89ab_cdef, 0xf000_0000_0000_0001] };
    let low: Vec<usize> = (0..16).map(|w| window_digit(&y, w)).collect();
    assert_eq!(low, vec![15, 14, 13, 12, 11, 10, 9, 8, 7, 6, 5, 4, 3, 2, 1, 0]);
    assert_eq!(window_digit(&y, 16), 1);
    assert_eq!(window_digit(&y, 31), 15);
}
