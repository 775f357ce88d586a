use num_bigint::BigUint as Oracle;
use rust_monty_parallel::biguint::BigUint;
use rust_monty_parallel::monty::{monty_modpow, monty_modpow_with};
use rust_monty_parallel::parallel::Strategy;

fn to_oracle(v: &BigUint) -> Oracle {
    let mut bytes = Vec::new();
    for limb in v.data.iter() {
        bytes.extend_from_slice(&limb.to_le_bytes());
    }
    Oracle::from_bytes_le(&bytes)
}

fn limbs_of(v: &Oracle) -> Vec<u64> {
    let d = v.to_u64_digits();
    if d.is_empty() {
        vec![0]
    } else {
        d
    }
}

fn sample(n: usize, seed: u64) -> Vec<u64> {
    let mut s = seed;
    let mut out = Vec::with_capacity(n);
    for _ in 0..n {
        s ^= s << 13;
        s ^= s >> 7;
        s ^= s << 17;
        out.push(s);
    }
    out
}

#[test]
fn modpow_matches_an_independent_library() {
    let mut seed = 0x9e37_79b9_7f4a_7c15u64;
    for n in 1..7usize {
        for bl in 1..9usize {
            for el in 1..3usize {
                seed = seed.wrapping_mul(0x2545_f491_4f6c_dd1d).wrapping_add(n as u64);
                let mut m = BigUint { data: sample(n, seed) };
                m.data[0] |= 1;
                let b = BigUint { data: sample(bl, seed ^ 0xabcdef) };
                let e = BigUint { data: sample(el, seed ^ 0x123456) };
                let want = to_oracle(&b).modpow(&to_oracle(&e), &to_oracle(&m));
                assert_eq!(monty_modpow(&b, &e, &m).data, limbs_of(&want));
                assert_eq!(
                    monty_modpow_with(&b, &e, &m, Strategy::Parallel).data,
                    limbs_of(&want)
                );
            }
        }
    }
}

#[test]
fn rem_and_shl_match_an_independent_library() {
    for n in 1..6usize {
        for k in 1..6usize {
            let a = BigUint { data: sample(n, 77 + n as u64) };
            let mut m = BigUint { data: sample(k, 99 + k as u64) };
            m.data[k - 1] |= 1;
            let want = to_oracle(&a) % to_oracle(&m);
            assert_eq!((a.clone() % &m).data, limbs_of(&want));
            let shift = (n * 37 + k * 5) as u64;
            let shifted = a.clone() << shift;
            assert_eq!(to_oracle(&shifted), to_oracle(&a) << (shift as usize));
        }
    }
}

#[test]
fn mul_and_sub_match_an_independent_library() {
    for n in 1..6usize {
        for k in 1..6usize {
            let a = BigUint { data: sample(n, 5 + n as u64) };
            let b = BigUint { data: sample(k, 11 + k as u64) };
            let product = to_oracle(&a) * to_oracle(&b);
            assert_eq!((a.clone() * b.clone()).data, limbs_of(&product));
            let (hi, lo) = if a.ge(&b) { (a, b) } else { (b, a) };
            let difference = to_oracle(&hi) - to_oracle(&lo);
            assert_eq!((hi - &lo).data, limbs_of(&difference));
        }
    }
}
