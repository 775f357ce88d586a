use rust_monty_parallel::biguint::BigUint;
use rust_monty_parallel::monty::{monty_modpow, monty_modpow_with};
use rust_monty_parallel::parallel::Strategy;

fn rsa_base() -> BigUint {
    BigUint { data: vec![
        0xe3c011a79308fa15,
        0x374a4ade6c4f6c92,
        0xd19e2344afe13a05,
        0xff138e7d3c3006d6,
        0xcaf0871b5b434381,
        0x9b0a432cdbfbbbd9,
        0x7068df7c74907ff9,
        0xd0fde21fa4ed36a8,
        0x7bcbbb1f1fba51cd,
        0xd95b2c1a30e04284,
        0xd6b07b7e27888517,
        0xe71700c9c79e637e,
        0x8d4b40645055aca7,
        0x48b938c66476ed3d,
        0x7a26f7eddc885168,
        0xf3a34b4262c39402,
    ] }
}

fn rsa_exponent() -> BigUint {
    BigUint { data: vec![
        0x9cac7b66df1fc5ab,
        0xd1c3cd590a7279ed,
        0x82faeaee3ce443fc,
        0x2e9ea5ce73c037cd,
        0x5056c2756995a8bb,
        0xb946fc44d66bc8b8,
        0x99e2507d9d6d3fc4,
        0x9eb9e844d02d699d,
        0x730441a59dcccd71,
        0x3c031dc6e79c2518,
        0xb48fdd495907d9cf,
        0x9f8c1b17fcc85c08,
        0xfb2149d23e0712e4,
        0xcd26353de2413da8,
        0x22ae770c7aca471b,
        0xc32b455d2e384313,
    ] }
}

fn rsa_modulus() -> BigUint {
    BigUint { data: vec![
        0x7bf88d39f0cc5f77,
        0x4830a9617a9a5070,
        0x8434f4d2566338b6,
        0xcecfb96af95cb714,
        0xd5586586df07c2aa,
        0x732f90c22de9a3fe,
        0xfdd8910d8e57bcdc,
        0xee8cf61a1e89148f,
        0x3e7f7fa55d2e8fe0,
        0xebd1f664dba94d0a,
        0x832b815826999dcb,
        0x8d090efb48823501,
        0x97327a7241403549,
        0x152a6ad9dbd787b4,
        0x61f485a342187420,
        0xf0b9761c7c2deff6,
    ] }
}

fn rsa_expected() -> Vec<u64> {
    vec![
        0xc6a6758c9b6ccf9a,
        0x8c3cbc1e7e4ac806,
        0xddd932675369f2fb,
        0x7733f206ea45c665,
        0xfebc1a1790082052,
        0x39996ea9e94e108c,
        0x21a8b8f12195fd93,
        0xfda5f8b6e0493337,
        0xfebe03f40b1631bd,
        0x59518e7c29c5122f,
        0x5a18a622afac89d9,
        0x20347e69a782797f,
        0x5b40dce40829638f,
        0xda8c269b70ab93f7,
        0x650f3afc8ca09d01,
        0x37ff5465680cbd07,
    ]
}

#[test]
fn modpow_1024_bit_exact() {
    let r = monty_modpow(&rsa_base(), &rsa_exponent(), &rsa_modulus());
    assert_eq!(r.data, rsa_expected());
}

#[test]
fn modpow_1024_bit_parallel_exact() {
    let r = monty_modpow_with(&rsa_base(), &rsa_exponent(), &rsa_modulus(), Strategy::Parallel);
    assert_eq!(r.data, rsa_expected());
}
