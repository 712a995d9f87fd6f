use rand::rng;

use pykrete_wb::dual::{irreducible_polynomials, Dual, Q};
use pykrete_wb::karroumi::{Dual4, KarroumiConfig, KarroumiConfig4};
use pykrete_wb::key::{Aes128Key, Aes256Key};
use pykrete_wb::sbox::PrecomputedSBox;
use pykrete_wb::tables::Tables;
use pykrete_wb::{RIArr, RI, Security, State};

fn make_sbox(config: Dual) -> PrecomputedSBox {
    PrecomputedSBox::for_dual(config)
}

#[test]
fn standard_matches_original() {
    let base = Dual::standard();
    let config = KarroumiConfig::<9>::standard();

    let tables = Tables::from_karroumi_key(make_sbox, Aes128Key::kung_fu_test_vector(), false, base, &config);

    let mut data = State::two_one_nine_two_test_vector();
    tables.cipher(&mut data);
    assert_eq!(data, State::two_one_nine_two_aes128_kung_fu_test_vector());
}

#[test]
fn roundtrip() {
    let rng = &mut rng();

    let base = Dual::standard();
    let config = KarroumiConfig::<9>::random(rng);

    let tables_enc = Tables::from_karroumi_key(make_sbox, Aes128Key::kung_fu_test_vector(), false, base, &config);
    let tables_dec = Tables::from_karroumi_key(make_sbox, Aes128Key::kung_fu_test_vector(), true, base, &config);

    let original = State::two_one_nine_two_test_vector();
    let mut data = original;

    tables_enc.cipher(&mut data);
    assert_ne!(data, original, "encrypted data should differ from original");

    tables_dec.cipher(&mut data);
    assert_eq!(data, original, "roundtrip should return original");
}

#[test]
fn with_nonstandard_base() {
    let rng = &mut rng();

    let base = Dual::new(irreducible_polynomials()[1], 2);
    let config = KarroumiConfig::<9>::random(rng);

    let tables_enc = Tables::from_karroumi_key(make_sbox, Aes128Key::kung_fu_test_vector(), false, base, &config);
    let tables_dec = Tables::from_karroumi_key(make_sbox, Aes128Key::kung_fu_test_vector(), true, base, &config);

    let original = State::two_one_nine_two_test_vector();
    let mut data = original;

    tables_enc.cipher(&mut data);
    assert_ne!(data, original, "encrypted should differ from original");

    tables_dec.cipher(&mut data);
    assert_eq!(data, original, "roundtrip should return original");
}

#[test]
fn nonstandard_base_standard_config_matches_aes() {
    let base = Dual::new(irreducible_polynomials()[1], 2);
    let config = KarroumiConfig::<9>::standard();

    let tables_enc = Tables::from_karroumi_key(make_sbox, Aes128Key::kung_fu_test_vector(), false, base, &config);

    let mut data = State::two_one_nine_two_test_vector();

    tables_enc.cipher(&mut data);

    let q_base = Q::for_dual(base);
    data.apply_q_inv(q_base);

    assert_eq!(data, State::two_one_nine_two_aes128_kung_fu_test_vector());
}

#[test]
fn equivalence_to_standard_aes() {
    let rng = &mut rng();

    let base = Dual::standard();
    let config = KarroumiConfig::<9>::random(rng);

    let karroumi_enc = Tables::from_karroumi_key(make_sbox, Aes128Key::kung_fu_test_vector(), false, base, &config);
    let karroumi_dec = Tables::from_karroumi_key(make_sbox, Aes128Key::kung_fu_test_vector(), true, base, &config);

    let mut data = State::two_one_nine_two_test_vector();
    karroumi_enc.cipher(&mut data);
    karroumi_dec.cipher(&mut data);

    assert_eq!(data, State::two_one_nine_two_test_vector());
}

#[test]
fn full_security() {
    let rng = &mut rng();

    let base = Dual::standard();
    let config = KarroumiConfig::<9>::random(rng);

    let tables_enc = Tables::from_karroumi_key(make_sbox, Aes128Key::kung_fu_test_vector(), false, base, &config);
    let tables_dec = Tables::from_karroumi_key(make_sbox, Aes128Key::kung_fu_test_vector(), true, base, &config);

    let original = State::two_one_nine_two_test_vector();
    let mut data = original;

    tables_enc.cipher(&mut data);
    tables_dec.cipher(&mut data);

    assert_eq!(data, original);
}

#[test]
fn karroumi_aes256() {
    let rng = &mut rng();

    let mut key = [0u8; 32];
    key[0] = 0x80;

    let base = Dual::standard();
    let config = KarroumiConfig::<13>::random(rng);

    let tables_enc: Tables<13> = Tables::from_karroumi_key(make_sbox, Aes256Key::new(key), false, base, &config);
    let tables_dec: Tables<13> = Tables::from_karroumi_key(make_sbox, Aes256Key::new(key), true, base, &config);

    let original = State::from_bytes([0; 16]);
    let mut data = original;

    tables_enc.cipher(&mut data);
    tables_dec.cipher(&mut data);

    assert_eq!(data, original, "AES-256 Karroumi roundtrip should work");
}

fn d4_standard_matches_original(security: bool) {
    let base = Dual4::standard();
    let config = KarroumiConfig4::<9>::standard();

    let mut tables = Tables::from_karroumi4_key(make_sbox, Aes128Key::kung_fu_test_vector(), false, base, &config);

    if security {
        tables.apply_security(Security::full(), &mut rng())
    }

    let mut data = State::two_one_nine_two_test_vector();
    tables.cipher(&mut data);
    assert_eq!(data, State::two_one_nine_two_aes128_kung_fu_test_vector());
}

#[test]
fn d4_standard_matches_original_no_security() {
    d4_standard_matches_original(false);
}

#[test]
fn d4_standard_matches_original_security() {
    d4_standard_matches_original(true);
}

fn d4_roundtrip(security: bool) {
    let rng = &mut rng();

    let base = Dual4::standard();
    let config = KarroumiConfig4::<9>::random(rng);

    let mut tables_enc = Tables::from_karroumi4_key(make_sbox, Aes128Key::kung_fu_test_vector(), false, base, &config);
    let mut tables_dec = Tables::from_karroumi4_key(make_sbox, Aes128Key::kung_fu_test_vector(), true, base, &config);
    if security {
        tables_enc.apply_security(Security::full(), rng);
        tables_dec.apply_security(Security::full(), rng);
    }

    let original = State::two_one_nine_two_test_vector();
    let mut data = original;

    tables_enc.cipher(&mut data);
    assert_ne!(data, original, "encrypted data should differ from original");

    tables_dec.cipher(&mut data);
    assert_eq!(data, original, "roundtrip should return original");
}

#[test]
fn d4_roundtrip_no_security() {
    d4_roundtrip(false);
}

#[test]
fn d4_roundtrip_security() {
    d4_roundtrip(true);
}

fn d4_with_nonstandard_base(security: bool) {
    let rng = &mut rng();

    let polys = irreducible_polynomials();
    let base = Dual4([
        Dual::new(polys[1], 0),
        Dual::new(polys[2], 1),
        Dual::new(polys[3], 2),
        Dual::new(polys[4], 3),
    ]);
    let config = KarroumiConfig4::<9>::random(rng);

    let mut tables_enc = Tables::from_karroumi4_key(make_sbox, Aes128Key::kung_fu_test_vector(), false, base, &config);
    let mut tables_dec = Tables::from_karroumi4_key(make_sbox, Aes128Key::kung_fu_test_vector(), true, base, &config);
    if security {
        tables_enc.apply_security(Security::full(), rng);
        tables_dec.apply_security(Security::full(), rng);
    }

    let original = State::two_one_nine_two_test_vector();
    let mut data = original;

    tables_enc.cipher(&mut data);
    assert_ne!(data, original, "encrypted should differ from original");

    tables_dec.cipher(&mut data);
    assert_eq!(data, original, "roundtrip should return original");
}

#[test]
fn d4_with_nonstandard_base_no_security() {
    d4_with_nonstandard_base(false);
}

#[test]
fn d4_with_nonstandard_base_security() {
    d4_with_nonstandard_base(true);
}

fn d4_aes256(security: bool) {
    let rng = &mut rng();

    let mut key = [0u8; 32];
    key[0] = 0x80;

    let base = Dual4::standard();
    let config = KarroumiConfig4::<13>::random(rng);

    let mut tables_enc: Tables<13> = Tables::from_karroumi4_key(make_sbox, Aes256Key::new(key), false, base, &config);
    let mut tables_dec: Tables<13> = Tables::from_karroumi4_key(make_sbox, Aes256Key::new(key), true, base, &config);
    if security {
        tables_enc.apply_security(Security::full(), rng);
        tables_dec.apply_security(Security::full(), rng);
    }

    let original = State::from_bytes([0; 16]);
    let mut data = original;

    tables_enc.cipher(&mut data);
    tables_dec.cipher(&mut data);

    assert_eq!(data, original, "AES-256 Karroumi4 roundtrip should work");
}

#[test]
fn d4_aes256_no_security() {
    d4_aes256(false);
}

#[test]
fn d4_aes256_security() {
    d4_aes256(true);
}

fn d4_uniform_config_matches_karroumi1(security: bool) {
    let rng = &mut rng();

    let single_config = Dual::random(rng);
    let base = Dual4::standard();

    let config1 = KarroumiConfig::<9>::new(RIArr([single_config; 9]), single_config);
    let config4 = KarroumiConfig4::<9>::new(RIArr([Dual4::uniform(single_config); 9]), Dual4::uniform(single_config));

    let mut tables1 = Tables::from_karroumi_key(make_sbox, Aes128Key::kung_fu_test_vector(), false, Dual::standard(), &config1);
    let mut tables4 = Tables::from_karroumi4_key(make_sbox, Aes128Key::kung_fu_test_vector(), false, base, &config4);
    if security {
        tables1.apply_security(Security::full(), rng);
        tables4.apply_security(Security::full(), rng);
    }

    let mut data1 = State::two_one_nine_two_test_vector();
    let mut data4 = State::two_one_nine_two_test_vector();

    tables1.cipher(&mut data1);
    tables4.cipher(&mut data4);

    assert_eq!(data1, data4,);
}

#[test]
fn d4_uniform_config_matches_karroumi1_no_security() {
    d4_uniform_config_matches_karroumi1(false);
}

#[test]
fn d4_uniform_config_matches_karroumi1_security() {
    d4_uniform_config_matches_karroumi1(true);
}

#[test]
fn d4_different_columns_per_round() {
    let polys = irreducible_polynomials();
    let mut rounds = [Dual4::standard(); 9];
    for r in 0..9 {
        let mut row = [Dual::standard(); 4];
        for col in 0..4 {
            let poly_idx = (r + col) % 30;
            let power = (r * 2 + col) % 8;
            row[col] = Dual::new(polys[poly_idx], power);
        }
        rounds[r] = Dual4(row);
    }
    let mut last = [Dual::standard(); 4];
    for col in 0..4 {
        last[col] = Dual::new(polys[col + 10], col % 8);
    }
    let config = KarroumiConfig4::<9>::new(RIArr(rounds), Dual4(last));

    let base = Dual4::standard();

    let tables_enc = Tables::from_karroumi4_key(make_sbox, Aes128Key::kung_fu_test_vector(), false, base, &config);
    let tables_dec = Tables::from_karroumi4_key(make_sbox, Aes128Key::kung_fu_test_vector(), true, base, &config);

    let original = State::two_one_nine_two_test_vector();
    let mut data = original;

    tables_enc.cipher(&mut data);
    assert_ne!(data, original);

    tables_dec.cipher(&mut data);
    assert_eq!(data, original);
}

#[test]
fn karroumi_round_config_follows_rounds() {
    let config = KarroumiConfig::<9>::standard();
    let last = config.round_config(RI(9));
    let first = config.round_config(RI(0));
    assert_eq!(first.poly, last.poly);
    assert_eq!(first.square_power, 0);
}
