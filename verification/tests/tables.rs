use rand::rng;

use pykrete_wb::encoding::{apply_encoding, ExternalEncoding};
use pykrete_wb::key::{Aes128Key, Aes256Key};
use pykrete_wb::tables::{Aes128Tables, Aes256Tables};
use pykrete_wb::{decrypt, encrypt, Security, State, IV};

fn nist_cfb_iv() -> IV {
    IV::new([0x00, 0x01, 0x02, 0x03, 0x04, 0x05, 0x06, 0x07, 0x08, 0x09, 0x0a, 0x0b, 0x0c, 0x0d, 0x0e, 0x0f])
}

#[test]
fn normal() {
    let mut tables = Aes128Tables::from_key(Aes128Key::nist_cfb_e2(), false);
    tables.apply_security(Security::full(), &mut rng());

    let nist_message_cfb_e2: [u8; 64] = [
        0x6b, 0xc1, 0xbe, 0xe2, 0x2e, 0x40, 0x9f, 0x96, 0xe9, 0x3d, 0x7e, 0x11, 0x73, 0x93, 0x17, 0x2a, 0xae,
        0x2d, 0x8a, 0x57, 0x1e, 0x03, 0xac, 0x9c, 0x9e, 0xb7, 0x6f, 0xac, 0x45, 0xaf, 0x8e, 0x51, 0x30, 0xc8,
        0x1c, 0x46, 0xa3, 0x5c, 0xe4, 0x11, 0xe5, 0xfb, 0xc1, 0x19, 0x1a, 0x0a, 0x52, 0xef, 0xf6, 0x9f, 0x24,
        0x45, 0xdf, 0x4f, 0x9b, 0x17, 0xad, 0x2b, 0x41, 0x7b, 0xe6, 0x6c, 0x37, 0x10,
    ];

    let nist_test_result_cfb_e2: [u8; 64] = [
        0x3b, 0x3f, 0xd9, 0x2e, 0xb7, 0x2d, 0xad, 0x20, 0x33, 0x34, 0x49, 0xf8, 0xe8, 0x3c, 0xfb, 0x4a, 0xc8,
        0xa6, 0x45, 0x37, 0xa0, 0xb3, 0xa9, 0x3f, 0xcd, 0xe3, 0xcd, 0xad, 0x9f, 0x1c, 0xe5, 0x8b, 0x26, 0x75,
        0x1f, 0x67, 0xa3, 0xcb, 0xb1, 0x40, 0xb1, 0x80, 0x8c, 0xf1, 0x87, 0xa4, 0xf4, 0xdf, 0xc0, 0x4b, 0x05,
        0x35, 0x7c, 0x5d, 0x1c, 0x0e, 0xea, 0xc4, 0xc6, 0x6f, 0x9f, 0xf7, 0xf2, 0xe6,
    ];

    let mut message = nist_message_cfb_e2;
    tables.encrypt_cfb(nist_cfb_iv(), &mut message);
    assert_eq!(message, nist_test_result_cfb_e2, "encryption is unsuccessful");
    tables.decrypt_cfb(nist_cfb_iv(), &mut message);
    assert_eq!(message, nist_message_cfb_e2, "decryption is unsuccessful");
}

#[test]
fn inv() {
    let s = Security::full();
    let mut tables = Aes128Tables::from_key(Aes128Key::kung_fu_test_vector(), false);
    tables.apply_security(s, &mut rng());
    let mut tables_inv = Aes128Tables::from_key(Aes128Key::kung_fu_test_vector(), true);
    tables_inv.apply_security(s, &mut rng());

    let mut data = State::two_one_nine_two_test_vector();
    tables.cipher(&mut data);
    assert_eq!(data, State::two_one_nine_two_aes128_kung_fu_test_vector());
    tables_inv.cipher(&mut data);
    assert_eq!(data, State::two_one_nine_two_test_vector())
}

#[test]
fn external_encoding() {
    let rng = &mut rng();
    let s = Security::full();

    let encoding = ExternalEncoding::random(rng);
    let encoding2 = ExternalEncoding::random(rng);

    let mut tables = Aes128Tables::from_key(Aes128Key::kung_fu_test_vector(), false);
    tables.apply_security(s, rng);
    tables.output_encoding(&encoding, false);
    tables.output_encoding(&encoding2, false);

    let mut tables_inv = Aes128Tables::from_key(Aes128Key::kung_fu_test_vector(), true);
    tables_inv.apply_security(s, rng);
    tables_inv.input_encoding(&encoding, true);
    tables_inv.input_encoding(&encoding2, true);

    let mut data = State::two_one_nine_two_test_vector();
    tables.cipher(&mut data);
    assert_ne!(
        data,
        State::two_one_nine_two_aes128_kung_fu_test_vector(),
        "encoded aes output should not match original aes"
    );
    tables_inv.cipher(&mut data);
    assert_eq!(data, State::two_one_nine_two_test_vector(), "with encodings the values should roundtrip");
}

#[test]
fn external_encoding_standalone() {
    let rng = &mut rng();
    let s = Security::full();

    let encoding = ExternalEncoding::random(rng);

    let mut tables = Aes128Tables::from_key(Aes128Key::kung_fu_test_vector(), false);
    tables.apply_security(s, rng);
    tables.input_encoding(&encoding, true);

    let mut data = State::two_one_nine_two_test_vector();
    apply_encoding(&mut data, &encoding, false);

    tables.cipher(&mut data);
    assert_eq!(data, State::two_one_nine_two_aes128_kung_fu_test_vector());
}

#[test]
fn external_decoding_standalone() {
    let rng = &mut rng();
    let s = Security::full();

    let encoding = ExternalEncoding::random(rng);

    let mut tables = Aes128Tables::from_key(Aes128Key::kung_fu_test_vector(), true);
    tables.apply_security(s, rng);
    tables.output_encoding(&encoding, false);

    let mut data = State::two_one_nine_two_aes128_kung_fu_test_vector();
    tables.cipher(&mut data);
    apply_encoding(&mut data, &encoding, true);

    assert_eq!(data, State::two_one_nine_two_test_vector());
}

#[test]
fn self_cancelling_external_decoding_standalone() {
    let rng = &mut rng();
    let s = Security::full();

    let input_encoding = ExternalEncoding::random(rng);
    let output_encoding = ExternalEncoding::random(rng);

    let mut data = State::two_one_nine_two_test_vector();
    apply_encoding(&mut data, &output_encoding, true);

    let round_keys = Aes128Key::kung_fu_test_vector().expand();
    encrypt(&mut data, &round_keys);

    apply_encoding(&mut data, &input_encoding, false);

    let mut tables = Aes128Tables::from_unchecked_round_keys(&round_keys, true);
    tables.apply_security(s, rng);
    tables.input_encoding(&input_encoding, true);
    tables.output_encoding(&output_encoding, false);

    tables.cipher(&mut data);
    assert_eq!(data, State::two_one_nine_two_test_vector());
}

#[test]
fn inv_256() {
    let mut key = [0; 32];
    key[0] = 0x80;
    let s = Security::full();
    let mut tables = Aes256Tables::from_key(Aes256Key::new(key), false);
    tables.apply_security(s, &mut rng());
    let mut tables_inv = Aes256Tables::from_key(Aes256Key::new(key), true);
    tables_inv.apply_security(s, &mut rng());

    let mut data = State::from_bytes([0; 16]);
    tables.cipher(&mut data);
    assert_eq!(data, State::two_one_nine_two_aes256_kung_fu_test_vector());
    tables_inv.cipher(&mut data);
    assert_eq!(data, State::from_bytes([0; 16]));
}

#[test]
fn internal_encodings() {
    let mut tables = Aes128Tables::from_key(Aes128Key::kung_fu_test_vector(), false);
    tables.apply_security(Security::full(), &mut rng());

    let mut data = State::two_one_nine_two_test_vector();
    tables.cipher(&mut data);
    assert_eq!(data, State::two_one_nine_two_aes128_kung_fu_test_vector());
}

#[test]
fn internal_encodings_inv() {
    let mut tables = Aes128Tables::from_key(Aes128Key::kung_fu_test_vector(), true);
    tables.apply_security(Security::full(), &mut rng());

    let mut data = State::two_one_nine_two_aes128_kung_fu_test_vector();
    tables.cipher(&mut data);
    assert_eq!(data, State::two_one_nine_two_test_vector());
}

#[test]
fn standard() {
    let round_keys = Aes128Key::kung_fu_test_vector().expand();

    let mut data = State::two_one_nine_two_test_vector();
    encrypt(&mut data, &round_keys);

    assert_eq!(data, State::two_one_nine_two_aes128_kung_fu_test_vector());

    decrypt(&mut data, &round_keys);

    assert_eq!(data, State::two_one_nine_two_test_vector());
}

#[test]
fn plain_tables_match_aes() {
    let tables = Aes128Tables::from_key(Aes128Key::kung_fu_test_vector(), false);
    let mut data = State::two_one_nine_two_test_vector();
    tables.cipher(&mut data);
    assert_eq!(data, State::two_one_nine_two_aes128_kung_fu_test_vector());

    let tables_inv = Aes128Tables::from_key(Aes128Key::kung_fu_test_vector(), true);
    tables_inv.cipher(&mut data);
    assert_eq!(data, State::two_one_nine_two_test_vector());
}

#[test]
fn mixing_bijections_only_match_aes() {
    let security = Security {
        mb: true,
        l: true,
        force_mbl: false,
        force_mbl_xor: false,
        force_xor: false,
        internal_encodings: false,
    };
    let mut tables = Aes128Tables::from_key(Aes128Key::kung_fu_test_vector(), false);
    tables.apply_security(security, &mut rng());
    let mut data = State::two_one_nine_two_test_vector();
    tables.cipher(&mut data);
    assert_eq!(data, State::two_one_nine_two_aes128_kung_fu_test_vector());
}

#[test]
fn internal_encodings_only_match_aes() {
    let security = Security {
        mb: false,
        l: false,
        force_mbl: false,
        force_mbl_xor: false,
        force_xor: false,
        internal_encodings: true,
    };
    let mut tables = Aes128Tables::from_key(Aes128Key::kung_fu_test_vector(), false);
    tables.apply_security(security, &mut rng());
    let mut data = State::two_one_nine_two_test_vector();
    tables.cipher(&mut data);
    assert_eq!(data, State::two_one_nine_two_aes128_kung_fu_test_vector());
}

#[test]
fn forced_tables_keep_the_cipher() {
    for (mb, l, internal) in [(false, false, false), (true, false, false), (false, true, true), (true, true, true)] {
        let security = Security {
            mb,
            l,
            force_mbl: true,
            force_mbl_xor: true,
            force_xor: true,
            internal_encodings: internal,
        };
        let mut tables = Aes128Tables::from_key(Aes128Key::kung_fu_test_vector(), true);
        tables.apply_security(security, &mut rng());
        let mut data = State::two_one_nine_two_aes128_kung_fu_test_vector();
        tables.cipher(&mut data);
        assert_eq!(data, State::two_one_nine_two_test_vector());
    }
}

#[test]
fn every_block_survives_full_security() {
    let plain = Aes128Tables::from_key(Aes128Key::kung_fu_test_vector(), false);
    let mut protected = Aes128Tables::from_key(Aes128Key::kung_fu_test_vector(), false);
    protected.apply_security(Security::full(), &mut rng());
    for k in 0..32u8 {
        let mut a = State::two_one_nine_two_test_vector();
        a.0[(k % 16) as usize] ^= k.wrapping_mul(37).wrapping_add(1);
        let mut b = a;
        plain.cipher(&mut a);
        protected.cipher(&mut b);
        assert_eq!(a, b);
    }
}
