use rand::rng;

use pykrete_wb::encoding::{apply_encoding, apply_linear_encoding, ExternalEncoding, LinearExternalEncoding};
use pykrete_wb::key::{Aes128Key, Aes256Key, RoundKeys};
use pykrete_wb::{RIArr, RoundKey, State, RI};

#[test]
fn key_bytes_roundtrip() {
    let key = Aes256Key::new([
        0x60, 0x3d, 0xeb, 0x10, 0x15, 0xca, 0x71, 0xbe, 0x2b, 0x73, 0xae, 0xf0, 0x85, 0x7d, 0x77, 0x81, 0x1f, 0x35,
        0x2c, 0x07, 0x3b, 0x61, 0x08, 0xd7, 0x2d, 0x98, 0x10, 0xa3, 0x09, 0x14, 0xdf, 0xf4,
    ]);
    let mut out = vec![0xaa];
    key.write_to(&mut out);
    assert_eq!(out.len(), 33);
    assert_eq!(out[0], 0xaa);
    assert_eq!(&out[1..5], &[0x60, 0x3d, 0xeb, 0x10]);
    let read = Aes256Key::read_from(&out[1..]).expect("32 bytes are enough");
    for i in 0..8 {
        assert_eq!(read.0[i].0, key.0[i].0);
    }
    assert!(Aes128Key::read_from(&out[..15]).is_none());
    assert!(Aes128Key::read_from(&out[..16]).is_some());
}

#[test]
fn round_key_bytes_roundtrip() {
    let k = RoundKey([1, 2, 3, 4, 5, 6, 7, 8, 9, 10, 11, 12, 13, 14, 15, 16]);
    let mut out = Vec::new();
    k.write_to(&mut out);
    assert_eq!(out, (1..=16).collect::<Vec<u8>>());
    assert_eq!(RoundKey::read_from(&out).unwrap().0, k.0);
    assert!(RoundKey::read_from(&out[..15]).is_none());
}

#[test]
fn round_keys_bytes_roundtrip() {
    let keys = Aes128Key::nist_cfb_e2().expand();
    let mut out = Vec::new();
    keys.write_to(&mut out);
    assert_eq!(out.len(), 176);
    // The first round key is the cipher key.
    assert_eq!(&out[..4], &[0x2b, 0x7e, 0x15, 0x16]);
    // The last round key of the FIPS-197 example schedule.
    assert_eq!(&out[160..], &[
        0xd0, 0x14, 0xf9, 0xa8, 0xc9, 0xee, 0x25, 0x89, 0xe1, 0x3f, 0x0c, 0xc8, 0xb6, 0x63, 0x0c, 0xa6
    ]);
    let read = RoundKeys::<9>::read_from(&out).unwrap();
    let mut again = Vec::new();
    read.write_to(&mut again);
    assert_eq!(again, out);
    assert!(RoundKeys::<9>::read_from(&out[..175]).is_none());
}

#[test]
fn random_round_keys_roundtrip() {
    let keys = RoundKeys::<13>::random(&mut rng());
    let mut out = Vec::new();
    keys.write_to(&mut out);
    assert_eq!(out.len(), 240);
    let mut again = Vec::new();
    RoundKeys::<13>::read_from(&out).unwrap().write_to(&mut again);
    assert_eq!(again, out);
}

#[test]
fn external_encoding_bytes_roundtrip() {
    let e = ExternalEncoding::random(&mut rng());
    let mut out = Vec::new();
    e.write_to(&mut out);
    assert_eq!(out.len(), 4096);
    let read = ExternalEncoding::read_from(&out).unwrap();
    for p in 0..16 {
        for x in 0..256 {
            assert_eq!(read.0[p].0 .0[x].0, e.0[p].0 .0[x].0);
        }
        let mut seen = [false; 256];
        for x in 0..256 {
            seen[out[256 * p + x] as usize] = true;
        }
        assert!(seen.iter().all(|s| *s), "each position is a permutation");
    }
    assert!(ExternalEncoding::read_from(&out[..4095]).is_none());
}

#[test]
fn identity_external_encoding_bytes() {
    let mut out = Vec::new();
    ExternalEncoding::identity().write_to(&mut out);
    for i in 0..4096 {
        assert_eq!(out[i] as usize, i % 256);
    }
}

#[test]
fn linear_encoding_bytes_roundtrip() {
    let e = LinearExternalEncoding::random(&mut rng());
    let mut out = Vec::new();
    e.write_to(&mut out);
    assert_eq!(out.len(), 2048);
    let read = LinearExternalEncoding::read_from(&out).unwrap();
    let mut again = Vec::new();
    read.write_to(&mut again);
    assert_eq!(again, out);
    assert!(LinearExternalEncoding::read_from(&out[..2047]).is_none());
}

#[test]
fn identity_linear_encoding_bytes() {
    let mut out = Vec::new();
    LinearExternalEncoding::identity().write_to(&mut out);
    for i in 0..128 {
        for b in 0..16 {
            let expected = if b == i / 8 { 0x80u8 >> (i % 8) } else { 0 };
            assert_eq!(out[16 * i + b], expected);
        }
    }
}

#[test]
fn linear_encoding_roundtrip() {
    let e = LinearExternalEncoding::random(&mut rng());
    let original = State([3, 1, 4, 1, 5, 9, 2, 6, 5, 3, 5, 8, 9, 7, 9, 3]);
    let mut s = original;
    apply_linear_encoding(&mut s, &e, false);
    apply_linear_encoding(&mut s, &e, true);
    assert_eq!(s.0, original.0);
    apply_linear_encoding(&mut s, &e, true);
    apply_linear_encoding(&mut s, &e, false);
    assert_eq!(s.0, original.0);
}

#[test]
fn identity_linear_encoding_keeps_state() {
    let e = LinearExternalEncoding::identity();
    let original = State([0xde, 0xad, 0xbe, 0xef, 0, 1, 2, 3, 4, 5, 6, 7, 8, 9, 10, 11]);
    let mut s = original;
    apply_linear_encoding(&mut s, &e, false);
    assert_eq!(s.0, original.0);
    apply_linear_encoding(&mut s, &e, true);
    assert_eq!(s.0, original.0);
}

#[test]
fn try_from_fn_collects_results() {
    let r = RIArr::<u8, 4>::try_from_fn(|ri: RI| -> Result<u8, ()> { Ok(ri.0 as u8 * 3) });
    assert_eq!(r.unwrap().0, [0, 3, 6, 9]);
}

#[test]
fn try_from_fn_stops_at_first_error() {
    let r = RIArr::<u8, 4>::try_from_fn(|ri: RI| -> Result<u8, usize> { if ri.0 >= 2 { Err(ri.0) } else { Ok(1) } });
    assert_eq!(r.unwrap_err(), 2);
}

#[test]
fn encoding_that_is_not_a_permutation_still_maps() {
    // every position maps each byte to its half: no permutation
    let bytes: Vec<u8> = (0..4096).map(|k| ((k % 256) / 2) as u8).collect();
    let e = ExternalEncoding::read_from(&bytes).unwrap();
    assert!(!e.is_valid());
    let mut s = State([0, 1, 2, 3, 4, 5, 6, 7, 200, 201, 202, 203, 254, 255, 100, 101]);
    apply_encoding(&mut s, &e, false);
    assert_eq!(s.0, [0, 0, 1, 1, 2, 2, 3, 3, 100, 100, 101, 101, 127, 127, 50, 50]);
}

#[test]
fn linear_encoding_written_back_is_the_same_bytes() {
    let bytes: Vec<u8> = (0..2048u32).map(|k| (k.wrapping_mul(2654435761) >> 13) as u8).collect();
    let e = LinearExternalEncoding::read_from(&bytes).unwrap();
    let mut out = Vec::new();
    e.write_to(&mut out);
    assert_eq!(out, bytes);
}
