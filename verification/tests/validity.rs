use rand::rng;

use pykrete_wb::dual::{irreducible_polynomials, Dual};
use pykrete_wb::encoding::{Bijection8, ExternalEncoding};
use pykrete_wb::karroumi::{Dual4, KarroumiConfig, KarroumiConfig4};
use pykrete_wb::{XArr, X};

#[test]
fn every_listed_dual_is_valid() {
    let polys = irreducible_polynomials();
    for (i, poly) in polys.iter().enumerate() {
        for square_power in 0..8 {
            assert!(Dual::new(*poly, square_power).is_valid(), "dual {}", i * 8 + square_power);
        }
    }
    assert!(Dual::standard().is_valid());
}

#[test]
fn random_karroumi_configs_are_valid() {
    assert!(KarroumiConfig::<9>::random(&mut rng()).is_valid());
    assert!(KarroumiConfig4::<9>::random(&mut rng()).is_valid());
    assert!(Dual4::random(&mut rng()).is_valid());
    assert!(Dual4::uniform(Dual::standard()).is_valid());
}

#[test]
fn encodings_are_checked_for_permutations() {
    assert!(ExternalEncoding::identity().is_valid());
    assert!(ExternalEncoding::random(&mut rng()).is_valid());
    let mut entries = [X(0); 256];
    for (i, e) in entries.iter_mut().enumerate() {
        *e = X(i as u8);
    }
    assert!(Bijection8(XArr(entries)).is_valid());
    entries[7] = X(8);
    assert!(!Bijection8(XArr(entries)).is_valid());
    let mut e = ExternalEncoding::identity();
    e.0[3] = Bijection8(XArr(entries));
    assert!(!e.is_valid());
}
