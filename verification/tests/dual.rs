use pykrete_wb::consts::gf_mul_pol_slow;
use pykrete_wb::dual::{
    compute_rcon, initial_generators, irreducible_polynomials, make_g, Dual, MixColCoeffs, Poly, Q,
};
use pykrete_wb::key::{expand_nonstandard_keys, Aes128Key, RoundKeys};
use pykrete_wb::mat::MatGF2;
use pykrete_wb::sbox::{PrecomputedSBox, SBox};
use pykrete_wb::{decrypt_nonstandard, encrypt_nonstandard, State, X};

#[test]
fn dual() {
    let mut cur = 1;

    for i in 0..255 {
        println!("g[{i}] = {cur:x?}");
        cur = gf_mul_pol_slow(cur, 3, irreducible_polynomials()[0])
    }
}

#[test]
fn poly_basic_math() {
    assert_eq!(Poly(0b11).mul(Poly(0b101)), Poly(0b1111));
    assert_eq!(Poly(0b101).mul(Poly(0b1010)), Poly(0b100010));

    assert_eq!(Poly(0b101).divmod(Poly(0b11)), (Poly(0b11), Poly(0)));
    assert_eq!(Poly(0b1010).divmod(Poly(0b101)), (Poly(0b10), Poly(0)));
}

#[test]
fn generators() {
    let g = make_g(initial_generators()[0], irreducible_polynomials()[0]);
    for i in 0..256 {
        println!("g[{i}] = {}", g.0[i]);
    }
}

#[test]
fn squaring_matrix_standard() {
    let poly = irreducible_polynomials()[0];
    let q = poly.squaring_matrix();

    for x in 0..=255u8 {
        let squared = Poly(x as u16).mulmod(Poly(x as u16), poly);
        let via_matrix = q.apply(x);
        assert_eq!(squared, Poly(via_matrix as u16));
    }
}

#[test]
fn matrix_inverse() {
    let q = irreducible_polynomials()[0].squaring_matrix();
    let q_inv = q.inverse().expect("Q should be invertible");

    for x in 0..=255u8 {
        let qx = q.apply(x);
        let back = q_inv.apply(qx);
        assert_eq!(back, x, "Q^{{-1}}(Q(x)) == x");
    }
}

#[test]
fn dual_cipher_equivalence() {
    let poly = irreducible_polynomials()[0];

    let q = poly.squaring_matrix();
    let _q_inv = q.inverse().unwrap();

    let config = Dual::new(poly, 1);
    let dual_sbox = PrecomputedSBox::for_dual(config);
    let standard_sbox = PrecomputedSBox::for_dual(Dual::standard());

    for x in 0..=255u8 {
        let x = X(x);
        let standard_out = standard_sbox.sub_byte(x);
        let squared_standard_out = q.apply(standard_out.0);

        let squared_x = q.apply(x.0);
        let dual_out = dual_sbox.sub_byte(X(squared_x));

        assert_eq!(squared_standard_out, dual_out.0, "S^2(Q*x) == Q*S(x)");
    }
}

#[test]
fn mixcol_coeffs_squared() {
    let poly = irreducible_polynomials()[0];

    let c2_squared = Poly(0x02).mulmod(Poly(0x02), poly);
    assert_eq!(c2_squared, Poly(0x04));

    let c3_squared = Poly(0x03).mulmod(Poly(0x03), poly);
    assert_eq!(c3_squared, Poly(0x05));

    let config = Dual::new(poly, 1);
    let coeffs = MixColCoeffs::for_dual(config);
    assert_eq!(coeffs.c2, 0x04);
    assert_eq!(coeffs.c3, 0x05);
}

#[test]
fn standard_rcon() {
    let expected_rcons: [u8; 10] = [0x01, 0x02, 0x04, 0x08, 0x10, 0x20, 0x40, 0x80, 0x1b, 0x36];
    for (i, &expected) in expected_rcons.iter().enumerate() {
        let computed = compute_rcon(i + 1, Dual::standard());
        assert_eq!(computed, expected);
    }
}

#[test]
fn q8_is_identity() {
    let q = irreducible_polynomials()[0].squaring_matrix();
    let mut q_power = MatGF2::identity();
    for _ in 0..8 {
        q_power = q_power.compose(&q);
    }

    for x in 0..=255u8 {
        assert_eq!(q_power.apply(x), x, "Frobenius identity");
    }
}

#[test]
fn all_square_duals() {
    for square_power in 1..8 {
        let dual = Dual::new(irreducible_polynomials()[0], square_power);

        let key = Aes128Key::new([0x2b; 16]);
        let standard_rk = key.expand();
        let dual_sbox = PrecomputedSBox::for_dual(dual);
        let dual_rk = expand_nonstandard_keys::<_, 4, 9>(&dual_sbox, Aes128Key::new([0x2b; 16]), dual);

        let mut standard_data = State::from_bytes([0x32; 16]);
        encrypt_nonstandard(
            &PrecomputedSBox::aes_standard(),
            &mut standard_data,
            &standard_rk,
            Dual::standard(),
        );

        let q = Q::for_dual(dual);
        standard_data.apply_q(q);

        let mut dual_data = State::from_bytes([0x32; 16]);
        encrypt_nonstandard(&dual_sbox, &mut dual_data, &dual_rk, dual);

        assert_eq!(standard_data, dual_data, "equivalence fail");
    }
}

#[test]
fn q8_cycles_back() {
    let q = irreducible_polynomials()[0].squaring_matrix();
    let mut transform = MatGF2::identity();
    for _ in 0..8 {
        transform = transform.compose(&q);
    }

    for x in 0..=255u8 {
        assert_eq!(transform.apply(x), x, "should be identity");
    }
}

#[test]
fn dual_roundtrip_nonwhitebox() {
    let dual = Dual::new(irreducible_polynomials()[0], 1);

    let dual_rk = expand_nonstandard_keys::<_, 4, 9>(
        &PrecomputedSBox::for_dual(dual),
        Aes128Key::kung_fu_test_vector(),
        dual,
    );
    let dual_sbox = PrecomputedSBox::for_dual(dual);

    let original = State::two_one_nine_two_test_vector();
    let mut data = original;

    encrypt_nonstandard(&dual_sbox, &mut data, &dual_rk, dual);
    {
        let q = Q::for_dual(dual);
        let mut standard_data = data;
        standard_data.apply_q_inv(q);

        let mut standard_data_comparison = State::two_one_nine_two_test_vector();
        let normal_rk: RoundKeys<9> = expand_nonstandard_keys(
            &PrecomputedSBox::aes_standard(),
            Aes128Key::kung_fu_test_vector(),
            Dual::standard(),
        );
        encrypt_nonstandard(
            &PrecomputedSBox::aes_standard(),
            &mut standard_data_comparison,
            &normal_rk,
            Dual::standard(),
        );

        assert_eq!(standard_data_comparison, standard_data);
    }
    decrypt_nonstandard(&dual_sbox, &mut data, &dual_rk, dual);

    assert_eq!(data, original);
}

#[test]
fn multiplication_distributes_over_xor() {
    for &m in irreducible_polynomials().iter().take(4) {
        for a in (0..=255u8).step_by(7) {
            for b in (0..=255u8).step_by(11) {
                for c in [1u8, 2, 3, 9, 11, 13, 14, 0x53, 0xca] {
                    assert_eq!(
                        gf_mul_pol_slow(a ^ b, c, m),
                        gf_mul_pol_slow(a, c, m) ^ gf_mul_pol_slow(b, c, m)
                    );
                }
            }
        }
    }
}

#[test]
fn delta_carries_one_representation_to_the_other() {
    let polys = irreducible_polynomials();
    let a = Dual::new(polys[3], 2);
    let b = Dual::new(polys[17], 5);
    assert!(a.is_valid() && b.is_valid());
    let delta = a.delta(b);
    let qa = Q::for_dual(a);
    let qb = Q::for_dual(b);
    for x in 0..=255u8 {
        assert_eq!(delta.0.apply(qa.apply(X(x)).0), qb.apply(X(x)).0);
    }
}
