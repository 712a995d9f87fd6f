//! The rounds of AES and of its dual ciphers, on the state.

use vstd::prelude::*;

use crate::consts::{gf_mul, gf_mul_pol_slow, inv_shift_rows_src, inv_shift_rows_tab, shift_rows, shift_rows_src, shift_rows_tab};
use crate::dual::{dual_q_rows, transformed_coeff, Dual, MixColCoeffs, Poly, Q};
use crate::key::RoundKeys;
use crate::mat::{rows_image, MatGF2};
use crate::sbox::{inverse_entry, sbox_table, PrecomputedSBox, SBox};
use crate::xor::ShiftRowsBijection;
use crate::{RoundKey, SColumn, SPos, State, X, RI, Column};

verus! {

/// AddRoundKey: every byte XORed with the byte of the key at the same position.
pub open spec fn ark_spec(s: Seq<u8>, k: Seq<u8>) -> Seq<u8> {
    Seq::new(16, |p: int| s[p] ^ k[p])
}

/// SubBytes with the substitution table `table`.
pub open spec fn sub_bytes_spec(s: Seq<u8>, table: Seq<u8>) -> Seq<u8> {
    Seq::new(16, |p: int| table[s[p] as int])
}

/// ShiftRows.
pub open spec fn shift_rows_spec(s: Seq<u8>) -> Seq<u8> {
    Seq::new(16, |p: int| s[shift_rows_src(p as nat) as int])
}

/// InvShiftRows.
pub open spec fn inv_shift_rows_spec(s: Seq<u8>) -> Seq<u8> {
    Seq::new(16, |p: int| s[inv_shift_rows_src(p as nat) as int])
}

/// Byte `row` of column `col` after MixColumns with the coefficients `c2`, `c3`.
pub open spec fn mix_byte(s: Seq<u8>, col: int, row: int, c2: u8, c3: u8, m: u16) -> u8 {
    let a = s[4 * col];
    let b = s[4 * col + 1];
    let c = s[4 * col + 2];
    let d = s[4 * col + 3];
    if row == 0 {
        gf_mul(a, c2, m) ^ gf_mul(b, c3, m) ^ c ^ d
    } else if row == 1 {
        a ^ gf_mul(b, c2, m) ^ gf_mul(c, c3, m) ^ d
    } else if row == 2 {
        a ^ b ^ gf_mul(c, c2, m) ^ gf_mul(d, c3, m)
    } else {
        gf_mul(a, c3, m) ^ b ^ c ^ gf_mul(d, c2, m)
    }
}

/// MixColumns with the given coefficients in GF(2)[x] / `m`.
pub open spec fn mix_columns_spec(s: Seq<u8>, co: MixColCoeffs, m: u16) -> Seq<u8> {
    Seq::new(16, |p: int| mix_byte(s, p / 4, p % 4, co.c2, co.c3, m))
}

/// Byte `row` of column `col` after InvMixColumns.
pub open spec fn inv_mix_byte(s: Seq<u8>, col: int, row: int, co: MixColCoeffs, m: u16) -> u8 {
    let a = s[4 * col];
    let b = s[4 * col + 1];
    let c = s[4 * col + 2];
    let d = s[4 * col + 3];
    if row == 0 {
        gf_mul(a, co.c14, m) ^ gf_mul(b, co.c11, m) ^ gf_mul(c, co.c13, m) ^ gf_mul(d, co.c9, m)
    } else if row == 1 {
        gf_mul(a, co.c9, m) ^ gf_mul(b, co.c14, m) ^ gf_mul(c, co.c11, m) ^ gf_mul(d, co.c13, m)
    } else if row == 2 {
        gf_mul(a, co.c13, m) ^ gf_mul(b, co.c9, m) ^ gf_mul(c, co.c14, m) ^ gf_mul(d, co.c11, m)
    } else {
        gf_mul(a, co.c11, m) ^ gf_mul(b, co.c13, m) ^ gf_mul(c, co.c9, m) ^ gf_mul(d, co.c14, m)
    }
}

/// InvMixColumns with the given coefficients in GF(2)[x] / `m`.
pub open spec fn inv_mix_columns_spec(s: Seq<u8>, co: MixColCoeffs, m: u16) -> Seq<u8> {
    Seq::new(16, |p: int| inv_mix_byte(s, p / 4, p % 4, co, m))
}

/// The MixColumns coefficients of the dual cipher `d`.
pub open spec fn dual_coeffs(d: Dual) -> MixColCoeffs {
    MixColCoeffs {
        c2: transformed_coeff(2, d),
        c3: transformed_coeff(3, d),
        c9: transformed_coeff(9, d),
        c11: transformed_coeff(11, d),
        c13: transformed_coeff(13, d),
        c14: transformed_coeff(14, d),
    }
}

/// Every byte of the state mapped into the representation of `d`.
pub open spec fn q_state_spec(s: Seq<u8>, d: Dual) -> Seq<u8> {
    Seq::new(16, |p: int| rows_image(dual_q_rows(d), s[p]))
}

/// The inner rounds `1 ..= r` of the encryption.
pub open spec fn enc_rounds<const N: usize>(s: Seq<u8>, rk: RoundKeys<N>, table: Seq<u8>, d: Dual, r: nat) -> Seq<u8>
    decreases r,
{
    if r == 0 {
        s
    } else {
        let s1 = enc_rounds(s, rk, table, d, (r - 1) as nat);
        ark_spec(
            mix_columns_spec(shift_rows_spec(sub_bytes_spec(s1, table)), dual_coeffs(d), d.poly.0),
            rk.round_spec(r as int).0@,
        )
    }
}

/// Encryption of the block `s` by the dual cipher `d` with substitution `table`.
pub open spec fn encrypt_spec<const N: usize>(s: Seq<u8>, rk: RoundKeys<N>, table: Seq<u8>, d: Dual) -> Seq<u8> {
    let s0 = ark_spec(q_state_spec(s, d), rk.round_spec(0).0@);
    let s1 = enc_rounds(s0, rk, table, d, N as nat);
    ark_spec(shift_rows_spec(sub_bytes_spec(s1, table)), rk.round_spec(N + 1).0@)
}

/// The inner rounds `N ..= r` of the decryption, from round `N` down to round `r`.
pub open spec fn dec_rounds<const N: usize>(s: Seq<u8>, rk: RoundKeys<N>, table: Seq<u8>, d: Dual, r: nat) -> Seq<u8>
    decreases N + 1 - r,
{
    if r > N || r == 0 {
        s
    } else {
        let s1 = dec_rounds(s, rk, table, d, r + 1);
        inv_mix_columns_spec(
            ark_spec(sub_bytes_spec(inv_shift_rows_spec(s1), table), rk.round_spec(r as int).0@),
            dual_coeffs(d),
            d.poly.0,
        )
    }
}

/// Decryption of the block `s` by the dual cipher `d`, before the bytes are
/// mapped back to the standard representation; `table` is the inverse substitution.
pub open spec fn decrypt_core_spec<const N: usize>(s: Seq<u8>, rk: RoundKeys<N>, table: Seq<u8>, d: Dual) -> Seq<u8> {
    let s0 = ark_spec(s, rk.round_spec(N + 1).0@);
    let s1 = dec_rounds(s0, rk, table, d, 1);
    ark_spec(sub_bytes_spec(inv_shift_rows_spec(s1), table), rk.round_spec(0).0@)
}

/// Decryption of the block `s` by the dual cipher `d`: the inverse rounds,
/// then every byte mapped back to the standard representation; `table` is
/// the inverse substitution.
pub open spec fn decrypt_spec<const N: usize>(s: Seq<u8>, rk: RoundKeys<N>, table: Seq<u8>, d: Dual) -> Seq<u8> {
    Seq::new(16, |p: int| crate::mat::rows_preimage(dual_q_rows(d), decrypt_core_spec(s, rk, table, d)[p]))
}

/// The inverse of the substitution table `table`.
pub open spec fn inverse_table(table: Seq<u8>) -> Seq<u8> {
    Seq::new(256, |y: int| inverse_entry(table, y as u8, 256))
}

/// AddRoundKey is its own inverse.
pub proof fn lemma_add_round_key_involution(s: Seq<u8>, k: Seq<u8>)
    requires
        s.len() == 16,
    ensures
        ark_spec(ark_spec(s, k), k) == s,
{
    assert forall|p: int| 0 <= p < 16 implies #[trigger] ark_spec(ark_spec(s, k), k)[p] == s[p] by {
        let a = s[p];
        let b = k[p];
        crate::lemma_xor_u8(a, b, 0);
    }
    assert(ark_spec(ark_spec(s, k), k) =~= s);
}

/// Performs the AddRoundKey step. Each byte of the state is XORed with the
/// byte of the round key at the same position; as a XOR, it is its own inverse.
pub fn add_round_key(state: &mut State, round_key: &RoundKey)
    ensures
        final(state).0@ == ark_spec(old(state).0@, round_key.0@),
{
    let id = ShiftRowsBijection::identity();
    add_shifted_round_key(state, round_key, &id);
    assert(state.0@ =~= ark_spec(old(state).0@, round_key.0@)) by {
        assert forall|p: int| 0 <= p < 16 implies state.0[p] == old(state).0[p] ^ round_key.0[p] by {
            assert(id.map_spec(p as nat) == p);
        }
    }
}

/// AddRoundKey with the key bytes permuted: position `p` takes the key byte at `shift.map(p)`.
pub fn add_shifted_round_key(state: &mut State, round_key: &RoundKey, shift: &ShiftRowsBijection)
    requires
        shift.wf(),
    ensures
        forall|p: int| 0 <= p < 16 ==> #[trigger] final(state).0[p] == old(state).0[p] ^ round_key.0[shift.map_spec(p as nat) as int],
{
    let mut i: usize = 0;
    while i < 16
        invariant
            i <= 16,
            shift.wf(),
            forall|p: int| 0 <= p < i ==> #[trigger] state.0[p] == old(state).0[p] ^ round_key.0[shift.map_spec(p as nat) as int],
            forall|p: int| i <= p < 16 ==> state.0[p] == old(state).0[p],
        decreases 16 - i,
    {
        let pos = SPos::from_index(i);
        let src = shift.map(pos);
        state.0[i] = state.0[i] ^ round_key.0[src.as_index()];
        i += 1;
    }
}


/// SubBytes with the substitution `sbox`.
pub fn sub_bytes<S: SBox>(sbox: S, state: &mut State)
    ensures
        final(state).0@ == sub_bytes_spec(old(state).0@, sbox_table(sbox)),
{
    let mut i: usize = 0;
    while i < 16
        invariant
            i <= 16,
            forall|p: int| 0 <= p < i ==> #[trigger] state.0[p] == sbox.sub_spec(old(state).0[p]),
            forall|p: int| i <= p < 16 ==> state.0[p] == old(state).0[p],
        decreases 16 - i,
    {
        state.0[i] = sbox.sub_byte(X(state.0[i])).0;
        i += 1;
    }
    assert(state.0@ =~= sub_bytes_spec(old(state).0@, sbox_table(sbox)));
}

fn gf_mul_x(a: u8, b: u8, poly: Poly) -> (r: u8)
    requires
        poly.0 != 0,
        poly.0 < 512,
    ensures
        r == gf_mul(a, b, poly.0),
{
    proof {
        crate::dual::lemma_gf_mul_byte(a, b, poly.0);
    }
    gf_mul_pol_slow(a, b, poly)
}

/// MixColumns with the given coefficients in GF(2)[x] / `poly`.
pub fn mix_columns(state: &mut State, coeffs: &MixColCoeffs, poly: Poly)
    requires
        poly.0 != 0,
        poly.0 < 512,
    ensures
        final(state).0@ == mix_columns_spec(old(state).0@, *coeffs, poly.0),
{
    let mut col: usize = 0;
    while col < 4
        invariant
            col <= 4,
            poly.0 != 0,
            poly.0 < 512,
            forall|p: int| 0 <= p < 4 * col ==> #[trigger] state.0[p] == mix_byte(old(state).0@, p / 4, p % 4, coeffs.c2, coeffs.c3, poly.0),
            forall|p: int| 4 * col <= p < 16 ==> state.0[p] == old(state).0[p],
        decreases 4 - col,
    {
        let c = SColumn::from_index(col);
        let cur = state.get_column(c);
        let a = cur.0[0];
        let b = cur.0[1];
        let cc = cur.0[2];
        let d = cur.0[3];
        let n0 = gf_mul_x(a, coeffs.c2, poly) ^ gf_mul_x(b, coeffs.c3, poly) ^ cc ^ d;
        let n1 = a ^ gf_mul_x(b, coeffs.c2, poly) ^ gf_mul_x(cc, coeffs.c3, poly) ^ d;
        let n2 = a ^ b ^ gf_mul_x(cc, coeffs.c2, poly) ^ gf_mul_x(d, coeffs.c3, poly);
        let n3 = gf_mul_x(a, coeffs.c3, poly) ^ b ^ cc ^ gf_mul_x(d, coeffs.c2, poly);
        state.set_column(c, Column([n0, n1, n2, n3]));
        col += 1;
    }
    assert(state.0@ =~= mix_columns_spec(old(state).0@, *coeffs, poly.0));
}

/// InvMixColumns with the given coefficients in GF(2)[x] / `poly`.
pub fn mix_columns_inv(state: &mut State, coeffs: &MixColCoeffs, poly: Poly)
    requires
        poly.0 != 0,
        poly.0 < 512,
    ensures
        final(state).0@ == inv_mix_columns_spec(old(state).0@, *coeffs, poly.0),
{
    let mut col: usize = 0;
    while col < 4
        invariant
            col <= 4,
            poly.0 != 0,
            poly.0 < 512,
            forall|p: int| 0 <= p < 4 * col ==> #[trigger] state.0[p] == inv_mix_byte(old(state).0@, p / 4, p % 4, *coeffs, poly.0),
            forall|p: int| 4 * col <= p < 16 ==> state.0[p] == old(state).0[p],
        decreases 4 - col,
    {
        let c = SColumn::from_index(col);
        let cur = state.get_column(c);
        let a = cur.0[0];
        let b = cur.0[1];
        let cc = cur.0[2];
        let d = cur.0[3];
        let n0 = gf_mul_x(a, coeffs.c14, poly) ^ gf_mul_x(b, coeffs.c11, poly) ^ gf_mul_x(cc, coeffs.c13, poly) ^ gf_mul_x(d, coeffs.c9, poly);
        let n1 = gf_mul_x(a, coeffs.c9, poly) ^ gf_mul_x(b, coeffs.c14, poly) ^ gf_mul_x(cc, coeffs.c11, poly) ^ gf_mul_x(d, coeffs.c13, poly);
        let n2 = gf_mul_x(a, coeffs.c13, poly) ^ gf_mul_x(b, coeffs.c9, poly) ^ gf_mul_x(cc, coeffs.c14, poly) ^ gf_mul_x(d, coeffs.c11, poly);
        let n3 = gf_mul_x(a, coeffs.c11, poly) ^ gf_mul_x(b, coeffs.c13, poly) ^ gf_mul_x(cc, coeffs.c9, poly) ^ gf_mul_x(d, coeffs.c14, poly);
        state.set_column(c, Column([n0, n1, n2, n3]));
        col += 1;
    }
    assert(state.0@ =~= inv_mix_columns_spec(old(state).0@, *coeffs, poly.0));
}

fn shift_rows_fwd(state: &mut State)
    ensures
        final(state).0@ == shift_rows_spec(old(state).0@),
{
    let tab = shift_rows_tab();
    shift_rows(state, &tab);
    assert(state.0@ =~= shift_rows_spec(old(state).0@));
}

fn shift_rows_inv(state: &mut State)
    ensures
        final(state).0@ == inv_shift_rows_spec(old(state).0@),
{
    let tab = inv_shift_rows_tab();
    shift_rows(state, &tab);
    assert(state.0@ =~= inv_shift_rows_spec(old(state).0@));
}

/// Encrypts a block with standard AES.
pub fn encrypt<const RNM1: usize>(state: &mut State, rk: &RoundKeys<RNM1>)
    requires
        RNM1 + 1 <= usize::MAX,
    ensures
        final(state).0@ == encrypt_spec(old(state).0@, *rk, crate::sbox::standard_sbox_table(), crate::dual::standard_dual()),
{
    let sbox = PrecomputedSBox::aes_standard();
    assert(sbox_table(&sbox) =~= sbox_table(sbox));
    encrypt_nonstandard(&sbox, state, rk, Dual::standard());
}

/// Encrypts a block with the dual cipher `dual` and the substitution `sbox`.
/// The block is first mapped into the dual representation.
pub fn encrypt_nonstandard<S: SBox + Copy, const RNM1: usize>(sbox: S, state: &mut State, rk: &RoundKeys<RNM1>, dual: Dual)
    requires
        dual.wf(),
        RNM1 + 1 <= usize::MAX,
    ensures
        final(state).0@ == encrypt_spec(old(state).0@, *rk, sbox_table(sbox), dual),
{
    let coeffs = MixColCoeffs::for_dual(dual);
    let poly = dual.poly;
    let ghost table = sbox_table(sbox);
    let q = Q::for_dual(dual);
    state.apply_q(q);
    proof {
        assert forall|p: int| 0 <= p < 16 implies #[trigger] state.0[p] == q_state_spec(old(state).0@, dual)[p] by {
            q.0.lemma_image_rows(old(state).0[p]);
        }
        assert(state.0@ =~= q_state_spec(old(state).0@, dual));
    }
    add_round_key(state, &rk.round(RI(0)));
    let ghost s0 = state.0@;
    assert(coeffs == dual_coeffs(dual));
    let mut r: usize = 1;
    while r <= RNM1
        invariant
            1 <= r <= RNM1 + 1,
            RNM1 + 1 <= usize::MAX,
            dual.wf(),
            poly == dual.poly,
            coeffs == dual_coeffs(dual),
            table == sbox_table(sbox),
            state.0@ == enc_rounds(s0, *rk, table, dual, (r - 1) as nat),
        decreases RNM1 + 1 - r,
    {
        sub_bytes(sbox, state);
        shift_rows_fwd(state);
        mix_columns(state, &coeffs, poly);
        add_round_key(state, &rk.round(RI(r)));
        r += 1;
    }
    sub_bytes(sbox, state);
    shift_rows_fwd(state);
    add_round_key(state, &rk.round(RI(RNM1 + 1)));
}

/// Decrypts a block with standard AES.
pub fn decrypt<const RNM1: usize>(state: &mut State, rk: &RoundKeys<RNM1>)
    requires
        RNM1 + 1 <= usize::MAX,
    ensures
        exists|q: MatGF2<8>, b: MatGF2<8>|
            q.rows() == dual_q_rows(crate::dual::standard_dual()) && b.is_left_inverse_of(q) && forall|p: int|
                0 <= p < 16 ==> #[trigger] final(state).0[p] == b.image(
                    decrypt_core_spec(old(state).0@, *rk, inverse_table(crate::sbox::standard_sbox_table()), crate::dual::standard_dual())[p],
                ),
{
    let sbox = PrecomputedSBox::aes_standard();
    assert(sbox_table(&sbox) =~= sbox_table(sbox));
    decrypt_nonstandard(&sbox, state, rk, Dual::standard());
}

/// Decrypts a block with the dual cipher `dual` and the substitution `sbox`;
/// the result is mapped back to the standard representation, which needs
/// the map of `dual` to be invertible.
pub fn decrypt_nonstandard<S: SBox + Copy, const RNM1: usize>(sbox: S, state: &mut State, rk: &RoundKeys<RNM1>, config: Dual)
    requires
        config.wf(),
        config.invertible(),
        RNM1 + 1 <= usize::MAX,
    ensures
        exists|q: MatGF2<8>, b: MatGF2<8>|
            q.rows() == dual_q_rows(config) && b.is_left_inverse_of(q) && forall|p: int|
                0 <= p < 16 ==> #[trigger] final(state).0[p] == b.image(
                    decrypt_core_spec(old(state).0@, *rk, inverse_table(sbox_table(sbox)), config)[p],
                ),
{
    let inv_sbox = PrecomputedSBox::inversed(&sbox);
    let ghost table = sbox_table(inv_sbox);
    assert(sbox_table(&sbox) =~= sbox_table(sbox));
    assert(table =~= inverse_table(sbox_table(sbox)));
    let coeffs = MixColCoeffs::for_dual(config);
    let poly = config.poly;
    add_round_key(state, &rk.round(RI(RNM1 + 1)));
    let ghost s0 = state.0@;
    let mut r: usize = RNM1;
    while r >= 1
        invariant
            r <= RNM1,
            RNM1 + 1 <= usize::MAX,
            config.wf(),
            poly == config.poly,
            coeffs == dual_coeffs(config),
            table == sbox_table(inv_sbox),
            state.0@ == dec_rounds(s0, *rk, table, config, (r + 1) as nat),
        decreases r,
    {
        shift_rows_inv(state);
        sub_bytes(&inv_sbox, state);
        add_round_key(state, &rk.round(RI(r)));
        mix_columns_inv(state, &coeffs, poly);
        proof {
            assert(sbox_table(&inv_sbox) =~= table);
        }
        r -= 1;
    }
    shift_rows_inv(state);
    sub_bytes(inv_sbox, state);
    add_round_key(state, &rk.round(RI(0)));
    let ghost core = state.0@;
    assert(core == decrypt_core_spec(old(state).0@, *rk, inverse_table(sbox_table(sbox)), config));
    let q = Q::for_dual(config);
    state.apply_q_inv(q);
}

} // verus!
