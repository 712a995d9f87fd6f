//! What the tables compute before any protection is added: the cipher they
//! were built from, round by round.

use vstd::prelude::*;

use crate::aes::{
    ark_spec, dec_rounds, decrypt_core_spec, decrypt_spec, dual_coeffs, enc_rounds, encrypt_spec, inv_mix_byte, inv_mix_columns_spec, inv_shift_rows_spec, inverse_table,
    mix_byte, mix_columns_spec, q_state_spec, shift_rows_spec, sub_bytes_spec,
};
use crate::consts::{inv_shift_rows_src, lemma_shift_rows_inverse, shift_rows_src};
use crate::dual::{dual_q_rows, Dual};
use crate::key::RoundKeys;
use crate::mat::{rows_image, MatGF2};
use crate::tables::{col_rows, step_byte, step_spec, Tables};
use crate::tbox::Tboxes;
use crate::ty::{ty_forward_entry, ty_inverse_entry, Ty};

verus! {

/// Entry `v` of the row that byte `x` selects at position `q` of the
/// round-`r` tyboxes: MixColumns applied to the substituted, keyed byte.
proof fn lemma_tybox_entry<const NRM1: usize>(
    t: Tables<NRM1>,
    tb: Tboxes<NRM1>,
    ty: Ty,
    table: Seq<u8>,
    rk: RoundKeys<NRM1>,
    dual: Dual,
    r: int,
    q: int,
    x: u8,
    v: int,
)
    requires
        t.built_from(tb, ty, table, rk, false, dual),
        0 <= r < NRM1,
        0 <= q < 16,
        0 <= v < 4,
    ensures
        t.tyboxes.0.0[r].0[q].0[x as int].0[v] == ty_forward_entry(
            table[((if r == 0 { rows_image(dual_q_rows(dual), x) } else { x }) ^ rk.rounds.0[r].0[shift_rows_src(q as nat) as int]) as int],
            q % 4,
            v,
            dual_coeffs(dual),
            dual.poly.0,
        ),
{
    let xi = if r == 0 {
        rows_image(dual_q_rows(dual), x) as int
    } else {
        x as int
    };
    assert(t.tyboxes.0.0[r].0[q].0[x as int].0 == ty.0[q % 4][tb.tboxes.0[r].entry(xi, q) as int]);
    assert(tb.tboxes.0[r].entry(xi, q) == table[(xi as u8 ^ rk.rounds.0[r].0[shift_rows_src(q as nat) as int]) as int]);
}

/// The tyboxes of round `r` hold, for every position and byte, MixColumns
/// of the substituted byte after the round key (for the first round, of the
/// byte mapped into the dual representation).
pub open spec fn tyboxes_forward<const NRM1: usize>(t: Tables<NRM1>, table: Seq<u8>, rk: RoundKeys<NRM1>, dual: Dual, r: int) -> bool {
    forall|q: int, x: u8, v: int|
        0 <= q < 16 && 0 <= v < 4 ==> #[trigger] t.tyboxes.0.0[r].0[q].0[x as int].0[v] == ty_forward_entry(
            table[((if r == 0 { rows_image(dual_q_rows(dual), x) } else { x }) ^ rk.rounds.0[r].0[shift_rows_src(q as nat) as int]) as int],
            q % 4,
            v,
            dual_coeffs(dual),
            dual.poly.0,
        )
}

/// One round of tables built for encryption, without protections, is one
/// round of the cipher: AddRoundKey, SubBytes, ShiftRows and MixColumns,
/// the first round on the block mapped into the dual representation.
#[verifier::spinoff_prover]
proof fn lemma_plain_round<const NRM1: usize>(t: Tables<NRM1>, table: Seq<u8>, rk: RoundKeys<NRM1>, dual: Dual, r: int, data: Seq<u8>)
    requires
        tyboxes_forward(t, table, rk, dual, r),
        !t.inv,
        !t.uses_xor,
        !t.uses_mbl,
        0 <= r < NRM1,
        data.len() == 16,
    ensures
        t.round_spec(r, data) == mix_columns_spec(
            shift_rows_spec(sub_bytes_spec(ark_spec(if r == 0 { q_state_spec(data, dual) } else { data }, rk.round_spec(r).0@), table)),
            dual_coeffs(dual),
            dual.poly.0,
        ),
{
    let d1 = shift_rows_spec(data);
    let work = t.tyboxes.0.0[r];
    let dd = if r == 0 {
        q_state_spec(data, dual)
    } else {
        data
    };
    let k = rk.round_spec(r).0@;
    let co = dual_coeffs(dual);
    let m = dual.poly.0;
    let s = shift_rows_spec(sub_bytes_spec(ark_spec(dd, k), table));
    let lhs = t.round_spec(r, data);
    let rhs = mix_columns_spec(s, co, m);
    assert(lhs == step_spec(work, None, d1));
    assert forall|p: int| 0 <= p < 16 implies lhs[p] == rhs[p] by {
        let col = p / 4;
        let v = p % 4;
        let rows = col_rows(work, d1, col);
        assert forall|j: int| 0 <= j < 4 implies #[trigger] rows[j][v] == ty_forward_entry(s[4 * col + j], j, v, co, m) by {
            let q = 4 * col + j;
            lemma_shift_rows_inverse(q as nat);
            let src = shift_rows_src(q as nat) as int;
            let x = d1[q];
            assert(x == data[src]);
            assert(work.0[q].0[x as int].0[v] == ty_forward_entry(
                table[((if r == 0 { rows_image(dual_q_rows(dual), x) } else { x }) ^ rk.rounds.0[r].0[src]) as int],
                q % 4,
                v,
                co,
                m,
            ));
            assert(q % 4 == j);
            assert(k == rk.rounds.0[r].0@);
            assert(s[q] == table[(dd[src] ^ k[src]) as int]);
        }
        assert(rows[0][v] == ty_forward_entry(s[4 * col], 0, v, co, m));
        assert(rows[1][v] == ty_forward_entry(s[4 * col + 1], 1, v, co, m));
        assert(rows[2][v] == ty_forward_entry(s[4 * col + 2], 2, v, co, m));
        assert(rows[3][v] == ty_forward_entry(s[4 * col + 3], 3, v, co, m));
        assert(lhs[p] == step_byte(work, None, d1, col, v));
        assert(rhs[p] == mix_byte(s, col, v, co.c2, co.c3, m));
    }
    assert(lhs =~= rhs);
}

/// Tables built for encryption hold, in every round, the forward tyboxes.
proof fn lemma_built_tyboxes<const NRM1: usize>(
    t: Tables<NRM1>,
    tb: Tboxes<NRM1>,
    ty: Ty,
    table: Seq<u8>,
    rk: RoundKeys<NRM1>,
    dual: Dual,
    r: int,
)
    requires
        t.built_from(tb, ty, table, rk, false, dual),
        0 <= r < NRM1,
    ensures
        tyboxes_forward(t, table, rk, dual, r),
{
    assert forall|q: int, x: u8, v: int| 0 <= q < 16 && 0 <= v < 4 implies #[trigger] t.tyboxes.0.0[r].0[q].0[x as int].0[v] == ty_forward_entry(
        table[((if r == 0 { rows_image(dual_q_rows(dual), x) } else { x }) ^ rk.rounds.0[r].0[shift_rows_src(q as nat) as int]) as int],
        q % 4,
        v,
        dual_coeffs(dual),
        dual.poly.0,
    ) by {
        lemma_tybox_entry(t, tb, ty, table, rk, dual, r, q, x, v);
    }
}

/// After `r` rounds the tables hold MixColumns, ShiftRows and SubBytes of
/// the cipher state after `r - 1` rounds, before its round key.
proof fn lemma_plain_rounds<const NRM1: usize>(
    t: Tables<NRM1>,
    tb: Tboxes<NRM1>,
    ty: Ty,
    table: Seq<u8>,
    rk: RoundKeys<NRM1>,
    dual: Dual,
    data: Seq<u8>,
    r: nat,
)
    requires
        t.built_from(tb, ty, table, rk, false, dual),
        !t.inv,
        !t.uses_xor,
        !t.uses_mbl,
        1 <= r <= NRM1,
        data.len() == 16,
    ensures
        t.rounds_spec(data, r) == mix_columns_spec(
            shift_rows_spec(sub_bytes_spec(enc_rounds(ark_spec(q_state_spec(data, dual), rk.round_spec(0).0@), rk, table, dual, (r - 1) as nat), table)),
            dual_coeffs(dual),
            dual.poly.0,
        ),
    decreases r,
{
    let a0 = ark_spec(q_state_spec(data, dual), rk.round_spec(0).0@);
    if r == 1 {
        lemma_built_tyboxes(t, tb, ty, table, rk, dual, 0);
        lemma_plain_round(t, table, rk, dual, 0, data);
        assert(t.rounds_spec(data, 0) == data);
    } else {
        lemma_plain_rounds(t, tb, ty, table, rk, dual, data, (r - 1) as nat);
        let tr = t.rounds_spec(data, (r - 1) as nat);
        lemma_built_tyboxes(t, tb, ty, table, rk, dual, r - 1);
        lemma_plain_round(t, table, rk, dual, r - 1, tr);
        assert(enc_rounds(a0, rk, table, dual, (r - 1) as nat) == ark_spec(tr, rk.round_spec(r - 1).0@));
    }
}

/// Tables built for encryption, without protections, compute the cipher
/// they were built from: for every block, `cipher_spec` is the encryption
/// by the dual cipher with the round keys and the substitution.
pub proof fn lemma_plain_tables_encrypt<const NRM1: usize>(
    t: Tables<NRM1>,
    tb: Tboxes<NRM1>,
    ty: Ty,
    table: Seq<u8>,
    rk: RoundKeys<NRM1>,
    dual: Dual,
    data: Seq<u8>,
)
    requires
        t.built_from(tb, ty, table, rk, false, dual),
        !t.inv,
        !t.uses_xor,
        !t.uses_mbl,
        NRM1 >= 1,
        data.len() == 16,
    ensures
        t.cipher_spec(data) == encrypt_spec(data, rk, table, dual),
{
    let n = NRM1 as nat;
    lemma_plain_rounds(t, tb, ty, table, rk, dual, data, n);
    let tn = t.rounds_spec(data, n);
    let a0 = ark_spec(q_state_spec(data, dual), rk.round_spec(0).0@);
    assert(enc_rounds(a0, rk, table, dual, n) == ark_spec(tn, rk.round_spec(NRM1 as int).0@));
    let lhs = t.cipher_spec(data);
    let rhs = encrypt_spec(data, rk, table, dual);
    assert forall|p: int| 0 <= p < 16 implies lhs[p] == rhs[p] by {
        lemma_shift_rows_inverse(p as nat);
        let src = shift_rows_src(p as nat) as int;
        assert(t.tboxes_last == tb.last);
        assert(tb.last.entry(shift_rows_spec(tn)[p] as int, p) == table[(shift_rows_spec(tn)[p] ^ rk.last.0.0[src]) as int] ^ rk.last.1.0[p]);
    }
    assert(lhs =~= rhs);
}

/// The byte that the round-`r` T-box of decryption gives `x` at position `q`.
pub open spec fn inverse_tbox_byte<const NRM1: usize>(itable: Seq<u8>, rk: RoundKeys<NRM1>, r: int, q: int, x: u8) -> u8 {
    if r == 0 {
        itable[(x ^ rk.last.1.0[inv_shift_rows_src(q as nat) as int]) as int] ^ rk.last.0.0[q]
    } else {
        itable[x as int] ^ rk.rounds.0[NRM1 - r].0[q]
    }
}

/// The tyboxes of round `r` hold, for every position and byte,
/// InvMixColumns of the byte after InvSubBytes and the round key.
pub open spec fn tyboxes_inverse<const NRM1: usize>(t: Tables<NRM1>, itable: Seq<u8>, rk: RoundKeys<NRM1>, dual: Dual, r: int) -> bool {
    forall|q: int, x: u8, v: int|
        0 <= q < 16 && 0 <= v < 4 ==> #[trigger] t.tyboxes.0.0[r].0[q].0[x as int].0[v] == ty_inverse_entry(
            inverse_tbox_byte(itable, rk, r, q, x),
            q % 4,
            v,
            dual_coeffs(dual),
            dual.poly.0,
        )
}

/// Tables built for decryption hold, in every round, the inverse tyboxes.
proof fn lemma_built_tyboxes_inverse<const NRM1: usize>(
    t: Tables<NRM1>,
    tb: Tboxes<NRM1>,
    ty: Ty,
    table: Seq<u8>,
    rk: RoundKeys<NRM1>,
    dual: Dual,
    r: int,
)
    requires
        t.built_from(tb, ty, table, rk, true, dual),
        0 <= r < NRM1,
    ensures
        tyboxes_inverse(t, inverse_table(table), rk, dual, r),
{
    let itable = inverse_table(table);
    assert forall|q: int, x: u8, v: int| 0 <= q < 16 && 0 <= v < 4 implies #[trigger] t.tyboxes.0.0[r].0[q].0[x as int].0[v] == ty_inverse_entry(
        inverse_tbox_byte(itable, rk, r, q, x),
        q % 4,
        v,
        dual_coeffs(dual),
        dual.poly.0,
    ) by {
        assert(t.tyboxes.0.0[r].0[q].0[x as int].0 == ty.0[q % 4][tb.tboxes.0[r].entry(x as int, q) as int]);
        assert(tb.tboxes.0[r].entry(x as int, q) == inverse_tbox_byte(itable, rk, r, q, x));
    }
}

/// One round of tables built for decryption, without protections, is one
/// round of the inverse cipher: InvShiftRows, InvSubBytes, AddRoundKey and
/// InvMixColumns, the first round after the last round key.
#[verifier::spinoff_prover]
proof fn lemma_plain_round_inverse<const NRM1: usize>(t: Tables<NRM1>, itable: Seq<u8>, rk: RoundKeys<NRM1>, dual: Dual, r: int, data: Seq<u8>)
    requires
        tyboxes_inverse(t, itable, rk, dual, r),
        t.inv,
        !t.uses_xor,
        !t.uses_mbl,
        0 <= r < NRM1,
        data.len() == 16,
    ensures
        t.round_spec(r, data) == inv_mix_columns_spec(
            ark_spec(
                sub_bytes_spec(inv_shift_rows_spec(if r == 0 { ark_spec(data, rk.round_spec(NRM1 + 1).0@) } else { data }), itable),
                rk.round_spec(NRM1 - r).0@,
            ),
            dual_coeffs(dual),
            dual.poly.0,
        ),
{
    let d1 = inv_shift_rows_spec(data);
    let work = t.tyboxes.0.0[r];
    let dd = if r == 0 {
        ark_spec(data, rk.round_spec(NRM1 + 1).0@)
    } else {
        data
    };
    let k = rk.round_spec(NRM1 - r).0@;
    let co = dual_coeffs(dual);
    let m = dual.poly.0;
    let s = ark_spec(sub_bytes_spec(inv_shift_rows_spec(dd), itable), k);
    let lhs = t.round_spec(r, data);
    let rhs = inv_mix_columns_spec(s, co, m);
    assert(lhs == step_spec(work, None, d1));
    assert forall|p: int| 0 <= p < 16 implies lhs[p] == rhs[p] by {
        let col = p / 4;
        let v = p % 4;
        let rows = col_rows(work, d1, col);
        assert forall|j: int| 0 <= j < 4 implies #[trigger] rows[j][v] == ty_inverse_entry(s[4 * col + j], j, v, co, m) by {
            let q = 4 * col + j;
            lemma_shift_rows_inverse(q as nat);
            let src = inv_shift_rows_src(q as nat) as int;
            let x = d1[q];
            assert(x == data[src]);
            assert(work.0[q].0[x as int].0[v] == ty_inverse_entry(inverse_tbox_byte(itable, rk, r, q, x), q % 4, v, co, m));
            assert(q % 4 == j);
            if r == 0 {
                assert(k == rk.last.0.0@);
            } else {
                assert(k == rk.rounds.0[NRM1 - r].0@);
            }
            assert(inverse_tbox_byte(itable, rk, r, q, x) == s[q]);
        }
        assert(rows[0][v] == ty_inverse_entry(s[4 * col], 0, v, co, m));
        assert(rows[1][v] == ty_inverse_entry(s[4 * col + 1], 1, v, co, m));
        assert(rows[2][v] == ty_inverse_entry(s[4 * col + 2], 2, v, co, m));
        assert(rows[3][v] == ty_inverse_entry(s[4 * col + 3], 3, v, co, m));
        assert(lhs[p] == step_byte(work, None, d1, col, v));
        assert(rhs[p] == inv_mix_byte(s, col, v, co, m));
    }
    assert(lhs =~= rhs);
}

/// After `r` rounds the decryption tables hold the inverse cipher state
/// after its rounds `NRM1 .. NRM1 - r + 1`.
#[verifier::spinoff_prover]
#[verifier::rlimit(40)]
proof fn lemma_plain_rounds_inverse<const NRM1: usize>(
    t: Tables<NRM1>,
    tb: Tboxes<NRM1>,
    ty: Ty,
    table: Seq<u8>,
    rk: RoundKeys<NRM1>,
    dual: Dual,
    data: Seq<u8>,
    r: nat,
)
    requires
        t.built_from(tb, ty, table, rk, true, dual),
        t.inv,
        !t.uses_xor,
        !t.uses_mbl,
        1 <= r <= NRM1,
        data.len() == 16,
    ensures
        t.rounds_spec(data, r) == dec_rounds(ark_spec(data, rk.round_spec(NRM1 + 1).0@), rk, inverse_table(table), dual, (NRM1 - r + 1) as nat),
    decreases r,
{
    let itable = inverse_table(table);
    let s0 = ark_spec(data, rk.round_spec(NRM1 + 1).0@);
    lemma_built_tyboxes_inverse(t, tb, ty, table, rk, dual, r - 1);
    if r == 1 {
        lemma_plain_round_inverse(t, itable, rk, dual, 0, data);
        assert(t.rounds_spec(data, 0) == data);
        assert(dec_rounds(s0, rk, itable, dual, (NRM1 + 1) as nat) == s0);
    } else {
        lemma_plain_rounds_inverse(t, tb, ty, table, rk, dual, data, (r - 1) as nat);
        let tr = t.rounds_spec(data, (r - 1) as nat);
        lemma_plain_round_inverse(t, itable, rk, dual, r - 1, tr);
        let i = (NRM1 - r + 1) as nat;
        assert(t.rounds_spec(data, r) == t.round_spec(r - 1, tr));
        assert(dec_rounds(s0, rk, itable, dual, i) == inv_mix_columns_spec(
            ark_spec(sub_bytes_spec(inv_shift_rows_spec(dec_rounds(s0, rk, itable, dual, i + 1)), itable), rk.round_spec(i as int).0@),
            dual_coeffs(dual),
            dual.poly.0,
        ));
        assert(i + 1 == (NRM1 - (r - 1) + 1) as nat);
    }
}

/// Tables built for decryption, without protections, compute the inverse
/// of the cipher they were built from, mapped back from the dual
/// representation.
pub proof fn lemma_plain_tables_decrypt<const NRM1: usize>(
    t: Tables<NRM1>,
    tb: Tboxes<NRM1>,
    ty: Ty,
    table: Seq<u8>,
    rk: RoundKeys<NRM1>,
    dual: Dual,
    data: Seq<u8>,
)
    requires
        t.built_from(tb, ty, table, rk, true, dual),
        t.inv,
        !t.uses_xor,
        !t.uses_mbl,
        NRM1 >= 1,
        data.len() == 16,
    ensures
        t.cipher_spec(data) == decrypt_spec(data, rk, inverse_table(table), dual),
{
    let n = NRM1 as nat;
    let itable = inverse_table(table);
    lemma_plain_rounds_inverse(t, tb, ty, table, rk, dual, data, n);
    let tn = t.rounds_spec(data, n);
    let (q, b) = choose|q: MatGF2<8>, b: MatGF2<8>|
        q.rows() == dual_q_rows(dual) && b.is_left_inverse_of(q) && forall|x: int, p: int|
            0 <= x < 256 && 0 <= p < 16 ==> #[trigger] t.tboxes_last.entry(x, p) == b.image(tb.last.entry(x, p));
    let core = decrypt_core_spec(data, rk, itable, dual);
    let lhs = t.cipher_spec(data);
    let rhs = decrypt_spec(data, rk, itable, dual);
    assert forall|p: int| 0 <= p < 16 implies lhs[p] == rhs[p] by {
        let x = inv_shift_rows_spec(tn)[p];
        assert(t.tboxes_last.entry(x as int, p) == b.image(tb.last.entry(x as int, p)));
        assert(tb.last.entry(x as int, p) == itable[x as int] ^ rk.rounds.0[0].0[p]);
        assert(rk.round_spec(0) == rk.rounds.0[0]);
        b.lemma_left_inverse_rows_preimage(q, core[p]);
    }
    assert(lhs =~= rhs);
}

/// Tables built for a cipher, without protections, compute it.
pub proof fn lemma_plain_tables_compute<const NRM1: usize>(
    t: Tables<NRM1>,
    tb: Tboxes<NRM1>,
    ty: Ty,
    table: Seq<u8>,
    rk: RoundKeys<NRM1>,
    dual: Dual,
)
    requires
        t.built_from(tb, ty, table, rk, t.inv, dual),
        !t.uses_xor,
        !t.uses_mbl,
        NRM1 >= 1,
    ensures
        t.computes(table, rk, dual),
{
    assert forall|data: Seq<u8>| data.len() == 16 implies #[trigger] t.cipher_spec(data) == if t.inv {
        decrypt_spec(data, rk, inverse_table(table), dual)
    } else {
        encrypt_spec(data, rk, table, dual)
    } by {
        if t.inv {
            lemma_plain_tables_decrypt(t, tb, ty, table, rk, dual, data);
        } else {
            lemma_plain_tables_encrypt(t, tb, ty, table, rk, dual, data);
        }
    }
}

} // verus!
