//! What the protections leave unchanged: plain XOR tables, mixing tables
//! without mixing, and mixing bijections that the next tables undo compute
//! the same cipher.

use vstd::prelude::*;

use crate::consts::{inv_shift_rows_src, shift_rows_src};
use crate::mat::{xor_word, MatGF2};
use crate::mb::L;
use crate::tables::{col_rows, nib, step_byte, step_spec, tbox_spec, xor_cascade, Tables};
use crate::tbox::Tbox;
use crate::tybox::Work;
use crate::internal::{encode_row_byte, encoded_xor, XorEncoding, XorEncodingSingle};
use crate::xor::{ShiftRowsBijection, XorRound};
use crate::Purpose;

verus! {

/// Nibble by nibble XOR is XOR.
proof fn lemma_nibble_cascade(r0: u8, r1: u8, r2: u8, r3: u8)
    by (bit_vector)
    ensures
        (((r3 / 16) ^ (r2 / 16)) ^ ((r1 / 16) ^ (r0 / 16))) < 16,
        (((r3 % 16) ^ (r2 % 16)) ^ ((r1 % 16) ^ (r0 % 16))) < 16,
        (((r3 / 16) ^ (r2 / 16)) ^ ((r1 / 16) ^ (r0 / 16))) * 16 + (((r3 % 16) ^ (r2 % 16)) ^ ((r1 % 16) ^ (r0 % 16))) == r0 ^ r1 ^ r2 ^ r3,
{
}

/// XOR tables that compute the plain XOR change nothing.
pub proof fn lemma_identity_xor_step(work: Work, xr: XorRound, d: Seq<u8>)
    requires
        xr.is_identity(),
    ensures
        step_spec(work, Some(xr), d) == step_spec(work, None, d),
{
    let s1 = step_spec(work, Some(xr), d);
    let s2 = step_spec(work, None, d);
    assert forall|p: int| 0 <= p < 16 implies s1[p] == s2[p] by {
        let c = p / 4;
        let v = p % 4;
        let t = xr.0[c];
        let rows = col_rows(work, d, c);
        let r0 = rows[0][v];
        let r1 = rows[1][v];
        let r2 = rows[2][v];
        let r3 = rows[3][v];
        lemma_nibble_cascade(r0, r1, r2, r3);
        crate::lemma_xor_u8(r1 / 16, r0 / 16, 0);
        crate::lemma_xor_u8(r3 / 16, r2 / 16, 0);
        crate::lemma_xor_u8(r1 % 16, r0 % 16, 0);
        crate::lemma_xor_u8(r3 % 16, r2 % 16, 0);
        let a0 = (r1 / 16) ^ (r0 / 16);
        let b0 = (r3 / 16) ^ (r2 / 16);
        let a1 = (r1 % 16) ^ (r0 % 16);
        let b1 = (r3 % 16) ^ (r2 % 16);
        assert(nib(r0, 0) == r0 / 16 && nib(r1, 0) == r1 / 16 && nib(r2, 0) == r2 / 16 && nib(r3, 0) == r3 / 16);
        assert(nib(r0, 1) == r0 % 16 && nib(r1, 1) == r1 % 16 && nib(r2, 1) == r2 % 16 && nib(r3, 1) == r3 % 16);
        assert(t[0][v][0][nib(r0, 0) as int].map_spec(nib(r1, 0)) == ((r1 / 16) ^ (r0 / 16)));
        assert(t[1][v][0][nib(r2, 0) as int].map_spec(nib(r3, 0)) == ((r3 / 16) ^ (r2 / 16)));
        assert(t[0][v][1][nib(r0, 1) as int].map_spec(nib(r1, 1)) == ((r1 % 16) ^ (r0 % 16)));
        assert(t[1][v][1][nib(r2, 1) as int].map_spec(nib(r3, 1)) == ((r3 % 16) ^ (r2 % 16)));
        assert(t[2][v][0][a0 as int].map_spec(b0 as nat) == (b0 ^ a0));
        assert(t[2][v][1][a1 as int].map_spec(b1 as nat) == (b1 ^ a1));
        assert(xor_cascade(t, rows, v, 0) == (((r3 / 16) ^ (r2 / 16)) ^ ((r1 / 16) ^ (r0 / 16))));
        assert(xor_cascade(t, rows, v, 1) == (((r3 % 16) ^ (r2 % 16)) ^ ((r1 % 16) ^ (r0 % 16))));
        assert(s1[p] == step_byte(work, Some(t), d, c, v));
        assert(s2[p] == step_byte(work, None, d, c, v));
    }
    assert(s1 =~= s2);
}

/// Mixing tables that place every byte in its own entry.
pub open spec fn is_identity_work(w: Work) -> bool {
    forall|p: int, x: int, k: int| 0 <= p < 16 && 0 <= x < 256 && 0 <= k < 4 ==> #[trigger] w.entry(p, x, k) == if k == p % 4 {
        x as u8
    } else {
        0u8
    }
}

/// Mixing tables without mixing change nothing.
pub proof fn lemma_identity_work_step(w: Work, d: Seq<u8>)
    requires
        is_identity_work(w),
        d.len() == 16,
    ensures
        step_spec(w, None, d) == d,
{
    let s = step_spec(w, None, d);
    assert forall|p: int| 0 <= p < 16 implies s[p] == d[p] by {
        let c = p / 4;
        let v = p % 4;
        let rows = col_rows(w, d, c);
        assert forall|k: int| 0 <= k < 4 implies #[trigger] rows[k][v] == if k == v {
            d[p]
        } else {
            0u8
        } by {
            let q = 4 * c + k;
            assert(w.entry(q, d[q] as int, v) == if v == q % 4 {
                d[q]
            } else {
                0u8
            });
        }
        assert(rows[0][v] == if v == 0 { d[p] } else { 0u8 });
        assert(rows[1][v] == if v == 1 { d[p] } else { 0u8 });
        assert(rows[2][v] == if v == 2 { d[p] } else { 0u8 });
        assert(rows[3][v] == if v == 3 { d[p] } else { 0u8 });
        crate::lemma_xor_u8(d[p], 0, 0);
        crate::lemma_xor_u8(0, 0, 0);
        assert(s[p] == step_byte(w, None, d, c, v));
    }
    assert(s =~= d);
}

/// The XOR of four words.
pub open spec fn xor4(a: Seq<u8>, b: Seq<u8>, c: Seq<u8>, d: Seq<u8>) -> Seq<u8> {
    xor_word(xor_word(xor_word(a, b), c), d)
}

/// A matrix maps the XOR of four words to the XOR of their images.
proof fn lemma_word_image_xor4(m: MatGF2<32>, a: Seq<u8>, b: Seq<u8>, c: Seq<u8>, d: Seq<u8>)
    ensures
        m.word_image(xor4(a, b, c, d)) == xor4(m.word_image(a), m.word_image(b), m.word_image(c), m.word_image(d)),
{
    m.lemma_word_image_xor(a, b);
    m.lemma_word_image_xor(xor_word(a, b), c);
    m.lemma_word_image_xor(xor_word(xor_word(a, b), c), d);
}

/// The word that column `c` of a step computes from `d`: the XOR of the
/// four rows that its bytes select.
pub open spec fn column_word(w: Work, d: Seq<u8>, c: int) -> Seq<u8> {
    let rows = col_rows(w, d, c);
    xor4(rows[0], rows[1], rows[2], rows[3])
}

/// A step without XOR tables computes, in every column, the XOR of the
/// selected rows.
proof fn lemma_step_column(w: Work, d: Seq<u8>, p: int)
    requires
        0 <= p < 16,
    ensures
        step_spec(w, None, d)[p] == column_word(w, d, p / 4)[p % 4],
{
    assert(step_spec(w, None, d)[p] == step_byte(w, None, d, p / 4, p % 4));
}

/// The four bytes of column `c`.
pub open spec fn column_of(d: Seq<u8>, c: int) -> Seq<u8> {
    Seq::new(4, |k: int| d[4 * c + k])
}

/// Mixing bijections in a round: the tyboxes map each row by the matrix of
/// its column, the mixing tables by a left inverse of it, so the two steps
/// together give the plain step.
pub proof fn lemma_mb_round(ty0: Work, ty1: Work, mbl0: Work, mbl1: Work, mb: crate::mb::MB, d: Seq<u8>)
    requires
        d.len() == 16,
        is_identity_work(mbl0),
        forall|p: int, x: int|
            0 <= p < 16 && 0 <= x < 256 ==> #[trigger] ty1.0[p].0[x].0@ == mb.0[p / 4].word_image(ty0.0[p].0[x].0@),
        forall|c: int| 0 <= c < 4 ==> #[trigger] crate::mb::inverts_column(mbl1, mbl0, mb.0[c], c),
    ensures
        step_spec(mbl1, None, step_spec(ty1, None, d)) == step_spec(ty0, None, d),
{
    let y = step_spec(ty1, None, d);
    let z = step_spec(mbl1, None, y);
    let s0 = step_spec(ty0, None, d);
    assert forall|p: int| 0 <= p < 16 implies z[p] == s0[p] by {
        let c = p / 4;
        let v = p % 4;
        let m = mb.0[c];
        assert(crate::mb::inverts_column(mbl1, mbl0, m, c));
        let b = choose|b: MatGF2<32>|
            b.is_left_inverse_of(m) && forall|p2: int, x: int|
                0 <= p2 < 16 && p2 / 4 == c && 0 <= x < 256 ==> #[trigger] mbl1.0[p2].0[x].0@ == b.word_image(mbl0.0[p2].0[x].0@);
        let r0 = col_rows(ty0, d, c);
        let r1 = col_rows(ty1, d, c);
        let x0 = column_word(ty0, d, c);
        assert forall|k: int| 0 <= k < 4 implies #[trigger] r1[k] == m.word_image(r0[k]) by {
            let q = 4 * c + k;
            assert(q / 4 == c);
            assert(ty1.0[q].0[d[q] as int].0@ == mb.0[q / 4].word_image(ty0.0[q].0[d[q] as int].0@));
        }
        lemma_word_image_xor4(m, r0[0], r0[1], r0[2], r0[3]);
        // the column that the tyboxes give is the image of the plain one
        assert(column_of(y, c) =~= m.word_image(x0)) by {
            assert forall|k: int| 0 <= k < 4 implies column_of(y, c)[k] == m.word_image(x0)[k] by {
                lemma_step_column(ty1, d, 4 * c + k);
                assert((4 * c + k) / 4 == c && (4 * c + k) % 4 == k);
            }
        }
        // the mixing tables
        let e = col_rows(mbl0, y, c);
        let f = col_rows(mbl1, y, c);
        assert forall|k: int| 0 <= k < 4 implies #[trigger] f[k] == b.word_image(e[k]) by {
            let q = 4 * c + k;
            assert(q / 4 == c);
        }
        lemma_word_image_xor4(b, e[0], e[1], e[2], e[3]);
        assert(xor4(e[0], e[1], e[2], e[3]) =~= column_of(y, c)) by {
            assert forall|k: int| 0 <= k < 4 implies xor4(e[0], e[1], e[2], e[3])[k] == column_of(y, c)[k] by {
                assert forall|j: int| 0 <= j < 4 implies #[trigger] e[j][k] == if j == k {
                    y[4 * c + k]
                } else {
                    0u8
                } by {
                    let q = 4 * c + j;
                    assert(mbl0.entry(q, y[q] as int, k) == if k == q % 4 {
                        y[q]
                    } else {
                        0u8
                    });
                }
                assert(e[0][k] == if k == 0 { y[4 * c + k] } else { 0u8 });
                assert(e[1][k] == if k == 1 { y[4 * c + k] } else { 0u8 });
                assert(e[2][k] == if k == 2 { y[4 * c + k] } else { 0u8 });
                assert(e[3][k] == if k == 3 { y[4 * c + k] } else { 0u8 });
                crate::lemma_xor_u8(y[4 * c + k], 0, 0);
                crate::lemma_xor_u8(0, 0, 0);
            }
        }
        assert(x0.len() == 4);
        b.lemma_left_inverse_word_image(m, x0);
        lemma_step_column(mbl1, y, p);
        lemma_step_column(ty0, d, p);
    }
    assert(z =~= s0);
}


/// Mixing tables `m` applied after the tyboxes `t` give the step of `t0`.
pub open spec fn undoes(m: Work, t: Work, t0: Work) -> bool {
    forall|d: Seq<u8>| d.len() == 16 ==> #[trigger] step_spec(m, None, step_spec(t, None, d)) == step_spec(t0, None, d)
}

/// Every byte of a state mapped by the matrix of its position in `l`.
pub open spec fn l_image(l: L, s: Seq<u8>) -> Seq<u8> {
    Seq::new(16, |p: int| l.at(p as nat).image(s[p]))
}

/// The rows of `m2` are those of `m1`, byte `k` of every row of column `c`
/// mapped by the matrix of column `c`, row `k`, of `l`.
pub open spec fn l_applied(m2: Work, m1: Work, l: L) -> bool {
    forall|p: int, x: int, k: int|
        0 <= p < 16 && 0 <= x < 256 && 0 <= k < 4 ==> #[trigger] m2.0[p].0[x].0[k] == l.0[p / 4][k].image(m1.0[p].0[x].0[k])
}

/// Position whose byte ShiftRows (or, with `inv`, its inverse) moves to `p`.
pub open spec fn shift_src(inv: bool, p: nat) -> nat {
    if inv {
        inv_shift_rows_src(p)
    } else {
        shift_rows_src(p)
    }
}

/// The table of every position of `t2` is that of `t1` with its input
/// mapped by the `l` matrix of the position that ShiftRows moves there.
pub open spec fn l_inv_applied(t2: Work, t1: Work, l: L, inv: bool) -> bool {
    forall|p: int, y: u8| 0 <= p < 16 ==> #[trigger] t2.0[p].0[l.at(shift_src(inv, p as nat)).image(y) as int] == t1.0[p].0[y as int]
}

/// The same for the last table.
pub open spec fn tbox_l_inv_applied(b2: Tbox, b1: Tbox, l: L, inv: bool) -> bool {
    forall|y: u8, p: int| 0 <= p < 16 ==> #[trigger] b2.entry(l.at(shift_src(inv, p as nat)).image(y) as int, p) == b1.entry(y as int, p)
}

/// A step through mixing tables whose bytes are mapped by `l` is the image
/// under `l` of the step through the unmapped tables.
pub proof fn lemma_l_step(m2: Work, m1: Work, l: L, y: Seq<u8>)
    requires
        l_applied(m2, m1, l),
        y.len() == 16,
    ensures
        step_spec(m2, None, y) == l_image(l, step_spec(m1, None, y)),
{
    let s2 = step_spec(m2, None, y);
    let s1 = step_spec(m1, None, y);
    assert forall|p: int| 0 <= p < 16 implies s2[p] == l_image(l, s1)[p] by {
        let c = p / 4;
        let v = p % 4;
        let a = col_rows(m2, y, c);
        let b = col_rows(m1, y, c);
        let m = l.0[c][v];
        assert forall|k: int| 0 <= k < 4 implies #[trigger] a[k][v] == m.image(b[k][v]) by {
            let q = 4 * c + k;
            assert(q / 4 == c);
            assert(m2.0[q].0[y[q] as int].0[v] == l.0[q / 4][v].image(m1.0[q].0[y[q] as int].0[v]));
        }
        m.lemma_image_xor(b[0][v], b[1][v]);
        m.lemma_image_xor(b[0][v] ^ b[1][v], b[2][v]);
        m.lemma_image_xor(b[0][v] ^ b[1][v] ^ b[2][v], b[3][v]);
        assert(l.at(p as nat) == m);
        assert(s2[p] == step_byte(m2, None, y, c, v));
        assert(s1[p] == step_byte(m1, None, y, c, v));
    }
    assert(s2 =~= l_image(l, s1));
}

/// Tables that select the same rows give the same step.
proof fn lemma_same_rows_step(t2: Work, t1: Work, d2: Seq<u8>, d1: Seq<u8>)
    requires
        d2.len() == 16,
        d1.len() == 16,
        forall|p: int| 0 <= p < 16 ==> #[trigger] t2.0[p].0[d2[p] as int] == t1.0[p].0[d1[p] as int],
    ensures
        step_spec(t2, None, d2) == step_spec(t1, None, d1),
{
    let s2 = step_spec(t2, None, d2);
    let s1 = step_spec(t1, None, d1);
    assert forall|p: int| 0 <= p < 16 implies s2[p] == s1[p] by {
        let c = p / 4;
        let v = p % 4;
        assert forall|k: int| 0 <= k < 4 implies #[trigger] col_rows(t2, d2, c)[k] == col_rows(t1, d1, c)[k] by {
            let q = 4 * c + k;
            assert(t2.0[q].0[d2[q] as int] == t1.0[q].0[d1[q] as int]);
        }
        assert(s2[p] == step_byte(t2, None, d2, c, v));
        assert(s1[p] == step_byte(t1, None, d1, c, v));
    }
    assert(s2 =~= s1);
}

/// ShiftRows takes byte `p` from position `shift_src(inv, p)`.
proof fn lemma_shift_src<const NRM1: usize>(t: Tables<NRM1>, s: Seq<u8>, p: int)
    requires
        0 <= p < 16,
    ensures
        shift_src(t.inv, p as nat) < 16,
        t.shift_spec(s)[p] == s[shift_src(t.inv, p as nat) as int],
        t.shift_spec(s).len() == 16,
{
    crate::consts::lemma_shift_rows_inverse(p as nat);
}

/// Through tyboxes that undo `l` on their input, a state mapped by `l`
/// gives the step that the unmapped state gives through the old tyboxes.
proof fn lemma_l_inv_step<const NRM1: usize>(t: Tables<NRM1>, ty2: Work, ty1: Work, l: L, x: Seq<u8>)
    requires
        l_inv_applied(ty2, ty1, l, t.inv),
        x.len() == 16,
    ensures
        step_spec(ty2, None, t.shift_spec(l_image(l, x))) == step_spec(ty1, None, t.shift_spec(x)),
{
    let d2 = t.shift_spec(l_image(l, x));
    let d1 = t.shift_spec(x);
    assert forall|p: int| 0 <= p < 16 implies #[trigger] ty2.0[p].0[d2[p] as int] == ty1.0[p].0[d1[p] as int] by {
        lemma_shift_src(t, l_image(l, x), p);
        lemma_shift_src(t, x, p);
        let q = shift_src(t.inv, p as nat);
        assert(d2[p] == l.at(q).image(x[q as int]));
        assert(ty2.0[p].0[l.at(shift_src(t.inv, p as nat)).image(x[q as int]) as int] == ty1.0[p].0[x[q as int] as int]);
    }
    lemma_shift_src(t, x, 0);
    lemma_shift_src(t, l_image(l, x), 0);
    lemma_same_rows_step(ty2, ty1, d2, d1);
}

/// The last table undoing `l` on its input.
proof fn lemma_l_inv_last<const NRM1: usize>(t: Tables<NRM1>, b2: Tbox, b1: Tbox, l: L, x: Seq<u8>)
    requires
        tbox_l_inv_applied(b2, b1, l, t.inv),
        x.len() == 16,
    ensures
        tbox_spec(b2, t.shift_spec(l_image(l, x))) == tbox_spec(b1, t.shift_spec(x)),
{
    let d2 = t.shift_spec(l_image(l, x));
    let d1 = t.shift_spec(x);
    assert forall|p: int| 0 <= p < 16 implies tbox_spec(b2, d2)[p] == tbox_spec(b1, d1)[p] by {
        lemma_shift_src(t, l_image(l, x), p);
        lemma_shift_src(t, x, p);
        let q = shift_src(t.inv, p as nat);
        assert(d2[p] == l.at(q).image(x[q as int]));
        assert(b2.entry(l.at(shift_src(t.inv, p as nat)).image(x[q as int]) as int, p) == b1.entry(x[q as int] as int, p));
    }
    assert(tbox_spec(b2, d2) =~= tbox_spec(b1, d1));
}

/// The state after round `r - 1`, mapped by the `l` of that round when
/// there are L matrices.
pub open spec fn l_state(use_l: bool, ls: Seq<L>, r: int, s: Seq<u8>) -> Seq<u8> {
    if use_l && r >= 0 {
        l_image(ls[r], s)
    } else {
        s
    }
}

/// Tables without protection: the mixing tables place every byte in its
/// own entry and the XOR tables compute the plain XOR.
pub open spec fn unprotected<const NRM1: usize>(t: Tables<NRM1>) -> bool {
    &&& forall|r: int| 0 <= r < NRM1 ==> #[trigger] is_identity_work(t.mbl.0.0[r])
    &&& forall|r: int| 0 <= r < NRM1 ==> #[trigger] t.xor.0.0[r].is_identity()
    &&& forall|r: int| 0 <= r < NRM1 ==> #[trigger] t.xor_mbl.0.0[r].is_identity()
}

/// A round of unprotected tables is the plain step of its tyboxes.
proof fn lemma_unprotected_round<const NRM1: usize>(t: Tables<NRM1>, r: int, x: Seq<u8>)
    requires
        unprotected(t),
        0 <= r < NRM1,
        x.len() == 16,
    ensures
        t.round_spec(r, x) == step_spec(t.tyboxes.0.0[r], None, t.shift_spec(x)),
{
    let d1 = t.shift_spec(x);
    lemma_identity_xor_step(t.tyboxes.0.0[r], t.xor.0.0[r], d1);
    let d2 = step_spec(t.tyboxes.0.0[r], None, d1);
    lemma_identity_xor_step(t.mbl.0.0[r], t.xor_mbl.0.0[r], d2);
    lemma_identity_work_step(t.mbl.0.0[r], d2);
}

/// How the tables `t2` that the protections give relate to the tables `t0`
/// they started from, through the tables `t1` after the mixing bijections.
pub open spec fn protected_from<const NRM1: usize>(
    t2: Tables<NRM1>,
    t1: Tables<NRM1>,
    t0: Tables<NRM1>,
    use_l: bool,
    ls: Seq<L>,
) -> bool {
    &&& unprotected(t0)
    &&& t2.inv == t0.inv
    &&& forall|r: int| 0 <= r < NRM1 ==> #[trigger] t2.xor.0.0[r].is_identity()
    &&& forall|r: int| 0 <= r < NRM1 ==> #[trigger] t2.xor_mbl.0.0[r].is_identity()
    &&& forall|r: int| 0 <= r < NRM1 ==> #[trigger] undoes(t1.mbl.0.0[r], t1.tyboxes.0.0[r], t0.tyboxes.0.0[r])
    &&& t1.tboxes_last == t0.tboxes_last
    &&& !t2.uses_mbl ==> !use_l && forall|r: int| 0 <= r < NRM1 ==> #[trigger] t1.tyboxes.0.0[r] == t0.tyboxes.0.0[r]
    &&& if use_l {
        &&& ls.len() == NRM1
        &&& forall|r: int| 0 <= r < NRM1 ==> #[trigger] l_applied(t2.mbl.0.0[r], t1.mbl.0.0[r], ls[r])
        &&& forall|r: int| 1 <= r < NRM1 ==> #[trigger] l_inv_applied(t2.tyboxes.0.0[r], t1.tyboxes.0.0[r], ls[r - 1], t0.inv)
        &&& t2.tyboxes.0.0[0] == t1.tyboxes.0.0[0]
        &&& tbox_l_inv_applied(t2.tboxes_last, t1.tboxes_last, ls[NRM1 - 1], t0.inv)
    } else {
        &&& forall|r: int| 0 <= r < NRM1 ==> #[trigger] t2.tyboxes.0.0[r] == t1.tyboxes.0.0[r]
        &&& forall|r: int| 0 <= r < NRM1 ==> #[trigger] t2.mbl.0.0[r] == t1.mbl.0.0[r]
        &&& t2.tboxes_last == t1.tboxes_last
    }
}

/// Round by round, the protected tables compute the state of the
/// unprotected ones, mapped by the L matrix of the round.
proof fn lemma_protected_rounds<const NRM1: usize>(
    t2: Tables<NRM1>,
    t1: Tables<NRM1>,
    t0: Tables<NRM1>,
    use_l: bool,
    ls: Seq<L>,
    d: Seq<u8>,
    n: nat,
)
    requires
        protected_from(t2, t1, t0, use_l, ls),
        d.len() == 16,
        n <= NRM1,
    ensures
        t2.rounds_spec(d, n) == l_state(use_l, ls, n - 1, t0.rounds_spec(d, n)),
        t0.rounds_spec(d, n).len() == 16,
    decreases n,
{
    if n > 0 {
        let r = (n - 1) as int;
        lemma_protected_rounds(t2, t1, t0, use_l, ls, d, (n - 1) as nat);
        let x0 = t0.rounds_spec(d, (n - 1) as nat);
        let x2 = t2.rounds_spec(d, (n - 1) as nat);
        let ty0 = t0.tyboxes.0.0[r];
        let ty1 = t1.tyboxes.0.0[r];
        let ty2 = t2.tyboxes.0.0[r];
        let m1 = t1.mbl.0.0[r];
        let m2 = t2.mbl.0.0[r];
        lemma_shift_src(t0, x0, 0);
        let s0 = t0.shift_spec(x0);
        lemma_unprotected_round(t0, r, x0);
        assert(t2.shift_spec(x2) == t0.shift_spec(x2));
        // the tyboxes of the protected round undo the previous L
        assert(step_spec(ty2, None, t2.shift_spec(x2)) == step_spec(ty1, None, s0)) by {
            if use_l && r >= 1 {
                assert(l_inv_applied(ty2, ty1, ls[r - 1], t0.inv));
                lemma_l_inv_step(t0, ty2, ty1, ls[r - 1], x0);
            } else if use_l {
                assert(ty2 == ty1);
            } else {
                assert(ty2 == ty1);
            }
        }
        // the XOR tables compute the plain XOR
        lemma_shift_src(t2, x2, 0);
        lemma_identity_xor_step(ty2, t2.xor.0.0[r], t2.shift_spec(x2));
        let y = step_spec(ty1, None, s0);
        lemma_identity_xor_step(m2, t2.xor_mbl.0.0[r], y);
        assert(undoes(m1, ty1, ty0));
        assert(step_spec(m1, None, y) == step_spec(ty0, None, s0));
        if t2.uses_mbl {
            if use_l {
                assert(l_applied(m2, m1, ls[r]));
                lemma_l_step(m2, m1, ls[r], y);
            } else {
                assert(m2 == m1);
            }
        } else {
            assert(ty1 == ty0);
        }
        assert(t2.rounds_spec(d, n) == t2.round_spec(r, x2));
        assert(t0.rounds_spec(d, n) == t0.round_spec(r, x0));
    }
}

/// The protected tables compute the cipher of the unprotected ones.
pub proof fn lemma_protected_cipher<const NRM1: usize>(
    t2: Tables<NRM1>,
    t1: Tables<NRM1>,
    t0: Tables<NRM1>,
    use_l: bool,
    ls: Seq<L>,
    d: Seq<u8>,
)
    requires
        protected_from(t2, t1, t0, use_l, ls),
        NRM1 >= 1,
        d.len() == 16,
    ensures
        t2.cipher_spec(d) == t0.cipher_spec(d),
{
    lemma_protected_rounds(t2, t1, t0, use_l, ls, d, NRM1 as nat);
    let x0 = t0.rounds_spec(d, NRM1 as nat);
    let x2 = t2.rounds_spec(d, NRM1 as nat);
    assert(t2.shift_spec(x2) == t0.shift_spec(x2));
    if use_l {
        lemma_l_inv_last(t0, t2.tboxes_last, t1.tboxes_last, ls[NRM1 - 1], x0);
    }
}


/// Every byte of a state with both nibbles mapped by the encoding of its
/// position.
pub open spec fn enc_state(e: XorEncodingSingle, s: Seq<u8>) -> Seq<u8> {
    Seq::new(16, |p: int| e.map_spec(p, s[p], false))
}

/// The byte that a table reads for `x`: `x` itself, or `x` decoded by `ie`
/// at the position that `sh` gives for `p`.
pub open spec fn decoded_input(ie: Option<XorEncodingSingle>, sh: ShiftRowsBijection, p: int, x: u8) -> u8 {
    match ie {
        Some(e) => e.map_spec(sh.map_spec(p as nat) as int, x, true),
        None => x,
    }
}

/// The state `d2` decoded as the tables read it is `d1`.
pub open spec fn decodes(ie: Option<XorEncodingSingle>, sh: ShiftRowsBijection, d2: Seq<u8>, d1: Seq<u8>) -> bool {
    forall|p: int| 0 <= p < 16 ==> #[trigger] d1[p] == decoded_input(ie, sh, p, d2[p])
}

/// `w2` is `w1` with its input decoded as `ie` and `sh` give and every
/// output nibble encoded with the encoding of its row in `o`.
pub open spec fn work_encoded(w2: Work, w1: Work, ie: Option<XorEncodingSingle>, o: [XorEncodingSingle; 4], sh: ShiftRowsBijection) -> bool {
    forall|p: int, x: int, c: int|
        0 <= p < 16 && 0 <= x < 256 && 0 <= c < 4 ==> #[trigger] w2.0[p].0[x].0[c] == encode_row_byte(
            o[p % 4],
            p,
            c,
            w1.0[p].0[decoded_input(ie, sh, p, x as u8) as int].0[c],
        )
}

/// The XOR tables of a round decode rows encoded with `o` and encode their
/// result with `e`, through the encodings of `enc`.
pub open spec fn xor_encoded(xr: XorRound, enc: XorEncoding, o: [XorEncodingSingle; 4], e: XorEncodingSingle) -> bool {
    &&& enc.wf()
    &&& enc.xor_high[0] == o[0]
    &&& enc.xor_high[1] == o[1]
    &&& enc.xor_low[0] == o[2]
    &&& enc.xor_low[1] == o[3]
    &&& enc.xor_output[0] == enc.xor_high[2]
    &&& enc.xor_output[1] == enc.xor_low[2]
    &&& enc.xor_output[2] == e
    &&& xr.encoded_with(Purpose::High, enc.xor_high)
    &&& xr.encoded_with(Purpose::Low, enc.xor_low)
    &&& xr.encoded_with(Purpose::Output, enc.xor_output)
}

/// A nibble of an encoded row byte is the encoded nibble.
proof fn lemma_row_nibble(o: XorEncodingSingle, q: int, c: int, v: u8, h: int)
    requires
        o.wf(),
        0 <= q < 16,
        0 <= c < 4,
        0 <= h < 2,
    ensures
        nib(encode_row_byte(o, q, c, v), h) == o.0[q / 4][c][h].map_spec(nib(v, h)),
        o.0[q / 4][c][h].map_spec(nib(v, h)) < 16,
{
    let b0 = o.0[q / 4][c][0];
    let b1 = o.0[q / 4][c][1];
    assert(b0.wf() && b1.wf());
    let hi = b0.map_spec((v / 16) as nat);
    let lo = b1.map_spec((v % 16) as nat);
    assert(hi < 16 && lo < 16);
    let y = (hi * 16 + lo) as u8;
    assert(y / 16 == hi && y % 16 == lo);
}

/// One nibble of an encoded XOR cascade: the encoding `e` of the plain XOR
/// of the four row nibbles.
proof fn lemma_encoded_nibble(
    xr: XorRound,
    enc: XorEncoding,
    o: [XorEncodingSingle; 4],
    e: XorEncodingSingle,
    rows: Seq<Seq<u8>>,
    r0: u8,
    r1: u8,
    r2: u8,
    r3: u8,
    c: int,
    v: int,
    h: int,
)
    requires
        xor_encoded(xr, enc, o, e),
        forall|k: int| 0 <= k < 4 ==> #[trigger] o[k].wf(),
        0 <= c < 4,
        0 <= v < 4,
        0 <= h < 2,
        rows.len() == 4,
        forall|k: int| 0 <= k < 4 ==> #[trigger] rows[k].len() == 4,
        rows[0][v] == encode_row_byte(o[0], 4 * c, v, r0),
        rows[1][v] == encode_row_byte(o[1], 4 * c + 1, v, r1),
        rows[2][v] == encode_row_byte(o[2], 4 * c + 2, v, r2),
        rows[3][v] == encode_row_byte(o[3], 4 * c + 3, v, r3),
    ensures
        xor_cascade(xr.0[c], rows, v, h) == e.0[c][v][h].map_spec(
            (((nib(r3, h) as u8) ^ (nib(r2, h) as u8)) ^ ((nib(r1, h) as u8) ^ (nib(r0, h) as u8))) as nat,
        ),
{
    let n0 = nib(r0, h) as u8;
    let n1 = nib(r1, h) as u8;
    let n2 = nib(r2, h) as u8;
    let n3 = nib(r3, h) as u8;
    assert(nib(r0, h) < 16 && nib(r1, h) < 16 && nib(r2, h) < 16 && nib(r3, h) < 16);
    assert((4 * c) / 4 == c && (4 * c + 1) / 4 == c && (4 * c + 2) / 4 == c && (4 * c + 3) / 4 == c);
    lemma_row_nibble(o[0], 4 * c, v, r0, h);
    lemma_row_nibble(o[1], 4 * c + 1, v, r1, h);
    lemma_row_nibble(o[2], 4 * c + 2, v, r2, h);
    lemma_row_nibble(o[3], 4 * c + 3, v, r3, h);
    let e0 = o[0].0[c][v][h];
    let e1 = o[1].0[c][v][h];
    let e2 = o[2].0[c][v][h];
    let e3 = o[3].0[c][v][h];
    assert(o[0].wf() && o[1].wf() && o[2].wf() && o[3].wf());
    assert(o[0].0[c][v][h].wf() && o[1].0[c][v][h].wf() && o[2].0[c][v][h].wf() && o[3].0[c][v][h].wf());
    assert(e0.wf() && e1.wf() && e2.wf() && e3.wf());
    let m0 = e0.map_spec(n0 as nat);
    let m1 = e1.map_spec(n1 as nat);
    let m2 = e2.map_spec(n2 as nat);
    let m3 = e3.map_spec(n3 as nat);
    e0.lemma_unmap_map(n0 as nat);
    e1.lemma_unmap_map(n1 as nat);
    e2.lemma_unmap_map(n2 as nat);
    e3.lemma_unmap_map(n3 as nat);
    let hx = enc.xor_high[2].0[c][v][h];
    let lx = enc.xor_low[2].0[c][v][h];
    assert(enc.xor_high[2].wf() && enc.xor_low[2].wf() && enc.xor_output[2].wf());
    assert(hx.wf() && lx.wf());
    let t = xr.0[c];
    assert(xr.0[c][Purpose::High.idx() as int][v][h][m0 as int].map_spec(m1) == encoded_xor(
        enc.xor_high[0].0[c][v][h],
        enc.xor_high[1].0[c][v][h],
        enc.xor_high[2].0[c][v][h],
        m0 as int as nat,
        m1,
    ));
    assert(xr.0[c][Purpose::Low.idx() as int][v][h][m2 as int].map_spec(m3) == encoded_xor(
        enc.xor_low[0].0[c][v][h],
        enc.xor_low[1].0[c][v][h],
        enc.xor_low[2].0[c][v][h],
        m2 as int as nat,
        m3,
    ));
    crate::lemma_xor_u8(n0, n1, 0);
    crate::lemma_xor_u8(n2, n3, 0);
    crate::lemma_xor_u8(n1, n0, 0);
    crate::lemma_xor_u8(n3, n2, 0);
    let a = hx.map_spec((n0 ^ n1) as nat);
    let b = lx.map_spec((n2 ^ n3) as nat);
    assert(t[0][v][h][nib(rows[0][v], h) as int].map_spec(nib(rows[1][v], h)) == a);
    assert(t[1][v][h][nib(rows[2][v], h) as int].map_spec(nib(rows[3][v], h)) == b);
    hx.lemma_unmap_map((n0 ^ n1) as nat);
    lx.lemma_unmap_map((n2 ^ n3) as nat);
    assert(a < 16 && b < 16);
    assert(xr.0[c][Purpose::Output.idx() as int][v][h][a as int].map_spec(b) == encoded_xor(
        enc.xor_output[0].0[c][v][h],
        enc.xor_output[1].0[c][v][h],
        enc.xor_output[2].0[c][v][h],
        a as int as nat,
        b,
    ));
    crate::lemma_xor_u8(n0 ^ n1, n2 ^ n3, 0);
}

/// A step through encoded tyboxes and encoded XOR tables gives the encoded
/// plain step.
pub proof fn lemma_encoded_step(
    w2: Work,
    w1: Work,
    xr: XorRound,
    enc: XorEncoding,
    ie: Option<XorEncodingSingle>,
    o: [XorEncodingSingle; 4],
    e: XorEncodingSingle,
    sh: ShiftRowsBijection,
    d2: Seq<u8>,
    d1: Seq<u8>,
)
    requires
        work_encoded(w2, w1, ie, o, sh),
        xor_encoded(xr, enc, o, e),
        forall|k: int| 0 <= k < 4 ==> #[trigger] o[k].wf(),
        decodes(ie, sh, d2, d1),
        d2.len() == 16,
        d1.len() == 16,
    ensures
        step_spec(w2, Some(xr), d2) == enc_state(e, step_spec(w1, None, d1)),
{
    let s2 = step_spec(w2, Some(xr), d2);
    let s1 = step_spec(w1, None, d1);
    assert forall|p: int| 0 <= p < 16 implies s2[p] == enc_state(e, s1)[p] by {
        let c = p / 4;
        let v = p % 4;
        let rows2 = col_rows(w2, d2, c);
        let rows1 = col_rows(w1, d1, c);
        assert forall|k: int| 0 <= k < 4 implies #[trigger] rows2[k][v] == encode_row_byte(o[k], 4 * c + k, v, rows1[k][v]) by {
            let q = 4 * c + k;
            assert(q % 4 == k);
            assert(d1[q] == decoded_input(ie, sh, q, d2[q]));
            assert(w2.0[q].0[d2[q] as int].0[v] == encode_row_byte(o[q % 4], q, v, w1.0[q].0[decoded_input(ie, sh, q, d2[q] as int as u8) as int].0[v]));
        }
        assert forall|k: int| 0 <= k < 4 implies #[trigger] rows2[k].len() == 4 by {}
        let r0 = rows1[0][v];
        let r1 = rows1[1][v];
        let r2 = rows1[2][v];
        let r3 = rows1[3][v];
        assert(rows2[0][v] == encode_row_byte(o[0], 4 * c, v, r0));
        assert(rows2[1][v] == encode_row_byte(o[1], 4 * c + 1, v, r1));
        assert(rows2[2][v] == encode_row_byte(o[2], 4 * c + 2, v, r2));
        assert(rows2[3][v] == encode_row_byte(o[3], 4 * c + 3, v, r3));
        lemma_encoded_nibble(xr, enc, o, e, rows2, r0, r1, r2, r3, c, v, 0);
        lemma_encoded_nibble(xr, enc, o, e, rows2, r0, r1, r2, r3, c, v, 1);
        lemma_nibble_cascade(r0, r1, r2, r3);
        assert(nib(r0, 0) == r0 / 16 && nib(r1, 0) == r1 / 16 && nib(r2, 0) == r2 / 16 && nib(r3, 0) == r3 / 16);
        assert(nib(r0, 1) == r0 % 16 && nib(r1, 1) == r1 % 16 && nib(r2, 1) == r2 % 16 && nib(r3, 1) == r3 % 16);
        let x = r0 ^ r1 ^ r2 ^ r3;
        assert(s1[p] == step_byte(w1, None, d1, c, v));
        assert(s1[p] == x);
        let hi = ((r3 / 16) ^ (r2 / 16)) ^ ((r1 / 16) ^ (r0 / 16));
        let lo = ((r3 % 16) ^ (r2 % 16)) ^ ((r1 % 16) ^ (r0 % 16));
        assert(x / 16 == hi && x % 16 == lo);
        assert(e.nib_spec(p, 0) == e.0[c][v][0] && e.nib_spec(p, 1) == e.0[c][v][1]);
        assert(s2[p] == step_byte(w2, Some(xr.0[c]), d2, c, v));
    }
    assert(s2 =~= enc_state(e, s1));
}


/// The encoding that the input of round `r` carries: none for the first
/// round, that of the output of round `r - 1` for the others.
pub open spec fn prev_enc(outs: Seq<XorEncodingSingle>, r: int) -> Option<XorEncodingSingle> {
    if r == 0 {
        None
    } else {
        Some(outs[r - 1])
    }
}

/// How the tables `t3` that the internal encodings give relate to the tables
/// `t2` before them: the tyboxes of round `r` decode the output encoding of
/// round `r - 1` and encode their rows with `tyo[r]`, which the XOR tables
/// (through `tyx[r]`) turn into the encoding `te[r]`; the MB/L tables and
/// their XOR tables do the same with `mo[r]` and `mx[r]`, ending with
/// `outs[r]`, and the last table decodes the output of the last round.
pub open spec fn encodings_applied<const NRM1: usize>(
    t3: Tables<NRM1>,
    t2: Tables<NRM1>,
    tyo: Seq<[XorEncodingSingle; 4]>,
    tyx: Seq<XorEncoding>,
    te: Seq<XorEncodingSingle>,
    mo: Seq<[XorEncodingSingle; 4]>,
    mx: Seq<XorEncoding>,
    outs: Seq<XorEncodingSingle>,
    sh: ShiftRowsBijection,
    ident: ShiftRowsBijection,
) -> bool {
    &&& t3.inv == t2.inv
    &&& t3.uses_xor
    &&& t3.uses_mbl == t2.uses_mbl
    &&& t2.uses_mbl ==> t3.uses_xor_mbl
    &&& forall|p: nat| p < 16 ==> #[trigger] sh.map_spec(p) == shift_src(t2.inv, p)
    &&& forall|p: nat| p < 16 ==> #[trigger] ident.map_spec(p) == p
    &&& tyo.len() == NRM1 && tyx.len() == NRM1 && te.len() == NRM1 && outs.len() == NRM1
    &&& mo.len() == NRM1 && mx.len() == NRM1
    &&& forall|r: int, k: int| 0 <= r < NRM1 && 0 <= k < 4 ==> #[trigger] tyo[r][k].wf()
    &&& forall|r: int| 0 <= r < NRM1 ==> #[trigger] outs[r].wf()
    &&& forall|r: int| 0 <= r < NRM1 ==> #[trigger] te[r].wf()
    &&& forall|r: int| 0 <= r < NRM1 ==> #[trigger] work_encoded(t3.tyboxes.0.0[r], t2.tyboxes.0.0[r], prev_enc(outs, r), tyo[r], sh)
    &&& forall|r: int| 0 <= r < NRM1 ==> #[trigger] xor_encoded(t3.xor.0.0[r], tyx[r], tyo[r], te[r])
    &&& t2.uses_mbl ==> {
        &&& forall|r: int, k: int| 0 <= r < NRM1 && 0 <= k < 4 ==> #[trigger] mo[r][k].wf()
        &&& forall|r: int| 0 <= r < NRM1 ==> #[trigger] work_encoded(t3.mbl.0.0[r], t2.mbl.0.0[r], Some(te[r]), mo[r], ident)
        &&& forall|r: int| 0 <= r < NRM1 ==> #[trigger] xor_encoded(t3.xor_mbl.0.0[r], mx[r], mo[r], outs[r])
    }
    &&& !t2.uses_mbl ==> forall|r: int| 0 <= r < NRM1 ==> #[trigger] outs[r] == te[r]
    &&& forall|x: int, p: int|
        0 <= x < 256 && 0 <= p < 16 ==> #[trigger] t3.tboxes_last.entry(x, p) == t2.tboxes_last.entry(
            outs[NRM1 - 1].map_spec(sh.map_spec(p as nat) as int, x as u8, true) as int,
            p,
        )
}

/// The encodings as `encodings_applied` states them, over tables whose XOR
/// tables compute the plain XOR.
pub open spec fn encoded_from<const NRM1: usize>(
    t3: Tables<NRM1>,
    t2: Tables<NRM1>,
    tyo: Seq<[XorEncodingSingle; 4]>,
    tyx: Seq<XorEncoding>,
    te: Seq<XorEncodingSingle>,
    mo: Seq<[XorEncodingSingle; 4]>,
    mx: Seq<XorEncoding>,
    outs: Seq<XorEncodingSingle>,
    sh: ShiftRowsBijection,
    ident: ShiftRowsBijection,
) -> bool {
    &&& encodings_applied(t3, t2, tyo, tyx, te, mo, mx, outs, sh, ident)
    &&& forall|r: int| 0 <= r < NRM1 ==> #[trigger] t2.xor.0.0[r].is_identity()
    &&& forall|r: int| 0 <= r < NRM1 ==> #[trigger] t2.xor_mbl.0.0[r].is_identity()
}

/// The mixing bijection `mb` applied to a round: the tyboxes map every row
/// by the matrix of its column, the mixing tables by a left inverse of it.
pub open spec fn mb_applied(ty1: Work, ty0: Work, mbl1: Work, mbl0: Work, mb: crate::mb::MB) -> bool {
    &&& mb.wf()
    &&& forall|p: int, x: int|
        0 <= p < 16 && 0 <= x < 256 ==> #[trigger] ty1.0[p].0[x].0@ == mb.0[p / 4].word_image(ty0.0[p].0[x].0@)
    &&& forall|c: int| 0 <= c < 4 ==> #[trigger] crate::mb::inverts_column(mbl1, mbl0, mb.0[c], c)
}

/// The tables `t3` are `t0` with the protections of `security`, in three
/// stages: `t1` after the mixing bijections `mbs`, `t2` after the L
/// matrices `ls`, `t3` after the internal encodings. A protection that is
/// not asked for leaves the tables of its stage as they are.
pub open spec fn secured_stages<const NRM1: usize>(
    t3: Tables<NRM1>,
    t2: Tables<NRM1>,
    t1: Tables<NRM1>,
    t0: Tables<NRM1>,
    security: crate::Security,
    mbs: Seq<crate::mb::MB>,
    ls: Seq<L>,
    tyo: Seq<[XorEncodingSingle; 4]>,
    tyx: Seq<XorEncoding>,
    te: Seq<XorEncodingSingle>,
    mo: Seq<[XorEncodingSingle; 4]>,
    mx: Seq<XorEncoding>,
    outs: Seq<XorEncodingSingle>,
    sh: ShiftRowsBijection,
    ident: ShiftRowsBijection,
) -> bool {
    &&& t1.inv == t0.inv
    &&& t2.inv == t0.inv
    &&& t1.tboxes_last == t0.tboxes_last
    &&& *t2.xor == *t0.xor
    &&& *t2.xor_mbl == *t0.xor_mbl
    &&& if security.mb {
        &&& mbs.len() == NRM1
        &&& forall|r: int|
            0 <= r < NRM1 ==> #[trigger] mb_applied(t1.tyboxes.0.0[r], t0.tyboxes.0.0[r], t1.mbl.0.0[r], t0.mbl.0.0[r], mbs[r])
    } else {
        &&& forall|r: int| 0 <= r < NRM1 ==> #[trigger] t1.tyboxes.0.0[r] == t0.tyboxes.0.0[r]
        &&& forall|r: int| 0 <= r < NRM1 ==> #[trigger] t1.mbl.0.0[r] == t0.mbl.0.0[r]
    }
    &&& if security.l {
        &&& ls.len() == NRM1
        &&& forall|r: int| 0 <= r < NRM1 ==> #[trigger] ls[r].wf()
        &&& forall|r: int| 0 <= r < NRM1 ==> #[trigger] l_applied(t2.mbl.0.0[r], t1.mbl.0.0[r], ls[r])
        &&& forall|r: int| 1 <= r < NRM1 ==> #[trigger] l_inv_applied(t2.tyboxes.0.0[r], t1.tyboxes.0.0[r], ls[r - 1], t0.inv)
        &&& t2.tyboxes.0.0[0] == t1.tyboxes.0.0[0]
        &&& tbox_l_inv_applied(t2.tboxes_last, t1.tboxes_last, ls[NRM1 - 1], t0.inv)
    } else {
        &&& forall|r: int| 0 <= r < NRM1 ==> #[trigger] t2.tyboxes.0.0[r] == t1.tyboxes.0.0[r]
        &&& forall|r: int| 0 <= r < NRM1 ==> #[trigger] t2.mbl.0.0[r] == t1.mbl.0.0[r]
        &&& t2.tboxes_last == t1.tboxes_last
    }
    &&& if security.internal_encodings {
        encodings_applied(t3, t2, tyo, tyx, te, mo, mx, outs, sh, ident)
    } else {
        &&& forall|r: int| 0 <= r < NRM1 ==> #[trigger] t3.tyboxes.0.0[r] == t2.tyboxes.0.0[r]
        &&& forall|r: int| 0 <= r < NRM1 ==> #[trigger] t3.mbl.0.0[r] == t2.mbl.0.0[r]
        &&& *t3.xor == *t2.xor
        &&& *t3.xor_mbl == *t2.xor_mbl
        &&& t3.tboxes_last == t2.tboxes_last
    }
}

/// `t3` is `t0` with the protections of `security`, for some drawn mixing
/// bijections, L matrices and encodings.
pub open spec fn secured_from<const NRM1: usize>(t3: Tables<NRM1>, t0: Tables<NRM1>, security: crate::Security) -> bool {
    exists|
        t2: Tables<NRM1>,
        t1: Tables<NRM1>,
        mbs: Seq<crate::mb::MB>,
        ls: Seq<L>,
        tyo: Seq<[XorEncodingSingle; 4]>,
        tyx: Seq<XorEncoding>,
        te: Seq<XorEncodingSingle>,
        mo: Seq<[XorEncodingSingle; 4]>,
        mx: Seq<XorEncoding>,
        outs: Seq<XorEncodingSingle>,
        sh: ShiftRowsBijection,
        ident: ShiftRowsBijection,
    | #[trigger] secured_stages(t3, t2, t1, t0, security, mbs, ls, tyo, tyx, te, mo, mx, outs, sh, ident)
}

/// The state that the first `n` rounds leave, with the encoding of the
/// output of round `n - 1`.
pub open spec fn enc_after(outs: Seq<XorEncodingSingle>, n: int, s: Seq<u8>) -> Seq<u8> {
    if n == 0 {
        s
    } else {
        enc_state(outs[n - 1], s)
    }
}

/// A state encoded with `e`, moved by ShiftRows, decodes to the moved plain state.
proof fn lemma_shifted_decodes<const NRM1: usize>(
    t: Tables<NRM1>,
    outs: Seq<XorEncodingSingle>,
    r: int,
    sh: ShiftRowsBijection,
    x: Seq<u8>,
)
    requires
        0 <= r,
        r > 0 ==> r - 1 < outs.len() && outs[r - 1].wf(),
        forall|p: nat| p < 16 ==> #[trigger] sh.map_spec(p) == shift_src(t.inv, p),
        x.len() == 16,
    ensures
        decodes(prev_enc(outs, r), sh, t.shift_spec(enc_after(outs, r, x)), t.shift_spec(x)),
        t.shift_spec(enc_after(outs, r, x)).len() == 16,
        t.shift_spec(x).len() == 16,
{
    let x3 = enc_after(outs, r, x);
    lemma_shift_src(t, x3, 0);
    lemma_shift_src(t, x, 0);
    assert forall|p: int| 0 <= p < 16 implies #[trigger] t.shift_spec(x)[p] == decoded_input(prev_enc(outs, r), sh, p, t.shift_spec(x3)[p]) by {
        lemma_shift_src(t, x3, p);
        lemma_shift_src(t, x, p);
        let q = shift_src(t.inv, p as nat);
        assert(sh.map_spec(p as nat) == q);
        if r > 0 {
            outs[r - 1].lemma_unmap_map(q as int, x[q as int]);
        }
    }
}

/// Round by round, the encoded tables compute the encoded state of the
/// tables before the encodings.
proof fn lemma_encoded_rounds<const NRM1: usize>(
    t3: Tables<NRM1>,
    t2: Tables<NRM1>,
    tyo: Seq<[XorEncodingSingle; 4]>,
    tyx: Seq<XorEncoding>,
    te: Seq<XorEncodingSingle>,
    mo: Seq<[XorEncodingSingle; 4]>,
    mx: Seq<XorEncoding>,
    outs: Seq<XorEncodingSingle>,
    sh: ShiftRowsBijection,
    ident: ShiftRowsBijection,
    d: Seq<u8>,
    n: nat,
)
    requires
        encoded_from(t3, t2, tyo, tyx, te, mo, mx, outs, sh, ident),
        d.len() == 16,
        n <= NRM1,
    ensures
        t3.rounds_spec(d, n) == enc_after(outs, n as int, t2.rounds_spec(d, n)),
        t2.rounds_spec(d, n).len() == 16,
    decreases n,
{
    if n > 0 {
        let r = (n - 1) as int;
        lemma_encoded_rounds(t3, t2, tyo, tyx, te, mo, mx, outs, sh, ident, d, (n - 1) as nat);
        let x2 = t2.rounds_spec(d, (n - 1) as nat);
        let x3 = t3.rounds_spec(d, (n - 1) as nat);
        if r > 0 {
            assert(outs[r - 1].wf());
        }
        lemma_shifted_decodes(t2, outs, r, sh, x2);
        let d2 = t2.shift_spec(x2);
        let d3 = t3.shift_spec(x3);
        assert(d3 == t2.shift_spec(enc_after(outs, r, x2)));
        let ty2 = t2.tyboxes.0.0[r];
        let ty3 = t3.tyboxes.0.0[r];
        assert(work_encoded(ty3, ty2, prev_enc(outs, r), tyo[r], sh));
        assert(xor_encoded(t3.xor.0.0[r], tyx[r], tyo[r], te[r]));
        assert forall|k: int| 0 <= k < 4 implies #[trigger] tyo[r][k].wf() by {}
        lemma_encoded_step(ty3, ty2, t3.xor.0.0[r], tyx[r], prev_enc(outs, r), tyo[r], te[r], sh, d3, d2);
        let y2 = step_spec(ty2, None, d2);
        let y3 = step_spec(ty3, Some(t3.xor.0.0[r]), d3);
        lemma_identity_xor_step(ty2, t2.xor.0.0[r], d2);
        assert(y3 == enc_state(te[r], y2));
        if t2.uses_mbl {
            let m2 = t2.mbl.0.0[r];
            let m3 = t3.mbl.0.0[r];
            assert(work_encoded(m3, m2, Some(te[r]), mo[r], ident));
            assert(xor_encoded(t3.xor_mbl.0.0[r], mx[r], mo[r], outs[r]));
            assert forall|k: int| 0 <= k < 4 implies #[trigger] mo[r][k].wf() by {}
            assert(te[r].wf());
            assert forall|p: int| 0 <= p < 16 implies #[trigger] y2[p] == decoded_input(Some(te[r]), ident, p, y3[p]) by {
                assert(ident.map_spec(p as nat) == p);
                te[r].lemma_unmap_map(p, y2[p]);
            }
            lemma_encoded_step(m3, m2, t3.xor_mbl.0.0[r], mx[r], Some(te[r]), mo[r], outs[r], ident, y3, y2);
            lemma_identity_xor_step(m2, t2.xor_mbl.0.0[r], y2);
        } else {
            assert(outs[r] == te[r]);
        }
        assert(t2.rounds_spec(d, n) == t2.round_spec(r, x2));
        assert(t3.rounds_spec(d, n) == t3.round_spec(r, x3));
    }
}

/// The encoded tables compute the cipher of the tables before the encodings.
pub proof fn lemma_encoded_cipher<const NRM1: usize>(
    t3: Tables<NRM1>,
    t2: Tables<NRM1>,
    tyo: Seq<[XorEncodingSingle; 4]>,
    tyx: Seq<XorEncoding>,
    te: Seq<XorEncodingSingle>,
    mo: Seq<[XorEncodingSingle; 4]>,
    mx: Seq<XorEncoding>,
    outs: Seq<XorEncodingSingle>,
    sh: ShiftRowsBijection,
    ident: ShiftRowsBijection,
    d: Seq<u8>,
)
    requires
        encoded_from(t3, t2, tyo, tyx, te, mo, mx, outs, sh, ident),
        NRM1 >= 1,
        d.len() == 16,
    ensures
        t3.cipher_spec(d) == t2.cipher_spec(d),
{
    lemma_encoded_rounds(t3, t2, tyo, tyx, te, mo, mx, outs, sh, ident, d, NRM1 as nat);
    let x2 = t2.rounds_spec(d, NRM1 as nat);
    let x3 = t3.rounds_spec(d, NRM1 as nat);
    let l = (NRM1 - 1) as int;
    assert(outs[l].wf());
    let d2 = t2.shift_spec(x2);
    let d3 = t3.shift_spec(x3);
    assert(d3 == t2.shift_spec(enc_state(outs[l], x2)));
    lemma_shift_src(t2, x2, 0);
    lemma_shift_src(t2, x3, 0);
    assert forall|p: int| 0 <= p < 16 implies tbox_spec(t3.tboxes_last, d3)[p] == tbox_spec(t2.tboxes_last, d2)[p] by {
        lemma_shift_src(t2, x3, p);
        lemma_shift_src(t2, x2, p);
        let q = shift_src(t2.inv, p as nat);
        assert(sh.map_spec(p as nat) == q);
        outs[l].lemma_unmap_map(q as int, x2[q as int]);
        assert(t3.tboxes_last.entry(d3[p] as int, p) == t2.tboxes_last.entry(
            outs[NRM1 - 1].map_spec(sh.map_spec(p as nat) as int, d3[p] as int as u8, true) as int,
            p,
        ));
    }
    assert(tbox_spec(t3.tboxes_last, d3) =~= tbox_spec(t2.tboxes_last, d2));
}


/// Mixing bijections applied to tables and then undone by their left
/// inverses give the tables back.
pub proof fn lemma_mb_roundtrip(w0: Work, w1: Work, w2: Work, mb: crate::mb::MB)
    requires
        forall|p: int, x: int|
            0 <= p < 16 && 0 <= x < 256 ==> #[trigger] w1.0[p].0[x].0@ == mb.0[p / 4].word_image(w0.0[p].0[x].0@),
        forall|c: int| 0 <= c < 4 ==> #[trigger] crate::mb::inverts_column(w2, w1, mb.0[c], c),
    ensures
        forall|p: int, x: int| 0 <= p < 16 && 0 <= x < 256 ==> #[trigger] w2.0[p].0[x].0@ == w0.0[p].0[x].0@,
{
    assert forall|p: int, x: int| 0 <= p < 16 && 0 <= x < 256 implies #[trigger] w2.0[p].0[x].0@ == w0.0[p].0[x].0@ by {
        let c = p / 4;
        let m = mb.0[c];
        assert(crate::mb::inverts_column(w2, w1, m, c));
        let b = choose|b: MatGF2<32>|
            b.is_left_inverse_of(m) && forall|p2: int, x2: int|
                0 <= p2 < 16 && p2 / 4 == c && 0 <= x2 < 256 ==> #[trigger] w2.0[p2].0[x2].0@ == b.word_image(w1.0[p2].0[x2].0@);
        assert(w2.0[p].0[x].0@ == b.word_image(w1.0[p].0[x].0@));
        b.lemma_left_inverse_word_image(m, w0.0[p].0[x].0@);
    }
}

} // verus!
