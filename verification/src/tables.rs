//! White-box tables: the rounds of a cipher as table lookups, and CFB mode on them.

use vstd::prelude::*;

use crate::aes::{inv_shift_rows_spec, shift_rows_spec};
use crate::consts::{inv_shift_rows_tab, shift_rows, shift_rows_tab};
use crate::dual::{Dual, Q};
use crate::key::{expand_nonstandard_keys, Key, RoundKeys};
use crate::sbox::{sbox_table, SBox};
use crate::tbox::{Tbox, Tboxes};
use crate::ty::Ty;
use crate::tybox::{Work, WorkRounds};
use crate::xor::{xor_column_wf, ShiftRowsBijection, Xor, XorColumn, XorPartial, XorRound};
use crate::internal::{XorEncoding, XorEncodingSingle};
use crate::mb::{L, MB};
use crate::Security;
use crate::security::{is_identity_work, l_applied, l_inv_applied, mb_applied, shift_src, tbox_l_inv_applied, undoes, unprotected, work_encoded, xor_encoded};
use crate::{Column, HighLow, Purpose, Row, SColumn, SPos, SRow, State, X, IV, RI, U4};

verus! {

/// The high (`h == 0`) or the low nibble of `x`.
pub open spec fn nib(x: u8, h: int) -> nat {
    if h == 0 {
        (x / 16) as nat
    } else {
        (x % 16) as nat
    }
}

/// Nibble half `h` of output byte `v` through the XOR tables `t`: the first
/// two rows and the last two rows are combined, then the two results.
pub open spec fn xor_cascade(t: XorColumn, rows: Seq<Seq<u8>>, v: int, h: int) -> nat {
    let a = t[0][v][h][nib(rows[0][v], h) as int].map_spec(nib(rows[1][v], h));
    let b = t[1][v][h][nib(rows[2][v], h) as int].map_spec(nib(rows[3][v], h));
    t[2][v][h][a as int].map_spec(b)
}

/// The rows that the four bytes of column `col` select in `work`.
pub open spec fn col_rows(work: Work, data: Seq<u8>, col: int) -> Seq<Seq<u8>> {
    Seq::new(4, |k: int| work.0[4 * col + k].0[data[4 * col + k] as int].0@)
}

/// Byte `v` of output column `col`: the XOR of the four selected rows, through
/// the XOR tables when there are some.
pub open spec fn step_byte(work: Work, xor: Option<XorColumn>, data: Seq<u8>, col: int, v: int) -> u8 {
    let rows = col_rows(work, data, col);
    match xor {
        Some(t) => (xor_cascade(t, rows, v, 0) * 16 + xor_cascade(t, rows, v, 1)) as u8,
        None => rows[0][v] ^ rows[1][v] ^ rows[2][v] ^ rows[3][v],
    }
}

/// One lookup step over all four columns.
pub open spec fn step_spec(work: Work, xor: Option<XorRound>, data: Seq<u8>) -> Seq<u8> {
    Seq::new(
        16,
        |p: int|
            step_byte(
                work,
                match xor {
                    Some(x) => Some(x.0[p / 4]),
                    None => None,
                },
                data,
                p / 4,
                p % 4,
            ),
    )
}

/// The last table applied to every byte.
pub open spec fn tbox_spec(t: Tbox, data: Seq<u8>) -> Seq<u8> {
    Seq::new(16, |p: int| t.entry(data[p] as int, p))
}

/// The CFB register after `n` bytes of `m` were encrypted: each block of the
/// register is the cipher of the previous one with the ciphertext XORed in.
pub open spec fn cfb_block<const NRM1: usize>(t: Tables<NRM1>, iv: Seq<u8>, m: Seq<u8>, n: nat) -> Seq<u8>
    decreases n,
{
    if n == 0 {
        iv
    } else {
        let k = (n - 1) as nat;
        let b = cfb_block(t, iv, m, k);
        let b1 = if k % 16 == 0 {
            t.cipher_spec(b)
        } else {
            b
        };
        b1.update((k % 16) as int, b1[(k % 16) as int] ^ m[k as int])
    }
}

/// The key stream byte XORed with byte `i` when `m` is encrypted.
pub open spec fn cfb_stream<const NRM1: usize>(t: Tables<NRM1>, iv: Seq<u8>, m: Seq<u8>, i: int) -> u8 {
    let b = cfb_block(t, iv, m, i as nat);
    let b1 = if i % 16 == 0 {
        t.cipher_spec(b)
    } else {
        b
    };
    b1[i % 16]
}

/// The CFB register after `n` bytes of the ciphertext `c` were decrypted: the
/// ciphertext bytes are placed in the register.
pub open spec fn cfb_block_dec<const NRM1: usize>(t: Tables<NRM1>, iv: Seq<u8>, c: Seq<u8>, n: nat) -> Seq<u8>
    decreases n,
{
    if n == 0 {
        iv
    } else {
        let k = (n - 1) as nat;
        let b = cfb_block_dec(t, iv, c, k);
        let b1 = if k % 16 == 0 {
            t.cipher_spec(b)
        } else {
            b
        };
        b1.update((k % 16) as int, c[k as int])
    }
}

/// The key stream byte XORed with byte `i` when `c` is decrypted.
pub open spec fn cfb_stream_dec<const NRM1: usize>(t: Tables<NRM1>, iv: Seq<u8>, c: Seq<u8>, i: int) -> u8 {
    let b = cfb_block_dec(t, iv, c, i as nat);
    let b1 = if i % 16 == 0 {
        t.cipher_spec(b)
    } else {
        b
    };
    b1[i % 16]
}

/// The CFB encryption of `m`.
pub open spec fn cfb_encrypt_spec<const NRM1: usize>(t: Tables<NRM1>, iv: Seq<u8>, m: Seq<u8>) -> Seq<u8> {
    Seq::new(m.len(), |i: int| cfb_stream(t, iv, m, i) ^ m[i])
}

/// The CFB decryption of `c`.
pub open spec fn cfb_decrypt_spec<const NRM1: usize>(t: Tables<NRM1>, iv: Seq<u8>, c: Seq<u8>) -> Seq<u8> {
    Seq::new(c.len(), |i: int| cfb_stream_dec(t, iv, c, i) ^ c[i])
}

proof fn lemma_cfb_registers<const NRM1: usize>(t: Tables<NRM1>, iv: Seq<u8>, m: Seq<u8>, n: nat)
    requires
        iv.len() == 16,
        n <= m.len(),
    ensures
        cfb_block_dec(t, iv, cfb_encrypt_spec(t, iv, m), n) == cfb_block(t, iv, m, n),
        cfb_block(t, iv, m, n).len() == 16,
    decreases n,
{
    if n > 0 {
        let k = (n - 1) as nat;
        lemma_cfb_registers(t, iv, m, k);
        let b = cfb_block(t, iv, m, k);
        let c = cfb_encrypt_spec(t, iv, m);
        assert(c[k as int] == cfb_stream(t, iv, m, k as int) ^ m[k as int]);
        assert(t.cipher_spec(b).len() == 16);
    }
}

/// CFB decryption with the same tables and initialization vector gives the
/// message back.
pub proof fn lemma_cfb_roundtrip<const NRM1: usize>(t: Tables<NRM1>, iv: Seq<u8>, m: Seq<u8>)
    requires
        iv.len() == 16,
    ensures
        cfb_decrypt_spec(t, iv, cfb_encrypt_spec(t, iv, m)) == m,
{
    let c = cfb_encrypt_spec(t, iv, m);
    assert forall|i: int| 0 <= i < m.len() implies #[trigger] cfb_decrypt_spec(t, iv, c)[i] == m[i] by {
        lemma_cfb_registers(t, iv, m, i as nat);
        let s = cfb_stream(t, iv, m, i);
        let v = m[i];
        assert(cfb_stream_dec(t, iv, c, i) == s);
        crate::lemma_xor_u8(s, v, 0);
    }
    assert(cfb_decrypt_spec(t, iv, c) =~= m);
}

/// The block that CFB enciphers for block `j` of a stream whose ciphertext
/// is `c`: the initialization vector for the first block, the previous
/// ciphertext block for every other.
pub open spec fn cfb_prev(iv: Seq<u8>, c: Seq<u8>, j: int) -> Seq<u8> {
    if j == 0 {
        iv
    } else {
        c.subrange(16 * (j - 1), 16 * j)
    }
}

/// The register after `n` bytes, given the ciphertext `c`: the bytes of the
/// current block so far are ciphertext, the others the cipher of the
/// block before it.
spec fn cfb_reg<const NRM1: usize>(t: Tables<NRM1>, iv: Seq<u8>, c: Seq<u8>, n: nat) -> Seq<u8> {
    if n == 0 {
        iv
    } else {
        let j = (n - 1) / 16;
        let base = 16 * j;
        Seq::new(16, |q: int| if q < n - base { c[base + q] } else { t.cipher_spec(cfb_prev(iv, c, j as int))[q] })
    }
}

/// At a block boundary the register holds the block that is enciphered next.
proof fn lemma_cfb_reg_boundary<const NRM1: usize>(t: Tables<NRM1>, iv: Seq<u8>, c: Seq<u8>, k: nat)
    requires
        iv.len() == 16,
        k % 16 == 0,
        k <= c.len(),
    ensures
        cfb_reg(t, iv, c, k) == cfb_prev(iv, c, (k / 16) as int),
{
    if k > 0 {
        assert((k - 1) / 16 == k / 16 - 1);
        assert(cfb_reg(t, iv, c, k) =~= cfb_prev(iv, c, (k / 16) as int));
    }
}

/// The encryption register follows the ciphertext.
proof fn lemma_cfb_enc_reg<const NRM1: usize>(t: Tables<NRM1>, iv: Seq<u8>, m: Seq<u8>, n: nat)
    requires
        iv.len() == 16,
        n <= m.len(),
    ensures
        cfb_block(t, iv, m, n) == cfb_reg(t, iv, cfb_encrypt_spec(t, iv, m), n),
    decreases n,
{
    if n > 0 {
        let k = (n - 1) as nat;
        let c = cfb_encrypt_spec(t, iv, m);
        lemma_cfb_enc_reg(t, iv, m, k);
        let j = k / 16;
        assert(c[k as int] == cfb_stream(t, iv, m, k as int) ^ m[k as int]);
        if k % 16 == 0 {
            lemma_cfb_reg_boundary(t, iv, c, k);
            assert((n - 1) / 16 == j && n - 16 * j == 1);
        } else {
            assert((k - 1) / 16 == j && (n - 1) / 16 == j);
            assert(k - 16 * j == k % 16);
        }
        assert(cfb_block(t, iv, m, n) =~= cfb_reg(t, iv, c, n));
    }
}

/// The decryption register follows the ciphertext.
proof fn lemma_cfb_dec_reg<const NRM1: usize>(t: Tables<NRM1>, iv: Seq<u8>, c: Seq<u8>, n: nat)
    requires
        iv.len() == 16,
        n <= c.len(),
    ensures
        cfb_block_dec(t, iv, c, n) == cfb_reg(t, iv, c, n),
    decreases n,
{
    if n > 0 {
        let k = (n - 1) as nat;
        lemma_cfb_dec_reg(t, iv, c, k);
        let j = k / 16;
        if k % 16 == 0 {
            lemma_cfb_reg_boundary(t, iv, c, k);
            assert((n - 1) / 16 == j && n - 16 * j == 1);
        } else {
            assert((k - 1) / 16 == j && (n - 1) / 16 == j);
            assert(k - 16 * j == k % 16);
        }
        assert(cfb_block_dec(t, iv, c, n) =~= cfb_reg(t, iv, c, n));
    }
}

/// The key stream byte of position `k` is byte `k % 16` of the cipher of the
/// block that the register holds at the start of the block of `k`.
proof fn lemma_cfb_stream_byte<const NRM1: usize>(t: Tables<NRM1>, iv: Seq<u8>, c: Seq<u8>, reg: Seq<u8>, k: int, b: Seq<u8>)
    requires
        iv.len() == 16,
        0 <= k < c.len(),
        reg == cfb_reg(t, iv, c, k as nat),
        b == (if k % 16 == 0 { t.cipher_spec(reg) } else { reg }),
    ensures
        b[k % 16] == t.cipher_spec(cfb_prev(iv, c, k / 16))[k % 16],
{
    if k % 16 == 0 {
        lemma_cfb_reg_boundary(t, iv, c, k as nat);
    } else {
        assert((k - 1) / 16 == k / 16);
        assert(k - 16 * (k / 16) == k % 16);
    }
}

/// CFB encryption, block by block: every ciphertext byte is the message byte
/// XOR the cipher of the previous ciphertext block (of the initialization
/// vector for the first block), for messages of every length.
pub proof fn lemma_cfb_encrypt_blocks<const NRM1: usize>(t: Tables<NRM1>, iv: Seq<u8>, m: Seq<u8>)
    requires
        iv.len() == 16,
    ensures
        cfb_encrypt_spec(t, iv, m).len() == m.len(),
        forall|k: int|
            0 <= k < m.len() ==> #[trigger] cfb_encrypt_spec(t, iv, m)[k] == m[k] ^ t.cipher_spec(
                cfb_prev(iv, cfb_encrypt_spec(t, iv, m), k / 16),
            )[k % 16],
{
    let c = cfb_encrypt_spec(t, iv, m);
    assert forall|k: int| 0 <= k < m.len() implies #[trigger] c[k] == m[k] ^ t.cipher_spec(cfb_prev(iv, c, k / 16))[k % 16] by {
        lemma_cfb_enc_reg(t, iv, m, k as nat);
        let reg = cfb_block(t, iv, m, k as nat);
        let b = if k % 16 == 0 {
            t.cipher_spec(reg)
        } else {
            reg
        };
        lemma_cfb_stream_byte(t, iv, c, reg, k, b);
        crate::lemma_xor_u8(b[k % 16], m[k], 0);
    }
}

/// CFB decryption, block by block: every message byte is the ciphertext
/// byte XOR the cipher of the previous ciphertext block (of the
/// initialization vector for the first block).
pub proof fn lemma_cfb_decrypt_blocks<const NRM1: usize>(t: Tables<NRM1>, iv: Seq<u8>, c: Seq<u8>)
    requires
        iv.len() == 16,
    ensures
        cfb_decrypt_spec(t, iv, c).len() == c.len(),
        forall|k: int|
            0 <= k < c.len() ==> #[trigger] cfb_decrypt_spec(t, iv, c)[k] == c[k] ^ t.cipher_spec(cfb_prev(iv, c, k / 16))[k % 16],
{
    let p = cfb_decrypt_spec(t, iv, c);
    assert forall|k: int| 0 <= k < c.len() implies #[trigger] p[k] == c[k] ^ t.cipher_spec(cfb_prev(iv, c, k / 16))[k % 16] by {
        lemma_cfb_dec_reg(t, iv, c, k as nat);
        let reg = cfb_block_dec(t, iv, c, k as nat);
        let b = if k % 16 == 0 {
            t.cipher_spec(reg)
        } else {
            reg
        };
        lemma_cfb_stream_byte(t, iv, c, reg, k, b);
        crate::lemma_xor_u8(b[k % 16], c[k], 0);
    }
}

/// The low four bits of an index are its remainder by 16.
proof fn lemma_low_nibble(i: usize)
    by (bit_vector)
    ensures
        (i & 0xf) == i % 16,
{
}

/// The lookup tables of a cipher of `NRM1 + 1` rounds.
pub struct Tables<const NRM1: usize> {
    /// Decryption tables: the inverse ShiftRows is used.
    pub inv: bool,
    /// T-box and Ty of every round but the last.
    pub tyboxes: Box<WorkRounds<NRM1>>,
    /// Whether the XOR tables of the tyboxes are used.
    pub uses_xor: bool,
    pub xor: Box<Xor<NRM1>>,
    /// The inverse mixing bijections, applied when `uses_mbl` is set.
    pub mbl: Box<WorkRounds<NRM1>>,
    pub uses_mbl: bool,
    /// Whether the XOR tables of the mixing step are used.
    pub uses_xor_mbl: bool,
    pub xor_mbl: Box<Xor<NRM1>>,
    /// AddRoundKey and SubBytes of the last round, and the final key.
    pub tboxes_last: Tbox,
}

impl<const NRM1: usize> Tables<NRM1> {
    pub open spec fn wf(self) -> bool {
        self.xor.wf() && self.xor_mbl.wf()
    }

    /// ShiftRows, or its inverse for decryption tables.
    pub open spec fn shift_spec(self, data: Seq<u8>) -> Seq<u8> {
        if self.inv {
            inv_shift_rows_spec(data)
        } else {
            shift_rows_spec(data)
        }
    }

    /// Round `r` of the table cipher.
    pub open spec fn round_spec(self, r: int, data: Seq<u8>) -> Seq<u8> {
        let d1 = self.shift_spec(data);
        let d2 = step_spec(self.tyboxes.0.0[r], if self.uses_xor { Some(self.xor.0.0[r]) } else { None }, d1);
        if self.uses_mbl {
            step_spec(self.mbl.0.0[r], if self.uses_xor_mbl { Some(self.xor_mbl.0.0[r]) } else { None }, d2)
        } else {
            d2
        }
    }

    /// The first `r` rounds of the table cipher.
    pub open spec fn rounds_spec(self, data: Seq<u8>, r: nat) -> Seq<u8>
        decreases r,
    {
        if r == 0 {
            data
        } else {
            self.round_spec(r - 1, self.rounds_spec(data, (r - 1) as nat))
        }
    }

    /// The tables compute the cipher of `dual` with the round keys `rk` and
    /// the substitution `table`: its encryption, or for decryption tables
    /// its decryption.
    pub open spec fn computes(self, table: Seq<u8>, rk: RoundKeys<NRM1>, dual: Dual) -> bool {
        forall|data: Seq<u8>|
            data.len() == 16 ==> #[trigger] self.cipher_spec(data) == if self.inv {
                crate::aes::decrypt_spec(data, rk, crate::aes::inverse_table(table), dual)
            } else {
                crate::aes::encrypt_spec(data, rk, table, dual)
            }
    }

    /// The table cipher on a block.
    pub open spec fn cipher_spec(self, data: Seq<u8>) -> Seq<u8> {
        tbox_spec(self.tboxes_last, self.shift_spec(self.rounds_spec(data, NRM1 as nat)))
    }

    /// The tyboxes combine the T-boxes `tb` of the substitution `table` and
    /// the round keys with the MixColumns tables `ty` of `dual`; for encryption
    /// the first round first maps its input into the dual representation.
    pub open spec fn built_from(self, tb: Tboxes<NRM1>, ty: Ty, table: Seq<u8>, rk: RoundKeys<NRM1>, inv: bool, dual: Dual) -> bool {
        &&& if inv {
            tb.inverse_spec(crate::aes::inverse_table(table), rk)
        } else {
            tb.forward_spec(table, rk)
        }
        &&& ty.matches(inv, crate::aes::dual_coeffs(dual), dual.poly.0)
        &&& forall|rr: int, p: int, x: int|
            0 <= rr < NRM1 && 0 <= p < 16 && 0 <= x < 256 ==> #[trigger] self.tyboxes.0.0[rr].0[p].0[x].0 == ty.0[p % 4][tb.tboxes.0[rr].entry(
                if rr == 0 && !inv {
                    crate::mat::rows_image(crate::dual::dual_q_rows(dual), x as u8) as int
                } else {
                    x
                },
                p,
            ) as int]
        &&& if inv {
            exists|q: crate::mat::MatGF2<8>, b: crate::mat::MatGF2<8>|
                q.rows() == crate::dual::dual_q_rows(dual) && b.is_left_inverse_of(q) && forall|x: int, p: int|
                    0 <= x < 256 && 0 <= p < 16 ==> #[trigger] self.tboxes_last.entry(x, p) == b.image(tb.last.entry(x, p))
        } else {
            self.tboxes_last == tb.last
        }
    }

    /// Tables with the given tyboxes and last T-box, no mixing bijections
    /// and plain XOR tables.
    pub fn new_base(tyboxes: WorkRounds<NRM1>, tboxes_last: Tbox, inv: bool) -> (r: Self)
        ensures
            r.wf(),
            *r.tyboxes == tyboxes,
            r.tboxes_last == tboxes_last,
            r.inv == inv,
            !r.uses_mbl && !r.uses_xor && !r.uses_xor_mbl,
            crate::security::unprotected(r),
    {
        Tables {
            tyboxes: Box::new(tyboxes),
            tboxes_last,
            inv,
            mbl: Box::new(WorkRounds::new_mbl()),
            uses_mbl: false,
            xor: Box::new(Xor::identity()),
            xor_mbl: Box::new(Xor::identity()),
            uses_xor_mbl: false,
            uses_xor: false,
        }
    }

    /// The tables of the dual cipher `dual` with the substitution `sbox`,
    /// for encryption or, with `inv`, decryption. The map into the dual
    /// representation is folded into the first round, or for decryption its
    /// inverse into the last table.
    #[verifier::spinoff_prover]
    pub fn from_nonstandard_round_keys<S: SBox + Copy>(sbox: S, round_keys: &RoundKeys<NRM1>, inv: bool, dual: Dual) -> (r: Self)
        requires
            NRM1 >= 1,
            dual.wf(),
            inv ==> dual.invertible(),
        ensures
            r.wf(),
            r.inv == inv,
            !r.uses_mbl && !r.uses_xor && !r.uses_xor_mbl,
            crate::security::unprotected(r),
            exists|tb: Tboxes<NRM1>, ty: Ty| #[trigger] r.built_from(tb, ty, sbox_table(sbox), *round_keys, inv, dual),
            r.computes(sbox_table(sbox), *round_keys, dual),
    {
        let tboxes = Tboxes::from_round_keys(sbox, round_keys, inv);
        let ty = Ty::new(inv, dual);
        let mut tyboxes = WorkRounds::new_tyi(&tboxes, &ty);
        let mut tboxes_last = tboxes.last;
        let q = Q::for_dual(dual);
        if inv {
            tboxes_last.apply_q_inv(q);
        } else {
            let ghost before = tyboxes;
            let mut w = tyboxes.0.0[0];
            w.apply_q(q);
            tyboxes.0.0[0] = w;
            proof {
                assert forall|rr: int, p: int, x: int|
                    0 <= rr < NRM1 && 0 <= p < 16 && 0 <= x < 256 implies #[trigger] tyboxes.0.0[rr].0[p].0[x].0 == ty.0[p % 4][tboxes.tboxes.0[rr].entry(
                    if rr == 0 {
                        crate::mat::rows_image(crate::dual::dual_q_rows(dual), x as u8) as int
                    } else {
                        x
                    },
                    p,
                ) as int] by {
                    if rr == 0 {
                        q.0.lemma_image_rows(x as u8);
                        assert(tyboxes.0.0[0] == w);
                        assert(w.0[p].0[x] == before.0.0[0].0[p].0[q.0.image(x as u8) as int]);
                    } else {
                        assert(tyboxes.0.0[rr] == before.0.0[rr]);
                    }
                }
            }
        }
        let r = Self::new_base(tyboxes, tboxes_last, inv);
        proof {
            assert forall|rr: int, p: int, x: int|
                0 <= rr < NRM1 && 0 <= p < 16 && 0 <= x < 256 implies #[trigger] r.tyboxes.0.0[rr].0[p].0[x].0 == ty.0[p % 4][tboxes.tboxes.0[rr].entry(
                if rr == 0 && !inv {
                    crate::mat::rows_image(crate::dual::dual_q_rows(dual), x as u8) as int
                } else {
                    x
                },
                p,
            ) as int] by {
            }
            assert(r.built_from(tboxes, ty, sbox_table(sbox), *round_keys, inv, dual));
            crate::equiv::lemma_plain_tables_compute(r, tboxes, ty, sbox_table(sbox), *round_keys, dual);
        }
        r
    }

    fn step_column(work: &Work, xor: Option<XorPartial<'_>>, col: SColumn, data: &mut State)
        requires
            match xor {
                Some(x) => xor_column_wf(*x.0),
                None => true,
            },
        ensures
            forall|p: int| 0 <= p < 16 ==> #[trigger] final(data).0[p] == if p / 4 == col.0.idx() {
                step_byte(
                    *work,
                    match xor {
                        Some(x) => Some(*x.0),
                        None => None,
                    },
                    old(data).0@,
                    p / 4,
                    p % 4,
                )
            } else {
                old(data).0[p]
            },
    {
        let ghost d0 = data.0@;
        let ghost xs = match xor {
            Some(x) => Some(*x.0),
            None => None,
        };
        let mut rows = [Row([0u8; 4]); 4];
        let mut k: usize = 0;
        while k < 4
            invariant
                k <= 4,
                data.0@ == d0,
                forall|k2: int| 0 <= k2 < k ==> #[trigger] rows[k2].0@ == col_rows(*work, d0, col.0.idx() as int)[k2],
            decreases 4 - k,
        {
            let pos = SPos::column_row(col, SRow::from_index(k));
            rows[k] = work.0[pos.as_index()].0[data.0[pos.as_index()] as usize];
            k += 1;
        }
        let ghost cr = col_rows(*work, d0, col.0.idx() as int);
        let mut out = [0u8; 4];
        let mut v: usize = 0;
        while v < 4
            invariant
                v <= 4,
                forall|k2: int| 0 <= k2 < 4 ==> #[trigger] rows[k2].0@ == cr[k2],
                cr == col_rows(*work, d0, col.0.idx() as int),
                match xor {
                    Some(x) => xor_column_wf(*x.0),
                    None => true,
                },
                xs == match xor {
                    Some(x) => Some(*x.0),
                    None => None,
                },
                forall|v2: int| 0 <= v2 < v ==> #[trigger] out[v2] == step_byte(*work, xs, d0, col.0.idx() as int, v2),
            decreases 4 - v,
        {
            let vc = SColumn::from_index(v);
            match &xor {
                Some(x) => {
                    let hi = Self::cascade(x, &rows, vc, HighLow::High);
                    let lo = Self::cascade(x, &rows, vc, HighLow::Low);
                    out[v] = X::nibs(hi, lo).0;
                },
                None => {
                    out[v] = rows[0].0[v] ^ rows[1].0[v] ^ rows[2].0[v] ^ rows[3].0[v];
                },
            }
            v += 1;
        }
        data.set_column(col, Column(out));
    }

    fn cascade(x: &XorPartial<'_>, rows: &[Row; 4], v: SColumn, n: HighLow) -> (r: U4)
        requires
            xor_column_wf(*x.0),
        ensures
            r.idx() == xor_cascade(*x.0, Seq::new(4, |k: int| rows[k].0@), v.0.idx() as int, n.idx() as int),
    {
        let a = x.map(Purpose::High, v, n, rows[0].column_nibble(v, n), rows[1].column_nibble(v, n));
        let b = x.map(Purpose::Low, v, n, rows[2].column_nibble(v, n), rows[3].column_nibble(v, n));
        x.map(Purpose::Output, v, n, a, b)
    }

    /// Runs the table cipher on a block.
    pub fn cipher(&self, data: &mut State)
        requires
            self.wf(),
        ensures
            final(data).0@ == self.cipher_spec(old(data).0@),
    {
        let tab = if self.inv {
            inv_shift_rows_tab()
        } else {
            shift_rows_tab()
        };
        let mut r: usize = 0;
        while r < NRM1
            invariant
                r <= NRM1,
                self.wf(),
                tab.wf(),
                forall|p: nat| p < 16 ==> tab.map_spec(p) == if self.inv {
                    crate::consts::inv_shift_rows_src(p)
                } else {
                    crate::consts::shift_rows_src(p)
                },
                data.0@ == self.rounds_spec(old(data).0@, r as nat),
            decreases NRM1 - r,
        {
            let ghost d = data.0@;
            shift_rows(data, &tab);
            assert(data.0@ =~= self.shift_spec(d));
            let ghost d1 = data.0@;
            let ghost d2 = step_spec(self.tyboxes.0.0[r as int], if self.uses_xor { Some(self.xor.0.0[r as int]) } else { None }, d1);
            let mut col: usize = 0;
            while col < 4
                invariant
                    r < NRM1,
                    col <= 4,
                    self.wf(),
                    d2 == step_spec(self.tyboxes.0.0[r as int], if self.uses_xor { Some(self.xor.0.0[r as int]) } else { None }, d1),
                    forall|p: int| 0 <= p < 16 ==> #[trigger] data.0[p] == if p / 4 < col {
                        self.round_spec(r as int, d)[p]
                    } else {
                        d1[p]
                    },
                    d1 == self.shift_spec(d),
                decreases 4 - col,
            {
                let c = SColumn::from_index(col);
                let ghost before = data.0@;
                let xor = if self.uses_xor {
                    Some(self.xor.partial_map(RI(r), c))
                } else {
                    None
                };
                proof {
                    assert(self.xor.0.0[r as int].wf());
                }
                Self::step_column(&self.tyboxes.0.0[r], xor, c, data);
                proof {
                    assert forall|p: int| 0 <= p < 16 && p / 4 == col implies #[trigger] data.0[p] == d2[p] by {
                        assert(col_rows(self.tyboxes.0.0[r as int], before, col as int) =~= col_rows(self.tyboxes.0.0[r as int], d1, col as int));
                    }
                }
                if self.uses_mbl {
                    let ghost before2 = data.0@;
                    let xor2 = if self.uses_xor_mbl {
                        Some(self.xor_mbl.partial_map(RI(r), c))
                    } else {
                        None
                    };
                    proof {
                        assert(self.xor_mbl.0.0[r as int].wf());
                    }
                    Self::step_column(&self.mbl.0.0[r], xor2, c, data);
                    proof {
                        assert forall|p: int| 0 <= p < 16 && p / 4 == col implies #[trigger] data.0[p] == self.round_spec(r as int, d)[p] by {
                            assert(col_rows(self.mbl.0.0[r as int], before2, col as int) =~= col_rows(self.mbl.0.0[r as int], d2, col as int));
                        }
                    }
                }
                col += 1;
            }
            assert(data.0@ =~= self.round_spec(r as int, d));
            r += 1;
        }
        let ghost d = data.0@;
        shift_rows(data, &tab);
        assert(data.0@ =~= self.shift_spec(d));
        self.tboxes_last.apply(data);
        assert(data.0@ =~= self.cipher_spec(old(data).0@));
    }

    /// Encrypts `m` in place in CFB mode with the initialization vector `iv`.
    pub fn encrypt_cfb(&self, iv: IV, m: &mut [u8])
        requires
            self.wf(),
        ensures
            final(m)@ == cfb_encrypt_spec(*self, iv.0@, old(m)@),
            forall|k: int|
                0 <= k < old(m)@.len() ==> #[trigger] final(m)@[k] == old(m)@[k] ^ self.cipher_spec(cfb_prev(iv.0@, final(m)@, k / 16))[k
                    % 16],
    {
        let ghost m0 = m@;
        let mut cfb_blk = State(iv.0);
        let mut i: usize = 0;
        while i < m.len()
            invariant
                self.wf(),
                i <= m@.len(),
                m@.len() == m0.len(),
                forall|j: int| 0 <= j < i ==> #[trigger] m@[j] == cfb_stream(*self, iv.0@, m0, j) ^ m0[j],
                forall|j: int| i <= j < m@.len() ==> m@[j] == m0[j],
                cfb_blk.0@ == cfb_block(*self, iv.0@, m0, i as nat),
            decreases m@.len() - i,
        {
            proof {
                lemma_low_nibble(i);
            }
            if i & 0xf == 0 {
                self.cipher(&mut cfb_blk);
            }
            let pos = i & 0xf;
            let v = m[i];
            cfb_blk.0[pos] = cfb_blk.0[pos] ^ v;
            m[i] = cfb_blk.0[pos];
            assert(cfb_blk.0@ =~= cfb_block(*self, iv.0@, m0, (i + 1) as nat));
            i += 1;
        }
        assert(m@ =~= cfb_encrypt_spec(*self, iv.0@, m0));
        proof {
            lemma_cfb_encrypt_blocks(*self, iv.0@, m0);
        }
    }

    /// Decrypts `m` in place in CFB mode with the initialization vector `iv`.
    pub fn decrypt_cfb(&self, iv: IV, m: &mut [u8])
        requires
            self.wf(),
        ensures
            final(m)@ == cfb_decrypt_spec(*self, iv.0@, old(m)@),
            forall|k: int|
                0 <= k < old(m)@.len() ==> #[trigger] final(m)@[k] == old(m)@[k] ^ self.cipher_spec(cfb_prev(iv.0@, old(m)@, k / 16))[k
                    % 16],
    {
        let ghost c0 = m@;
        let mut cfb_blk = State(iv.0);
        let mut i: usize = 0;
        while i < m.len()
            invariant
                self.wf(),
                i <= m@.len(),
                m@.len() == c0.len(),
                forall|j: int| 0 <= j < i ==> #[trigger] m@[j] == cfb_stream_dec(*self, iv.0@, c0, j) ^ c0[j],
                forall|j: int| i <= j < m@.len() ==> m@[j] == c0[j],
                cfb_blk.0@ == cfb_block_dec(*self, iv.0@, c0, i as nat),
            decreases m@.len() - i,
        {
            proof {
                lemma_low_nibble(i);
            }
            if i & 0xf == 0 {
                self.cipher(&mut cfb_blk);
            }
            let pos = i & 0xf;
            let c = m[i];
            m[i] = cfb_blk.0[pos] ^ c;
            cfb_blk.0[pos] = c;
            assert(cfb_blk.0@ =~= cfb_block_dec(*self, iv.0@, c0, (i + 1) as nat));
            i += 1;
        }
        assert(m@ =~= cfb_decrypt_spec(*self, iv.0@, c0));
        proof {
            lemma_cfb_decrypt_blocks(*self, iv.0@, c0);
        }
    }
}


impl<const NRM1: usize> Tables<NRM1> {
    /// The tables of the dual cipher `dual` for the cipher key `key`, whose
    /// schedule is expanded with `sbox`.
    pub fn from_nonstandard_key<S: SBox + Copy, const NK: usize>(sbox: S, key: Key<NK>, inv: bool, dual: Dual) -> (r: Self)
        requires
            NRM1 >= 1,
            dual.wf(),
            inv ==> dual.invertible(),
            0 < NK <= 4 * (NRM1 + 2),
            4 * (NRM1 + 2) <= usize::MAX,
        ensures
            r.wf(),
            r.inv == inv,
            !r.uses_mbl && !r.uses_xor && !r.uses_xor_mbl,
            crate::security::unprotected(r),
            exists|rk: RoundKeys<NRM1>, tb: Tboxes<NRM1>, ty: Ty|
                rk.schedule_matches(key.words(), sbox_table(sbox), dual) && #[trigger] r.built_from(tb, ty, sbox_table(sbox), rk, inv, dual)
                    && r.computes(sbox_table(sbox), rk, dual),
    {
        let rk = expand_nonstandard_keys(sbox, key, dual);
        let r = Self::from_nonstandard_round_keys(sbox, &rk, inv, dual);
        r
    }
}

/// White-box tables of AES-128.
pub type Aes128Tables = Tables<9>;

/// White-box tables of AES-192.
pub type Aes192Tables = Tables<11>;

/// White-box tables of AES-256.
pub type Aes256Tables = Tables<13>;

/// Round keys of AES-128.
pub type Aes128RoundKeys = RoundKeys<9>;

/// Round keys of AES-192.
pub type Aes192RoundKeys = RoundKeys<11>;

/// Round keys of AES-256.
pub type Aes256RoundKeys = RoundKeys<13>;

impl Tables<9> {
    /// The tables of standard AES-128 for `key`.
    pub fn from_key(key: Key<4>, inv: bool) -> (r: Self)
        ensures
            r.wf(),
            r.inv == inv,
            crate::security::unprotected(r),
            exists|rk: RoundKeys<9>, tb: Tboxes<9>, ty: Ty|
                rk.schedule_matches(key.words(), crate::sbox::standard_sbox_table(), crate::dual::standard_dual()) && #[trigger] r.built_from(
                    tb,
                    ty,
                    crate::sbox::standard_sbox_table(),
                    rk,
                    inv,
                    crate::dual::standard_dual(),
                ) && r.computes(crate::sbox::standard_sbox_table(), rk, crate::dual::standard_dual()),
    {
        let sbox = crate::sbox::PrecomputedSBox::aes_standard();
        assert(sbox_table(&sbox) =~= sbox_table(sbox));
        Self::from_nonstandard_key(&sbox, key, inv, Dual::standard())
    }

    /// The tables of standard AES-128 for the given round keys.
    pub fn from_unchecked_round_keys(round_keys: &RoundKeys<9>, inv: bool) -> (r: Self)
        ensures
            r.wf(),
            r.inv == inv,
            crate::security::unprotected(r),
            exists|tb: Tboxes<9>, ty: Ty| #[trigger] r.built_from(tb, ty, crate::sbox::standard_sbox_table(), *round_keys, inv, crate::dual::standard_dual()),
            r.computes(crate::sbox::standard_sbox_table(), *round_keys, crate::dual::standard_dual()),
    {
        let sbox = crate::sbox::PrecomputedSBox::aes_standard();
        assert(sbox_table(&sbox) =~= sbox_table(sbox));
        Self::from_nonstandard_round_keys(&sbox, round_keys, inv, Dual::standard())
    }
}

impl Tables<11> {
    /// The tables of standard AES-192 for `key`.
    pub fn from_key(key: Key<6>, inv: bool) -> (r: Self)
        ensures
            r.wf(),
            r.inv == inv,
            crate::security::unprotected(r),
            exists|rk: RoundKeys<11>, tb: Tboxes<11>, ty: Ty|
                rk.schedule_matches(key.words(), crate::sbox::standard_sbox_table(), crate::dual::standard_dual()) && #[trigger] r.built_from(
                    tb,
                    ty,
                    crate::sbox::standard_sbox_table(),
                    rk,
                    inv,
                    crate::dual::standard_dual(),
                ) && r.computes(crate::sbox::standard_sbox_table(), rk, crate::dual::standard_dual()),
    {
        let sbox = crate::sbox::PrecomputedSBox::aes_standard();
        assert(sbox_table(&sbox) =~= sbox_table(sbox));
        Self::from_nonstandard_key(&sbox, key, inv, Dual::standard())
    }

    /// The tables of standard AES-192 for the given round keys.
    pub fn from_unchecked_round_keys(round_keys: &RoundKeys<11>, inv: bool) -> (r: Self)
        ensures
            r.wf(),
            r.inv == inv,
            crate::security::unprotected(r),
            exists|tb: Tboxes<11>, ty: Ty| #[trigger] r.built_from(tb, ty, crate::sbox::standard_sbox_table(), *round_keys, inv, crate::dual::standard_dual()),
            r.computes(crate::sbox::standard_sbox_table(), *round_keys, crate::dual::standard_dual()),
    {
        let sbox = crate::sbox::PrecomputedSBox::aes_standard();
        assert(sbox_table(&sbox) =~= sbox_table(sbox));
        Self::from_nonstandard_round_keys(&sbox, round_keys, inv, Dual::standard())
    }
}

impl Tables<13> {
    /// The tables of standard AES-256 for `key`.
    pub fn from_key(key: Key<8>, inv: bool) -> (r: Self)
        ensures
            r.wf(),
            r.inv == inv,
            crate::security::unprotected(r),
            exists|rk: RoundKeys<13>, tb: Tboxes<13>, ty: Ty|
                rk.schedule_matches(key.words(), crate::sbox::standard_sbox_table(), crate::dual::standard_dual()) && #[trigger] r.built_from(
                    tb,
                    ty,
                    crate::sbox::standard_sbox_table(),
                    rk,
                    inv,
                    crate::dual::standard_dual(),
                ) && r.computes(crate::sbox::standard_sbox_table(), rk, crate::dual::standard_dual()),
    {
        let sbox = crate::sbox::PrecomputedSBox::aes_standard();
        assert(sbox_table(&sbox) =~= sbox_table(sbox));
        Self::from_nonstandard_key(&sbox, key, inv, Dual::standard())
    }

    /// The tables of standard AES-256 for the given round keys.
    pub fn from_unchecked_round_keys(round_keys: &RoundKeys<13>, inv: bool) -> (r: Self)
        ensures
            r.wf(),
            r.inv == inv,
            crate::security::unprotected(r),
            exists|tb: Tboxes<13>, ty: Ty| #[trigger] r.built_from(tb, ty, crate::sbox::standard_sbox_table(), *round_keys, inv, crate::dual::standard_dual()),
            r.computes(crate::sbox::standard_sbox_table(), *round_keys, crate::dual::standard_dual()),
    {
        let sbox = crate::sbox::PrecomputedSBox::aes_standard();
        assert(sbox_table(&sbox) =~= sbox_table(sbox));
        Self::from_nonstandard_round_keys(&sbox, round_keys, inv, Dual::standard())
    }
}

impl<const NRM1: usize> Tables<NRM1> {
    /// Adds the protections of `security`: mixing bijections on rows (MB) and
    /// bytes (L) with their inverses in the MB/L tables, and random internal
    /// encodings of the table outputs undone by the XOR tables.
    pub fn apply_security(&mut self, security: Security, rng: &mut rand::rngs::ThreadRng)
        requires
            old(self).wf(),
            NRM1 >= 1,
        ensures
            final(self).wf(),
            final(self).inv == old(self).inv,
            final(self).uses_mbl == (old(self).uses_mbl || security.mb || security.l || security.force_mbl),
            final(self).uses_xor == (old(self).uses_xor || security.internal_encodings || security.force_xor),
            final(self).uses_xor_mbl == (old(self).uses_xor_mbl || (security.internal_encodings && final(self).uses_mbl)
                || security.force_mbl_xor),
            crate::security::secured_from(*final(self), *old(self), security),
            !security.l && !security.internal_encodings ==> final(self).tboxes_last == old(self).tboxes_last,
            !security.mb && !security.l && !security.internal_encodings ==> {
                &&& forall|r: int| 0 <= r < NRM1 ==> #[trigger] final(self).tyboxes.0.0[r] == old(self).tyboxes.0.0[r]
                &&& forall|r: int| 0 <= r < NRM1 ==> #[trigger] final(self).mbl.0.0[r] == old(self).mbl.0.0[r]
                &&& *final(self).xor == *old(self).xor
                &&& *final(self).xor_mbl == *old(self).xor_mbl
            },
            unprotected(*old(self)) ==> forall|d: Seq<u8>|
                d.len() == 16 ==> #[trigger] final(self).cipher_spec(d) == old(self).cipher_spec(d),
    {
        let ghost t0 = *self;
        let ghost mut mbs: Seq<MB> = Seq::empty();
        let shift_rows = if self.inv {
            crate::consts::inv_shift_rows_tab()
        } else {
            crate::consts::shift_rows_tab()
        };
        if security.mb {
            let mut r: usize = 0;
            while r < NRM1
                invariant
                    r <= NRM1,
                    self.wf(),
                    t0 == *old(self),
                    self.inv == old(self).inv,
                    self.uses_mbl == old(self).uses_mbl,
                    self.uses_xor == old(self).uses_xor,
                    self.uses_xor_mbl == old(self).uses_xor_mbl,
                    *self.xor == *t0.xor,
                    *self.xor_mbl == *t0.xor_mbl,
                    self.tboxes_last == t0.tboxes_last,
                    unprotected(t0) ==> forall|rr: int|
                        0 <= rr < r ==> #[trigger] undoes(self.mbl.0.0[rr], self.tyboxes.0.0[rr], t0.tyboxes.0.0[rr]),
                    mbs.len() == r,
                    forall|rr: int|
                        0 <= rr < r ==> #[trigger] mb_applied(self.tyboxes.0.0[rr], t0.tyboxes.0.0[rr], self.mbl.0.0[rr], t0.mbl.0.0[rr], mbs[rr]),
                    forall|rr: int| r <= rr < NRM1 ==> #[trigger] self.tyboxes.0.0[rr] == t0.tyboxes.0.0[rr],
                    forall|rr: int| r <= rr < NRM1 ==> #[trigger] self.mbl.0.0[rr] == t0.mbl.0.0[rr],
                decreases NRM1 - r,
            {
                let mb = MB::random(rng);
                let mut w = self.tyboxes.0.0[r];
                w.apply_mb(&mb);
                let ghost before_ty = self.tyboxes.0.0[r as int];
                let ghost before_mbl = self.mbl.0.0[r as int];
                self.tyboxes.0.0[r] = w;
                let mut m = self.mbl.0.0[r];
                m.apply_mb_inv(&mb);
                self.mbl.0.0[r] = m;
                proof {
                    mbs = mbs.push(mb);
                    assert(mb_applied(w, before_ty, m, before_mbl, mb));
                    if unprotected(t0) {
                        assert(is_identity_work(before_mbl));
                        assert forall|d: Seq<u8>| d.len() == 16 implies #[trigger] step_spec(m, None, step_spec(w, None, d))
                            == step_spec(t0.tyboxes.0.0[r as int], None, d) by {
                            crate::security::lemma_mb_round(before_ty, w, before_mbl, m, mb, d);
                        }
                        assert(undoes(m, w, t0.tyboxes.0.0[r as int]));
                    }
                }
                r += 1;
            }
        }
        let ghost t1 = *self;
        proof {
            if unprotected(t0) {
                assert forall|rr: int| 0 <= rr < NRM1 implies #[trigger] undoes(t1.mbl.0.0[rr], t1.tyboxes.0.0[rr], t0.tyboxes.0.0[rr]) by {
                    if !security.mb {
                        assert(is_identity_work(t0.mbl.0.0[rr]));
                        assert forall|d: Seq<u8>| d.len() == 16 implies #[trigger] step_spec(t1.mbl.0.0[rr], None, step_spec(t1.tyboxes.0.0[rr], None, d))
                            == step_spec(t0.tyboxes.0.0[rr], None, d) by {
                            crate::security::lemma_identity_work_step(t0.mbl.0.0[rr], step_spec(t0.tyboxes.0.0[rr], None, d));
                        }
                    }
                }
            }
        }
        let ghost mut ls: Seq<L> = Seq::empty();
        if security.l {
            let mut prev_l: Option<L> = None;
            let mut r: usize = 0;
            while r < NRM1
                invariant
                    r <= NRM1,
                    NRM1 >= 1,
                    self.wf(),
                    shift_rows.wf(),
                    forall|p: nat| p < 16 ==> shift_rows.map_spec(p) == shift_src(t0.inv, p),
                    t0 == *old(self),
                    self.inv == old(self).inv,
                    self.uses_mbl == old(self).uses_mbl,
                    self.uses_xor == old(self).uses_xor,
                    self.uses_xor_mbl == old(self).uses_xor_mbl,
                    *self.xor == *t1.xor,
                    *self.xor_mbl == *t1.xor_mbl,
                    self.tboxes_last == t1.tboxes_last,
                    ls.len() == r,
                    forall|rr: int| 0 <= rr < r ==> #[trigger] ls[rr].wf(),
                    r > 0 <==> prev_l is Some,
                    match prev_l {
                        Some(l) => l.wf() && l == ls[r - 1],
                        None => true,
                    },
                    forall|rr: int| 0 <= rr < r ==> #[trigger] l_applied(self.mbl.0.0[rr], t1.mbl.0.0[rr], ls[rr]),
                    forall|rr: int| 1 <= rr < r ==> #[trigger] l_inv_applied(self.tyboxes.0.0[rr], t1.tyboxes.0.0[rr], ls[rr - 1], t0.inv),
                    self.tyboxes.0.0[0] == t1.tyboxes.0.0[0],
                    forall|rr: int| r <= rr < NRM1 ==> #[trigger] self.tyboxes.0.0[rr] == t1.tyboxes.0.0[rr],
                    forall|rr: int| r <= rr < NRM1 ==> #[trigger] self.mbl.0.0[rr] == t1.mbl.0.0[rr],
                decreases NRM1 - r,
            {
                match &prev_l {
                    Some(pl) => {
                        let mut w = self.tyboxes.0.0[r];
                        w.apply_l_inv(pl, &shift_rows);
                        self.tyboxes.0.0[r] = w;
                        proof {
                            assert(l_inv_applied(w, t1.tyboxes.0.0[r as int], ls[r - 1], t0.inv));
                        }
                    },
                    None => {},
                }
                let l = L::random(rng);
                let mut m = self.mbl.0.0[r];
                m.apply_l(&l);
                self.mbl.0.0[r] = m;
                proof {
                    ls = ls.push(l);
                    assert(l_applied(m, t1.mbl.0.0[r as int], ls[r as int]));
                }
                prev_l = Some(l);
                r += 1;
            }
            match &prev_l {
                Some(l) => {
                    self.tboxes_last.apply_l_inv(l, &shift_rows);
                    proof {
                        assert(tbox_l_inv_applied(self.tboxes_last, t1.tboxes_last, ls[NRM1 - 1], t0.inv));
                    }
                },
                None => {},
            }
        }
        let uses_mbl = security.mb || security.l || security.force_mbl || self.uses_mbl;
        self.uses_mbl = self.uses_mbl || uses_mbl;
        let ghost t2 = *self;
        let ghost mut tyo: Seq<[XorEncodingSingle; 4]> = Seq::empty();
        let ghost mut tyx: Seq<XorEncoding> = Seq::empty();
        let ghost mut te: Seq<XorEncodingSingle> = Seq::empty();
        let ghost mut mo: Seq<[XorEncodingSingle; 4]> = Seq::empty();
        let ghost mut mx: Seq<XorEncoding> = Seq::empty();
        let ghost mut outs: Seq<XorEncodingSingle> = Seq::empty();
        let ghost mut ident_g: ShiftRowsBijection = shift_rows;
        if security.internal_encodings {
            let mut prev: Option<XorEncodingSingle> = None;
            let ident = ShiftRowsBijection::identity();
            proof {
                ident_g = ident;
            }
            let mut r: usize = 0;
            while r < NRM1
                invariant
                    r <= NRM1,
                    self.wf(),
                    shift_rows.wf(),
                    ident.wf(),
                    ident_g == ident,
                    forall|p: nat| p < 16 ==> ident.map_spec(p) == p,
                    forall|p: nat| p < 16 ==> shift_rows.map_spec(p) == shift_src(t2.inv, p),
                    self.inv == old(self).inv,
                    self.inv == t2.inv,
                    self.tboxes_last == t2.tboxes_last,
                    self.uses_mbl == uses_mbl,
                    t2.uses_mbl == uses_mbl,
                    uses_mbl == (old(self).uses_mbl || security.mb || security.l || security.force_mbl),
                    r > 0 ==> self.uses_xor,
                    r == 0 ==> self.uses_xor == old(self).uses_xor,
                    r > 0 && uses_mbl ==> self.uses_xor_mbl,
                    r == 0 || !uses_mbl ==> self.uses_xor_mbl == old(self).uses_xor_mbl,
                    match prev {
                        Some(e) => e.wf(),
                        None => true,
                    },
                    prev == crate::security::prev_enc(outs, r as int),
                    tyo.len() == r && tyx.len() == r && te.len() == r && mo.len() == r && mx.len() == r && outs.len() == r,
                    forall|rr: int, k: int| 0 <= rr < r && 0 <= k < 4 ==> #[trigger] tyo[rr][k].wf(),
                    forall|rr: int| 0 <= rr < r ==> #[trigger] outs[rr].wf(),
                    forall|rr: int| 0 <= rr < r ==> #[trigger] te[rr].wf(),
                    forall|rr: int| 0 <= rr < r ==> #[trigger] work_encoded(self.tyboxes.0.0[rr], t2.tyboxes.0.0[rr], crate::security::prev_enc(outs, rr), tyo[rr], shift_rows),
                    forall|rr: int| 0 <= rr < r ==> #[trigger] xor_encoded(self.xor.0.0[rr], tyx[rr], tyo[rr], te[rr]),
                    uses_mbl ==> forall|rr: int, k: int| 0 <= rr < r && 0 <= k < 4 ==> #[trigger] mo[rr][k].wf(),
                    uses_mbl ==> forall|rr: int| 0 <= rr < r ==> #[trigger] work_encoded(self.mbl.0.0[rr], t2.mbl.0.0[rr], Some(te[rr]), mo[rr], ident),
                    uses_mbl ==> forall|rr: int| 0 <= rr < r ==> #[trigger] xor_encoded(self.xor_mbl.0.0[rr], mx[rr], mo[rr], outs[rr]),
                    !uses_mbl ==> forall|rr: int| 0 <= rr < r ==> #[trigger] outs[rr] == te[rr],
                    forall|rr: int| r <= rr < NRM1 ==> #[trigger] self.tyboxes.0.0[rr] == t2.tyboxes.0.0[rr],
                    forall|rr: int| r <= rr < NRM1 ==> #[trigger] self.mbl.0.0[rr] == t2.mbl.0.0[rr],
                decreases NRM1 - r,
            {
                self.uses_xor = true;
                let tyi_output_coding = [
                    XorEncodingSingle::random(rng),
                    XorEncodingSingle::random(rng),
                    XorEncodingSingle::random(rng),
                    XorEncodingSingle::random(rng),
                ];
                let ghost before = *self;
                let mut w = self.tyboxes.0.0[r];
                w.encode(&prev, &Some(tyi_output_coding), &shift_rows);
                self.tyboxes.0.0[r] = w;
                let xor_encoding = XorEncoding::random_from_tyi(rng, tyi_output_coding);
                let mut xr = self.xor.0.0[r];
                let e = xr.encode(xor_encoding);
                self.xor.0.0[r] = xr;
                assert forall|k: int| 0 <= k < NRM1 implies #[trigger] self.xor.0.0[k].wf() by {
                    if k != r {
                        assert(self.xor.0.0[k] == before.xor.0.0[k]);
                    }
                }
                proof {
                    assert(work_encoded(w, t2.tyboxes.0.0[r as int], prev, tyi_output_coding, shift_rows));
                    assert(xor_encoded(xr, xor_encoding, tyi_output_coding, e));
                    tyo = tyo.push(tyi_output_coding);
                    tyx = tyx.push(xor_encoding);
                    te = te.push(e);
                    assert(xor_encoding.xor_output[2].wf());
                }
                let ghost prev_outs = outs;
                prev = Some(e);
                if uses_mbl {
                    self.uses_xor_mbl = true;
                    let tyi_output_coding = [
                        XorEncodingSingle::random(rng),
                        XorEncodingSingle::random(rng),
                        XorEncodingSingle::random(rng),
                        XorEncodingSingle::random(rng),
                    ];
                    let mut m = self.mbl.0.0[r];
                    m.encode(&prev, &Some(tyi_output_coding), &ident);
                    self.mbl.0.0[r] = m;
                    let xor_encoding = XorEncoding::random_from_tyi(rng, tyi_output_coding);
                    let mut xr = self.xor_mbl.0.0[r];
                    let e = xr.encode(xor_encoding);
                    let ghost before = self.xor_mbl;
                    self.xor_mbl.0.0[r] = xr;
                    assert forall|k: int| 0 <= k < NRM1 implies #[trigger] self.xor_mbl.0.0[k].wf() by {
                        if k != r {
                            assert(self.xor_mbl.0.0[k] == before.0.0[k]);
                        }
                    }
                    proof {
                        assert(work_encoded(m, t2.mbl.0.0[r as int], prev, tyi_output_coding, ident));
                        assert(xor_encoded(xr, xor_encoding, tyi_output_coding, e));
                        mo = mo.push(tyi_output_coding);
                        mx = mx.push(xor_encoding);
                        outs = outs.push(e);
                        assert(xor_encoding.xor_output[2].wf());
                    }
                    prev = Some(e);
                } else {
                    proof {
                        mo = mo.push(tyi_output_coding);
                        mx = mx.push(xor_encoding);
                        outs = outs.push(e);
                    }
                }
                proof {
                    assert forall|rr: int| 0 <= rr < r + 1 implies #[trigger] crate::security::prev_enc(outs, rr) == crate::security::prev_enc(prev_outs, rr) || rr == r + 1 by {
                    }
                    assert forall|rr: int| 0 <= rr < r + 1 implies #[trigger] work_encoded(self.tyboxes.0.0[rr], t2.tyboxes.0.0[rr], crate::security::prev_enc(outs, rr), tyo[rr], shift_rows) by {
                        assert(crate::security::prev_enc(outs, rr) == crate::security::prev_enc(prev_outs, rr));
                        if rr < r {
                            assert(self.tyboxes.0.0[rr] == before.tyboxes.0.0[rr]);
                        }
                    }
                    assert forall|rr: int| 0 <= rr < r + 1 implies #[trigger] xor_encoded(self.xor.0.0[rr], tyx[rr], tyo[rr], te[rr]) by {
                        if rr < r {
                            assert(self.xor.0.0[rr] == before.xor.0.0[rr]);
                        }
                    }
                    if uses_mbl {
                        assert forall|rr: int| 0 <= rr < r + 1 implies #[trigger] work_encoded(self.mbl.0.0[rr], t2.mbl.0.0[rr], Some(te[rr]), mo[rr], ident) by {
                            if rr < r {
                                assert(self.mbl.0.0[rr] == before.mbl.0.0[rr]);
                            }
                        }
                        assert forall|rr: int| 0 <= rr < r + 1 implies #[trigger] xor_encoded(self.xor_mbl.0.0[rr], mx[rr], mo[rr], outs[rr]) by {
                            if rr < r {
                                assert(self.xor_mbl.0.0[rr] == before.xor_mbl.0.0[rr]);
                            }
                        }
                    }
                    assert(prev == crate::security::prev_enc(outs, r + 1));
                }
                r += 1;
            }
            match &prev {
                Some(e) => {
                    self.tboxes_last.encode(e, &shift_rows);
                },
                None => {},
            }
        }
        if security.force_mbl_xor {
            self.uses_xor_mbl = true;
        }
        if security.force_xor {
            self.uses_xor = true;
        }
        proof {
            if security.internal_encodings {
                assert(crate::security::encodings_applied(*self, t2, tyo, tyx, te, mo, mx, outs, shift_rows, ident_g));
            }
            assert(crate::security::secured_stages(*self, t2, t1, t0, security, mbs, ls, tyo, tyx, te, mo, mx, outs, shift_rows, ident_g));
            if unprotected(t0) {
                if !security.internal_encodings {
                    assert(crate::security::protected_from(*self, t1, t0, security.l, ls));
                    assert forall|d: Seq<u8>| d.len() == 16 implies #[trigger] self.cipher_spec(d) == t0.cipher_spec(d) by {
                        crate::security::lemma_protected_cipher(*self, t1, t0, security.l, ls, d);
                    }
                } else {
                    assert(crate::security::protected_from(t2, t1, t0, security.l, ls));
                    assert(crate::security::encoded_from(*self, t2, tyo, tyx, te, mo, mx, outs, shift_rows, ident_g));
                    assert forall|d: Seq<u8>| d.len() == 16 implies #[trigger] self.cipher_spec(d) == t0.cipher_spec(d) by {
                        crate::security::lemma_protected_cipher(t2, t1, t0, security.l, ls, d);
                        crate::security::lemma_encoded_cipher(*self, t2, tyo, tyx, te, mo, mx, outs, shift_rows, ident_g, d);
                    }
                }
            }
        }
    }
}
} // verus!
