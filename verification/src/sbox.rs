//! S-boxes: the AES S-box in the representation of a dual cipher, and the
//! inversion of tables.

use vstd::prelude::*;

use crate::dual::{affine_cols, aes_poly, dual_q_rows, standard_dual, has_inverse, irreducible_polynomials, pinv, Dual, Poly, Q, AFFINE_CONSTANT, affine_matrix};
use crate::mat::{column_bytes_rows, identity_rows, MatGF2};
use crate::{X, XArr};

verus! {

/// A byte substitution.
pub trait SBox {
    /// The byte that `v` is substituted by.
    spec fn sub_spec(&self, v: u8) -> u8;

    fn sub_byte(&self, v: X) -> (r: X)
        ensures
            r.0 == self.sub_spec(v.0),
    ;
}

impl<S: SBox> SBox for &S {
    open spec fn sub_spec(&self, v: u8) -> u8 {
        (**self).sub_spec(v)
    }

    fn sub_byte(&self, v: X) -> (r: X) {
        (**self).sub_byte(v)
    }
}

/// The table of a substitution.
pub open spec fn sbox_table<S: SBox>(s: S) -> Seq<u8> {
    Seq::new(256, |i: int| s.sub_spec(i as u8))
}

/// Entry `y` of the inverse of `table` after the entries below `n` were
/// processed: the last `i < n` with `table[i] == y`, zero if there is none.
pub open spec fn inverse_entry(table: Seq<u8>, y: u8, n: nat) -> u8
    decreases n,
{
    if n == 0 {
        0
    } else if table[n - 1] == y {
        (n - 1) as u8
    } else {
        inverse_entry(table, y, (n - 1) as nat)
    }
}

/// A table with no repeated entry is undone by its inverse.
pub proof fn lemma_inverse_entry_bijective(table: Seq<u8>, x: nat, n: nat)
    requires
        table.len() == 256,
        x < n <= 256,
        forall|i: int, j: int| 0 <= i < j < 256 ==> table[i] != table[j],
    ensures
        inverse_entry(table, table[x as int], n) == x,
    decreases n,
{
    if n - 1 != x {
        lemma_inverse_entry_bijective(table, x, (n - 1) as nat);
    }
}

/// The inverse of a table without repeated entries is also a right inverse:
/// the table maps the inverse entry of every byte back to the byte.
pub proof fn lemma_inverse_entry_right(table: Seq<u8>, y: u8)
    requires
        table.len() == 256,
        forall|i: int, j: int| 0 <= i < j < 256 ==> table[i] != table[j],
    ensures
        inverse_entry(table, y, 256) < 256,
        table[inverse_entry(table, y, 256) as int] == y,
{
    crate::lemma_pigeonhole(table, y as nat);
    let j = choose|j: int| 0 <= j < table.len() && table[j] == y;
    lemma_inverse_entry_bijective(table, j as nat, 256);
}

/// The inverse of `y` in the AES field, zero for zero and where the extended
/// Euclidean algorithm finds no inverse (it always finds one for the AES polynomial).
pub open spec fn aes_field_inverse(y: u8) -> u8 {
    if y != 0 && has_inverse(y as u16, aes_poly()) {
        pinv(y as u16, aes_poly()) as u8
    } else {
        0
    }
}

/// The S-box of the dual cipher on the byte `x`: back to the standard field by
/// `q_inv`, inversion, the affine step, and to the dual representation by `q`.
pub open spec fn dual_sbox_spec(x: u8, q: MatGF2<8>, q_inv: MatGF2<8>) -> u8 {
    q.image(column_affine(aes_field_inverse(q_inv.image(x))))
}

/// The affine step of the AES S-box.
pub open spec fn column_affine(v: u8) -> u8 {
    crate::mat::rows_image(column_bytes_rows(affine_cols()), v) ^ 0x63u8
}

/// The AES S-box on the byte `x`.
pub open spec fn aes_sbox_spec(x: u8) -> u8 {
    column_affine(aes_field_inverse(x))
}

/// The table of the AES S-box.
pub open spec fn standard_sbox_table() -> Seq<u8> {
    Seq::new(256, |i: int| aes_sbox_spec(i as u8))
}

/// The identity matrix maps every byte to itself.
pub proof fn lemma_identity_image(v: u8)
    ensures
        crate::mat::rows_image(identity_rows(8), v) == v,
{
    let bits = crate::mat::byte_bits(v);
    let s = Seq::new(8, |i: int| crate::mat::dot(identity_rows(8)[i], bits, 8));
    assert forall|i: int| 0 <= i < 8 implies #[trigger] s[i] == bits[i] by {
        crate::mat::lemma_dot_unit(identity_rows(8)[i], bits, i, 8);
    }
    assert(s =~= bits);
    crate::mat::lemma_bits_value_byte(v);
}

/// A substitution stored as a table.
#[derive(Clone, Copy, Debug)]
pub struct PrecomputedSBox(pub XArr<X>);

impl SBox for PrecomputedSBox {
    open spec fn sub_spec(&self, v: u8) -> u8 {
        self.0.0[v as int].0
    }

    fn sub_byte(&self, v: X) -> (r: X) {
        self.0.0[v.0 as usize]
    }
}

fn dual_sbox_byte(x: X, q: Q, q_inv: Q) -> (r: X)
    ensures
        r.0 == dual_sbox_spec(x.0, q.0, q_inv.0),
{
    let y = q_inv.apply(x);
    let inv: u8 = if y.0 == 0 {
        0
    } else {
        let p = Poly(y.0 as u16);
        let m = irreducible_polynomials()[0];
        if p.has_inverse(m) {
            let ip = p.inv(m);
            ip.0 as u8
        } else {
            0
        }
    };
    let aff = affine_matrix();
    let a = aff.apply(inv);
    proof {
        aff.lemma_image_rows(inv);
    }
    q.apply(X(a ^ AFFINE_CONSTANT))
}

impl PrecomputedSBox {
    /// The AES S-box.
    pub fn aes_standard() -> (r: Self)
        ensures
            forall|i: int| 0 <= i < 256 ==> #[trigger] r.0.0[i].0 == aes_sbox_spec(i as u8),
            sbox_table(r) == standard_sbox_table(),
    {
        let d = Dual::standard();
        let r = Self::for_dual(d);
        proof {
            let (q, q_inv) = choose|q: MatGF2<8>, q_inv: MatGF2<8>|
                q.rows() == dual_q_rows(standard_dual()) && q_inv.is_left_inverse_of(q) && forall|i: int|
                    0 <= i < 256 ==> #[trigger] r.0.0[i].0 == dual_sbox_spec(i as u8, q, q_inv);
            crate::dual::lemma_standard_q_identity();
            assert forall|v: u8| #[trigger] q.image(v) == v by {
                q.lemma_image_rows(v);
                lemma_identity_image(v);
            }
            assert forall|v: u8| #[trigger] q_inv.image(v) == v by {
                q_inv.lemma_left_inverse_image(q, v);
                assert(q.image(v) == v);
            }
            assert forall|i: int| 0 <= i < 256 implies #[trigger] r.0.0[i].0 == aes_sbox_spec(i as u8) by {
                assert(q_inv.image(i as u8) == i as u8);
                assert(q.image(column_affine(aes_field_inverse(i as u8))) == column_affine(aes_field_inverse(i as u8)));
            }
            assert(sbox_table(r) =~= standard_sbox_table());
        }
        r
    }

    /// A random S-box: a permutation of the bytes chosen at random.
    pub fn random(rng: &mut rand::rngs::ThreadRng) -> (r: Self)
        ensures
            forall|i: int, j: int| 0 <= i < j < 256 ==> r.0.0[i] != r.0.0[j],
    {
        Self(crate::generator::random_sbox(rng))
    }

    /// The S-box of the dual cipher `dual`.
    pub fn for_dual(dual: Dual) -> (r: Self)
        requires
            dual.wf(),
            dual.invertible(),
        ensures
            exists|q: MatGF2<8>, q_inv: MatGF2<8>|
                q.rows() == dual_q_rows(dual) && q_inv.is_left_inverse_of(q) && forall|i: int|
                    0 <= i < 256 ==> #[trigger] r.0.0[i].0 == dual_sbox_spec(i as u8, q, q_inv),
    {
        let q = Q::for_dual(dual);
        let q_inv = q.inverse();
        let table = XArr::from_fn_par(|x: X| -> (r: X)
            ensures
                r.0 == dual_sbox_spec(x.0, q.0, q_inv.0),
            { dual_sbox_byte(x, q, q_inv) });
        PrecomputedSBox(table)
    }

    /// The inverse table of the substitution `v`.
    pub fn inversed<S: SBox>(v: &S) -> (r: Self)
        ensures
            forall|y: int| 0 <= y < 256 ==> #[trigger] r.0.0[y].0 == inverse_entry(sbox_table(*v), y as u8, 256),
    {
        let mut out = [X(0); 256];
        let mut i: usize = 0;
        while i < 256
            invariant
                i <= 256,
                forall|y: int| 0 <= y < 256 ==> #[trigger] out[y].0 == inverse_entry(sbox_table(*v), y as u8, i as nat),
            decreases 256 - i,
        {
            let o = v.sub_byte(X(i as u8));
            let ghost before = out;
            out[o.0 as usize] = X(i as u8);
            assert forall|y: int| 0 <= y < 256 implies #[trigger] out[y].0 == inverse_entry(sbox_table(*v), y as u8, (i + 1) as nat) by {
                assert(sbox_table(*v)[i as int] == o.0);
                if y != o.0 {
                    assert(out[y] == before[y]);
                }
            }
            i += 1;
        }
        PrecomputedSBox(XArr(out))
    }

    /// The inverse table of this substitution.
    pub fn inverse(&self) -> (r: Self)
        ensures
            forall|y: int| 0 <= y < 256 ==> #[trigger] r.0.0[y].0 == inverse_entry(sbox_table(*self), y as u8, 256),
    {
        Self::inversed(self)
    }
}

/// The inverse of a substitution table: entry `sbox[i]` is `i`.
pub fn invert_sbox(sbox: &[u8; 256]) -> (r: [u8; 256])
    ensures
        forall|y: int| 0 <= y < 256 ==> #[trigger] r[y] == inverse_entry(sbox@, y as u8, 256),
{
    let mut inv = [0u8; 256];
    let mut i: usize = 0;
    while i < 256
        invariant
            i <= 256,
            forall|y: int| 0 <= y < 256 ==> #[trigger] inv[y] == inverse_entry(sbox@, y as u8, i as nat),
        decreases 256 - i,
    {
        let val = sbox[i];
        let ghost before = inv;
        inv[val as usize] = i as u8;
        assert forall|y: int| 0 <= y < 256 implies #[trigger] inv[y] == inverse_entry(sbox@, y as u8, (i + 1) as nat) by {
            if y != val {
                assert(inv[y] == before[y]);
            }
        }
        i += 1;
    }
    inv
}

} // verus!
