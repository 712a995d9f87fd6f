//! Matrices and vectors over GF(2).

use vstd::prelude::*;
use vstd::arithmetic::power2::pow2;

use crate::{Column, Row};

verus! {

/// An element of GF(2).
#[derive(Debug, Clone, Copy, PartialEq, Eq, Structural)]
pub struct GF2(pub bool);

impl GF2 {
    pub fn new(value: bool) -> (r: GF2)
        ensures
            r.0 == value,
    {
        GF2(value)
    }
}

impl core::ops::Add for GF2 {
    type Output = GF2;

    fn add(self, rhs: GF2) -> (r: GF2) {
        GF2(self.0 != rhs.0)
    }
}

impl vstd::std_specs::ops::AddSpecImpl for GF2 {
    open spec fn obeys_add_spec() -> bool {
        true
    }

    open spec fn add_req(self, rhs: GF2) -> bool {
        true
    }

    open spec fn add_spec(self, rhs: GF2) -> GF2 {
        GF2(self.0 != rhs.0)
    }
}

impl core::ops::Mul for GF2 {
    type Output = GF2;

    fn mul(self, rhs: GF2) -> (r: GF2) {
        GF2(self.0 && rhs.0)
    }
}

impl vstd::std_specs::ops::MulSpecImpl for GF2 {
    open spec fn obeys_mul_spec() -> bool {
        true
    }

    open spec fn mul_req(self, rhs: GF2) -> bool {
        true
    }

    open spec fn mul_spec(self, rhs: GF2) -> GF2 {
        GF2(self.0 && rhs.0)
    }
}

/// Sum over GF(2) of the products `a[k] * b[k]` for `k < n`.
pub open spec fn dot(a: Seq<bool>, b: Seq<bool>, n: nat) -> bool
    decreases n,
{
    if n == 0 {
        false
    } else {
        dot(a, b, (n - 1) as nat) != (a[n - 1] && b[n - 1])
    }
}

/// The dot product with a vector of zeros on the right is zero.
proof fn lemma_dot_zero_right(a: Seq<bool>, z: Seq<bool>, n: nat)
    requires
        forall|k: int| 0 <= k < n ==> !z[k],
    ensures
        !dot(a, z, n),
    decreases n,
{
    if n > 0 {
        lemma_dot_zero_right(a, z, (n - 1) as nat);
    }
}

/// All vectors of `n` bits.
pub open spec fn bit_vectors(n: nat) -> Set<Seq<bool>> {
    Set::new(|v: Seq<bool>| v.len() == n)
}

/// There are finitely many vectors of `n` bits.
proof fn lemma_bit_vectors_finite(n: nat)
    ensures
        bit_vectors(n).finite(),
    decreases n,
{
    if n == 0 {
        assert forall|v: Seq<bool>| #[trigger] bit_vectors(0).contains(v) implies v == Seq::<bool>::empty() by {
            assert(v =~= Seq::<bool>::empty());
        }
        assert(bit_vectors(0) =~= Set::empty().insert(Seq::<bool>::empty()));
    } else {
        let k = (n - 1) as nat;
        lemma_bit_vectors_finite(k);
        let f0 = |v: Seq<bool>| v.push(false);
        let f1 = |v: Seq<bool>| v.push(true);
        bit_vectors(k).lemma_map_finite(f0);
        bit_vectors(k).lemma_map_finite(f1);
        let u = bit_vectors(k).map(f0).union(bit_vectors(k).map(f1));
        assert(u.finite());
        assert forall|v: Seq<bool>| #[trigger] bit_vectors(n).contains(v) implies u.contains(v) by {
            let w = v.drop_last();
            assert(bit_vectors(k).contains(w));
            if v.last() {
                assert(v =~= f1(w));
            } else {
                assert(v =~= f0(w));
            }
        }
        assert(bit_vectors(n).subset_of(u));
        vstd::set_lib::lemma_len_subset(bit_vectors(n), u);
    }
}

/// Sum of two vectors over GF(2).
pub open spec fn xor_seq(a: Seq<bool>, b: Seq<bool>) -> Seq<bool> {
    Seq::new(a.len(), |k: int| a[k] != b[k])
}

/// The dot product is linear in its first argument.
pub proof fn lemma_dot_xor(a: Seq<bool>, b: Seq<bool>, c: Seq<bool>, n: nat)
    requires
        n <= a.len(),
        a.len() == b.len(),
    ensures
        dot(xor_seq(a, b), c, n) == (dot(a, c, n) != dot(b, c, n)),
    decreases n,
{
    if n > 0 {
        lemma_dot_xor(a, b, c, (n - 1) as nat);
    }
}

/// Two vectors that agree on the first `n` positions have the same dot products.
pub proof fn lemma_dot_ext(a: Seq<bool>, a2: Seq<bool>, b: Seq<bool>, b2: Seq<bool>, n: nat)
    requires
        forall|k: int| 0 <= k < n ==> a[k] == a2[k] && b[k] == b2[k],
    ensures
        dot(a, b, n) == dot(a2, b2, n),
    decreases n,
{
    if n > 0 {
        lemma_dot_ext(a, a2, b, b2, (n - 1) as nat);
    }
}

/// Row `k` of a square array of GF(2) elements, as a vector.
pub open spec fn arr_row<const N: usize>(m: [[GF2; N]; N], k: int) -> Seq<bool> {
    Seq::new(N as nat, |j: int| m[k][j].0)
}

/// Sum of two rows over GF(2).
fn xor_row<const N: usize>(a: &[GF2; N], b: &[GF2; N]) -> (r: [GF2; N])
    ensures
        forall|k: int| 0 <= k < N ==> r[k].0 == (a[k].0 != b[k].0),
{
    let mut r = *a;
    let mut j: usize = 0;
    while j < N
        invariant
            j <= N,
            forall|k: int| 0 <= k < N ==> r[k].0 == (if k < j {
                a[k].0 != b[k].0
            } else {
                a[k].0
            }),
        decreases N - j,
    {
        r[j] = GF2(r[j].0 != b[j].0);
        j += 1;
    }
    r
}

/// Scaling the first argument of a dot product by a constant.
proof fn lemma_dot_scale(a: Seq<bool>, c: bool, b: Seq<bool>, n: nat)
    requires
        n <= a.len(),
    ensures
        dot(Seq::new(a.len(), |j: int| c && a[j]), b, n) == (c && dot(a, b, n)),
    decreases n,
{
    if n > 0 {
        lemma_dot_scale(a, c, b, (n - 1) as nat);
    }
}

/// The dot product with a zero vector is zero.
proof fn lemma_dot_zero(a: Seq<bool>, b: Seq<bool>, n: nat)
    requires
        forall|k: int| 0 <= k < n ==> !a[k],
    ensures
        !dot(a, b, n),
    decreases n,
{
    if n > 0 {
        lemma_dot_zero(a, b, (n - 1) as nat);
    }
}

/// Column `j` of the first `n` rows.
pub open spec fn rows_col(rows: Seq<Seq<bool>>, j: int, n: nat) -> Seq<bool> {
    Seq::new(n, |k: int| rows[k][j])
}

/// `u . (M x) == (u M) . x` over GF(2), for `n` rows of length `m`.
proof fn lemma_dot_assoc(u: Seq<bool>, rows: Seq<Seq<bool>>, x: Seq<bool>, n: nat, m: nat)
    requires
        n <= u.len(),
    ensures
        dot(u, Seq::new(n, |k: int| dot(rows[k], x, m)), n) == dot(
            Seq::new(m, |j: int| dot(u, rows_col(rows, j, n), n)),
            x,
            m,
        ),
    decreases n,
{
    let lhs_seq = Seq::new(n, |k: int| dot(rows[k], x, m));
    let t = Seq::new(m, |j: int| dot(u, rows_col(rows, j, n), n));
    if n == 0 {
        lemma_dot_zero(t, x, m);
    } else {
        let k = (n - 1) as nat;
        lemma_dot_assoc(u, rows, x, k, m);
        let prev = Seq::new(k, |i: int| dot(rows[i], x, m));
        lemma_dot_ext(u, u, lhs_seq, prev, k);
        let tk = Seq::new(m, |j: int| dot(u, rows_col(rows, j, k), k));
        let v = Seq::new(m, |j: int| u[k as int] && rows[k as int][j]);
        assert forall|j: int| 0 <= j < m implies #[trigger] t[j] == (tk[j] != v[j]) by {
            lemma_dot_ext(u, u, rows_col(rows, j, n), rows_col(rows, j, k), k);
        }
        assert(t =~= xor_seq(tk, v));
        lemma_dot_xor(tk, v, x, m);
        let rk = rows[k as int];
        if rk.len() == m {
            assert(v =~= Seq::new(rk.len(), |j: int| u[k as int] && rk[j]));
            lemma_dot_scale(rk, u[k as int], x, m);
        } else {
            let rk2 = Seq::new(m, |j: int| rk[j]);
            assert(v =~= Seq::new(rk2.len(), |j: int| u[k as int] && rk2[j]));
            lemma_dot_scale(rk2, u[k as int], x, m);
            lemma_dot_ext(rk2, rk, x, x, m);
        }
        assert(dot(v, x, m) == (u[k as int] && dot(rk, x, m)));
        assert(dot(t, x, m) == (dot(tk, x, m) != dot(v, x, m)));
        assert(dot(u, prev, k) == dot(tk, x, m));
        assert(lhs_seq[k as int] == dot(rk, x, m));
        assert(dot(u, lhs_seq, n) == (dot(u, lhs_seq, k) != (u[k as int] && lhs_seq[k as int])));
        assert(dot(u, lhs_seq, n) == dot(t, x, m));
    }
}

/// The dot product with a unit vector picks one entry.
pub proof fn lemma_dot_unit(u: Seq<bool>, c: Seq<bool>, k: int, n: nat)
    requires
        0 <= k,
        n <= u.len(),
        forall|m: int| 0 <= m < u.len() ==> u[m] == (m == k),
    ensures
        dot(u, c, n) == (k < n && c[k]),
    decreases n,
{
    if n > 0 {
        lemma_dot_unit(u, c, k, (n - 1) as nat);
    }
}

/// A byte as a vector over GF(2), most significant bit first.
pub open spec fn byte_bits(v: u8) -> Seq<bool> {
    Seq::new(8, |t: int| (v >> ((7 - t) as u8)) & 1 == 1)
}

/// Four bytes as a vector over GF(2), most significant bit of the first byte first.
pub open spec fn word_bits(b: Seq<u8>) -> Seq<bool> {
    Seq::new(32, |t: int| byte_bits(b[t / 8])[t % 8])
}

/// Value of the first `n` entries of a vector read as a number, most significant first.
pub open spec fn bits_value(s: Seq<bool>, n: nat) -> nat
    decreases n,
{
    if n == 0 {
        0
    } else {
        bits_value(s, (n - 1) as nat) * 2 + if s[n - 1] {
            1nat
        } else {
            0nat
        }
    }
}

/// Byte `k` of a vector of 32 bits, most significant first.
pub open spec fn bits_byte(s: Seq<bool>, k: int) -> u8 {
    bits_value(s.subrange(8 * k, 8 * k + 8), 8) as u8
}

pub proof fn lemma_bits_value_bound(s: Seq<bool>, n: nat)
    ensures
        bits_value(s, n) < pow2(n),
    decreases n,
{
    if n > 0 {
        lemma_bits_value_bound(s, (n - 1) as nat);
        vstd::arithmetic::power2::lemma_pow2_unfold(n);
    } else {
        vstd::arithmetic::power2::lemma2_to64();
    }
}

/// Eight bits read as a byte give the same bits back.
pub proof fn lemma_byte_bits_value(s: Seq<bool>)
    requires
        s.len() == 8,
    ensures
        bits_value(s, 8) < 256,
        byte_bits(bits_value(s, 8) as u8) == s,
{
    reveal_with_fuel(bits_value, 9);
    let b0: u8 = if s[0] { 1 } else { 0 };
    let b1: u8 = if s[1] { 1 } else { 0 };
    let b2: u8 = if s[2] { 1 } else { 0 };
    let b3: u8 = if s[3] { 1 } else { 0 };
    let b4: u8 = if s[4] { 1 } else { 0 };
    let b5: u8 = if s[5] { 1 } else { 0 };
    let b6: u8 = if s[6] { 1 } else { 0 };
    let b7: u8 = if s[7] { 1 } else { 0 };
    let total = bits_value(s, 8);
    assert(total == b0 * 128 + b1 * 64 + b2 * 32 + b3 * 16 + b4 * 8 + b5 * 4 + b6 * 2 + b7);
    let v: u8 = total as u8;
    assert(((v >> 7u8) & 1 == 1) == (b0 == 1) && ((v >> 6u8) & 1 == 1) == (b1 == 1) && ((v >> 5u8)
        & 1 == 1) == (b2 == 1) && ((v >> 4u8) & 1 == 1) == (b3 == 1) && ((v >> 3u8) & 1 == 1) == (b4
        == 1) && ((v >> 2u8) & 1 == 1) == (b5 == 1) && ((v >> 1u8) & 1 == 1) == (b6 == 1) && ((v
        >> 0u8) & 1 == 1) == (b7 == 1)) by (bit_vector)
        requires
            b0 <= 1 && b1 <= 1 && b2 <= 1 && b3 <= 1 && b4 <= 1 && b5 <= 1 && b6 <= 1 && b7 <= 1,
            v == b0 * 128 + b1 * 64 + b2 * 32 + b3 * 16 + b4 * 8 + b5 * 4 + b6 * 2 + b7,
    ;
    assert(byte_bits(v) =~= s);
}

/// The bits of a byte read back give the byte.
#[verifier::spinoff_prover]
#[verifier::rlimit(40)]
pub proof fn lemma_bits_value_byte(v: u8)
    ensures
        bits_value(byte_bits(v), 8) == v,
{
    reveal_with_fuel(bits_value, 9);
    let s = byte_bits(v);
    let b0: u8 = (v >> 7u8) & 1;
    let b1: u8 = (v >> 6u8) & 1;
    let b2: u8 = (v >> 5u8) & 1;
    let b3: u8 = (v >> 4u8) & 1;
    let b4: u8 = (v >> 3u8) & 1;
    let b5: u8 = (v >> 2u8) & 1;
    let b6: u8 = (v >> 1u8) & 1;
    let b7: u8 = (v >> 0u8) & 1;
    assert(v == b0 * 128 + b1 * 64 + b2 * 32 + b3 * 16 + b4 * 8 + b5 * 4 + b6 * 2 + b7
        && b0 <= 1 && b1 <= 1 && b2 <= 1 && b3 <= 1 && b4 <= 1 && b5 <= 1 && b6 <= 1 && b7 <= 1)
        by (bit_vector)
        requires
            b0 == (v >> 7u8) & 1 && b1 == (v >> 6u8) & 1 && b2 == (v >> 5u8) & 1 && b3 == (v >> 4u8)
                & 1 && b4 == (v >> 3u8) & 1 && b5 == (v >> 2u8) & 1 && b6 == (v >> 1u8) & 1 && b7 == (v
                >> 0u8) & 1,
    ;
    assert(s[0] == (b0 == 1) && s[1] == (b1 == 1) && s[2] == (b2 == 1) && s[3] == (b3 == 1));
    assert(s[4] == (b4 == 1) && s[5] == (b5 == 1) && s[6] == (b6 == 1) && s[7] == (b7 == 1));
}

/// The bytes of a vector of 32 bits, most significant first.
pub open spec fn bits_bytes(s: Seq<bool>) -> Seq<u8> {
    Seq::new(4, |k: int| bits_byte(s, k))
}

/// Thirty-two bits read as bytes give the same bits back.
pub proof fn lemma_word_bits_bytes(s: Seq<bool>)
    requires
        s.len() == 32,
    ensures
        word_bits(bits_bytes(s)) == s,
{
    assert forall|t: int| 0 <= t < 32 implies #[trigger] word_bits(bits_bytes(s))[t] == s[t] by {
        let k = t / 8;
        let sub = s.subrange(8 * k, 8 * k + 8);
        lemma_byte_bits_value(sub);
        assert(bits_bytes(s)[k] == bits_value(sub, 8) as u8);
        assert(byte_bits(bits_value(sub, 8) as u8)[t % 8] == sub[t % 8]);
    }
    assert(word_bits(bits_bytes(s)) =~= s);
}

/// The bits of four bytes read back give the bytes.
pub proof fn lemma_bytes_word_bits(b: Seq<u8>)
    requires
        b.len() == 4,
    ensures
        bits_bytes(word_bits(b)) == b,
{
    assert forall|k: int| 0 <= k < 4 implies #[trigger] bits_bytes(word_bits(b))[k] == b[k] by {
        let sub = word_bits(b).subrange(8 * k, 8 * k + 8);
        assert(sub =~= byte_bits(b[k]));
        lemma_bits_value_byte(b[k]);
    }
    assert(bits_bytes(word_bits(b)) =~= b);
}

/// Four bytes as a vector of 32 bits.
fn bytes2vec(b: [u8; 4]) -> (r: VecGF2<32>)
    ensures
        r.view_bits() == word_bits(b@),
{
    let mut out = VecGF2::<32>::new();
    let mut t: usize = 0;
    while t < 32
        invariant
            t <= 32,
            forall|u: int| 0 <= u < t ==> out.data[u].0 == word_bits(b@)[u],
        decreases 32 - t,
    {
        let byte = b[t / 8];
        out.data[t] = GF2((byte >> ((7 - t % 8) as u8)) & 1 == 1);
        t += 1;
    }
    assert(out.view_bits() =~= word_bits(b@));
    out
}

/// The four bytes of a vector of 32 bits.
fn vec2bytes(v: &VecGF2<32>) -> (r: [u8; 4])
    ensures
        r@ == bits_bytes(v.view_bits()),
{
    let mut out = [0u8; 4];
    let mut k: usize = 0;
    proof {
        vstd::arithmetic::power2::lemma2_to64();
    }
    while k < 4
        invariant
            k <= 4,
            pow2(7) == 128,
            forall|u: int| 0 <= u < k ==> out[u] == bits_byte(v.view_bits(), u),
        decreases 4 - k,
    {
        let ghost sub = v.view_bits().subrange(8 * k as int, 8 * k as int + 8);
        let mut acc: u8 = 0;
        let mut j: usize = 0;
        while j < 8
            invariant
                k < 4,
                j <= 8,
                pow2(7) == 128,
                sub == v.view_bits().subrange(8 * k as int, 8 * k as int + 8),
                acc == bits_value(sub, j as nat),
            decreases 8 - j,
        {
            proof {
                lemma_bits_value_bound(sub, j as nat);
                if j < 7 {
                    vstd::arithmetic::power2::lemma_pow2_strictly_increases(j as nat, 7);
                }
            }
            acc = acc * 2;
            if v.data[8 * k + j].0 {
                acc = acc + 1;
            }
            j += 1;
        }
        out[k] = acc;
        k += 1;
    }
    assert(out@ =~= bits_bytes(v.view_bits()));
    out
}

/// The 8 x 8 matrix with the given rows applied to the byte `v`.
pub open spec fn rows_image(rows: Seq<Seq<bool>>, v: u8) -> u8 {
    bits_value(Seq::new(8, |i: int| dot(rows[i], byte_bits(v), 8)), 8) as u8
}

/// The byte that the matrix with these rows maps to `v`, when there is one.
pub open spec fn rows_preimage(rows: Seq<Seq<bool>>, v: u8) -> u8 {
    choose|x: u8| rows_image(rows, x) == v
}

/// The byte `v` as a vector, most significant bit first.
fn i82vec(v: u8) -> (r: VecGF2<8>)
    ensures
        r.view_bits() == byte_bits(v),
{
    let mut out = [false; 8];
    let mut i: usize = 0;
    while i < 8
        invariant
            i <= 8,
            forall|t: int| 7 - i < t < 8 ==> out[t] == ((v >> ((7 - t) as u8)) & 1 == 1),
        decreases 8 - i,
    {
        out[7 - i] = ((v >> (i as u8)) & 1) == 1;
        i += 1;
    }
    let r = VecGF2::from_array(out);
    assert forall|t: int| 0 <= t < 8 implies r.view_bits()[t] == byte_bits(v)[t] by {
        assert(r.data[t].0 == out[t]);
    }
    assert(r.view_bits() =~= byte_bits(v));
    r
}

/// The value of a vector of 8 bits, most significant first.
fn vec2i8(vin: VecGF2<8>) -> (r: u8)
    ensures
        r == bits_value(vin.view_bits(), 8),
{
    let mut out: u8 = 0;
    let mut i: usize = 0;
    proof {
        vstd::arithmetic::power2::lemma2_to64();
    }
    while i < 8
        invariant
            i <= 8,
            out == bits_value(vin.view_bits(), i as nat),
            pow2(7) == 128,
        decreases 8 - i,
    {
        proof {
            lemma_bits_value_bound(vin.view_bits(), i as nat);
            if i < 7 {
                vstd::arithmetic::power2::lemma_pow2_strictly_increases(i as nat, 7);
            }
        }
        out = out * 2;
        if vin.data[i].0 {
            out = out + 1;
        }
        i += 1;
    }
    out
}

/// Product of two `n x n` matrices given by their rows.
pub open spec fn mat_mul_rows(a: Seq<Seq<bool>>, b: Seq<Seq<bool>>, n: nat) -> Seq<Seq<bool>> {
    Seq::new(n, |i: int| Seq::new(n, |j: int| dot(a[i], Seq::new(n, |k: int| b[k][j]), n)))
}

/// The `n x n` identity matrix, by rows.
pub open spec fn identity_rows(n: nat) -> Seq<Seq<bool>> {
    Seq::new(n, |i: int| Seq::new(n, |j: int| i == j))
}

/// The 8 x 8 matrix whose column `7 - c` holds the bits of `cols[c]`, the bit
/// of weight `2^k` in row `7 - k`: the linear map sending `x^c` to `cols[c]`.
pub open spec fn column_bytes_rows(cols: Seq<u8>) -> Seq<Seq<bool>> {
    Seq::new(8, |i: int| Seq::new(8, |j: int| (cols[7 - j] >> ((7 - i) as u8)) & 1 == 1))
}

/// All rows of a square array of GF(2) elements.
pub open spec fn arr_rows<const N: usize>(m: [[GF2; N]; N]) -> Seq<Seq<bool>> {
    Seq::new(N as nat, |k: int| arr_row(m, k))
}

/// First row at or below `k` whose entry in column `col` is one; `n` if none.
pub open spec fn pivot_row(m: Seq<Seq<bool>>, col: int, k: int, n: int) -> int
    decreases n - k,
{
    if k >= n {
        n
    } else if m[k][col] {
        k
    } else {
        pivot_row(m, col, k + 1, n)
    }
}

pub open spec fn swap_rows(m: Seq<Seq<bool>>, a: int, b: int) -> Seq<Seq<bool>> {
    m.update(a, m[b]).update(b, m[a])
}

/// Adds row `i` to every row below it that has a one in column `i`.
pub open spec fn clear_below(m: Seq<Seq<bool>>, i: int, n: int) -> Seq<Seq<bool>> {
    Seq::new(
        n as nat,
        |k: int|
            if k > i && m[k][i] {
                xor_seq(m[k], m[i])
            } else {
                m[k]
            },
    )
}

/// Forward Gaussian elimination from column `i`; the flag `det` starts at one
/// and flips at every row exchange, and the result is zero as soon as a column
/// has no pivot.
pub open spec fn det_from(m: Seq<Seq<bool>>, i: int, n: int, det: bool) -> bool
    decreases n - i,
{
    if i >= n {
        det
    } else {
        let p = pivot_row(m, i, i, n);
        if p >= n {
            false
        } else {
            let m1 = if p != i {
                swap_rows(m, i, p)
            } else {
                m
            };
            det_from(clear_below(m1, i, n), i + 1, n, if p != i {
                !det
            } else {
                det
            })
        }
    }
}

/// Forward Gaussian elimination from column `i` finds a pivot in every column:
/// the matrix is invertible.
pub open spec fn elim_ok(m: Seq<Seq<bool>>, i: int, n: int) -> bool
    decreases n - i,
{
    if i >= n {
        true
    } else {
        let p = pivot_row(m, i, i, n);
        p < n && elim_ok(
            clear_below(
                if p != i {
                    swap_rows(m, i, p)
                } else {
                    m
                },
                i,
                n,
            ),
            i + 1,
            n,
        )
    }
}

/// A nonzero value of the elimination means every column had a pivot.
pub proof fn lemma_det_elim_ok(m: Seq<Seq<bool>>, i: int, n: int, det: bool)
    requires
        det_from(m, i, n, det),
    ensures
        elim_ok(m, i, n),
    decreases n - i,
{
    if i < n {
        let p = pivot_row(m, i, i, n);
        let m1 = if p != i {
            swap_rows(m, i, p)
        } else {
            m
        };
        lemma_det_elim_ok(clear_below(m1, i, n), i + 1, n, if p != i {
            !det
        } else {
            det
        });
    }
}

/// The identity matrix times itself is the identity.
pub proof fn lemma_identity_mul(n: nat)
    ensures
        mat_mul_rows(identity_rows(n), identity_rows(n), n) == identity_rows(n),
{
    let id = identity_rows(n);
    assert forall|i: int, j: int| 0 <= i < n && 0 <= j < n implies #[trigger] mat_mul_rows(id, id, n)[i][j]
        == id[i][j] by {
        let col = Seq::new(n, |k: int| id[k][j]);
        lemma_dot_unit(id[i], col, i, n);
    }
    assert forall|i: int| 0 <= i < n implies #[trigger] mat_mul_rows(id, id, n)[i] =~= id[i] by {
        assert forall|j: int| 0 <= j < n implies mat_mul_rows(id, id, n)[i][j] == id[i][j] by {
        }
    }
    assert(mat_mul_rows(id, id, n) =~= id);
}

/// Elimination finds a pivot in every column of the identity matrix.
pub proof fn lemma_identity_elim_ok(n: nat, i: nat)
    requires
        i <= n,
    ensures
        elim_ok(identity_rows(n), i as int, n as int),
    decreases n - i,
{
    let id = identity_rows(n);
    if i < n {
        assert(pivot_row(id, i as int, i as int, n as int) == i);
        assert forall|k: int| 0 <= k < n implies #[trigger] clear_below(id, i as int, n as int)[k] == id[k] by {
        }
        assert(clear_below(id, i as int, n as int) =~= id);
        lemma_identity_elim_ok(n, i + 1);
    }
}

/// A square matrix over GF(2).
#[derive(Clone, Copy)]
pub struct MatGF2<const N: usize> {
    pub data: [[GF2; N]; N],
}

/// A vector over GF(2).
#[derive(Clone, Copy)]
pub struct VecGF2<const N: usize> {
    pub data: [GF2; N],
}

impl<const N: usize> VecGF2<N> {
    pub open spec fn view_bits(self) -> Seq<bool> {
        Seq::new(N as nat, |k: int| self.data[k].0)
    }

    pub fn new() -> (r: Self)
        ensures
            forall|k: int| 0 <= k < N ==> !r.data[k].0,
    {
        VecGF2 { data: [GF2(false); N] }
    }

    pub fn from_array(data: [bool; N]) -> (r: Self)
        ensures
            forall|k: int| 0 <= k < N ==> r.data[k].0 == data[k],
    {
        let mut result = Self::new();
        let mut i: usize = 0;
        while i < N
            invariant
                i <= N,
                forall|k: int| 0 <= k < i ==> result.data[k].0 == data[k],
            decreases N - i,
        {
            result.data[i] = GF2(data[i]);
            i += 1;
        }
        result
    }

    pub fn get(&self, index: usize) -> (r: GF2)
        requires
            index < N,
        ensures
            r == self.data[index as int],
    {
        self.data[index]
    }

    pub fn set(&mut self, index: usize, value: GF2)
        requires
            index < N,
        ensures
            final(self).data@ == old(self).data@.update(index as int, value),
    {
        self.data[index] = value;
    }

    pub fn len(&self) -> (r: usize)
        ensures
            r == N,
    {
        N
    }
}

impl<const N: usize> MatGF2<N> {
    pub open spec fn entry(self, i: int, j: int) -> bool {
        self.data[i][j].0
    }

    pub open spec fn row_of(self, i: int) -> Seq<bool> {
        Seq::new(N as nat, |j: int| self.data[i][j].0)
    }

    pub open spec fn col_of(self, j: int) -> Seq<bool> {
        Seq::new(N as nat, |i: int| self.data[i][j].0)
    }

    /// Matrix times column vector.
    pub open spec fn mat_vec(self, v: Seq<bool>) -> Seq<bool> {
        Seq::new(N as nat, |i: int| dot(self.row_of(i), v, N as nat))
    }

    /// Entry `(i, j)` of the product `self * other`.
    pub open spec fn product_entry(self, other: Self, i: int, j: int) -> bool {
        dot(self.row_of(i), other.col_of(j), N as nat)
    }

    pub open spec fn is_identity(self) -> bool {
        forall|i: int, j: int| 0 <= i < N && 0 <= j < N ==> self.entry(i, j) == (i == j)
    }

    /// The identity matrix leaves every vector as it is; so composing with
    /// it, on either side, changes what a matrix does to no vector.
    pub proof fn lemma_identity_mat_vec(self, x: Seq<bool>)
        requires
            self.is_identity(),
            x.len() == N,
        ensures
            self.mat_vec(x) == x,
    {
        assert forall|i: int| 0 <= i < N implies #[trigger] self.mat_vec(x)[i] == x[i] by {
            assert forall|j: int| 0 <= j < self.row_of(i).len() implies self.row_of(i)[j] == (j == i) by {
                assert(self.entry(i, j) == (i == j));
            }
            lemma_dot_unit(self.row_of(i), x, i, N as nat);
        }
        assert(self.mat_vec(x) =~= x);
    }

    /// `self * other` is the identity.
    pub open spec fn is_left_inverse_of(self, other: Self) -> bool {
        forall|i: int, j: int|
            0 <= i < N && 0 <= j < N ==> #[trigger] self.product_entry(other, i, j) == (i == j)
    }

    /// A left inverse undoes the matrix on every vector.
    pub proof fn lemma_left_inverse_mat_vec(self, m: Self, x: Seq<bool>)
        requires
            self.is_left_inverse_of(m),
            x.len() == N,
        ensures
            self.mat_vec(m.mat_vec(x)) == x,
    {
        let mv = m.mat_vec(x);
        let rows = Seq::new(N as nat, |k: int| m.row_of(k));
        assert forall|a: int| 0 <= a < N implies #[trigger] self.mat_vec(mv)[a] == x[a] by {
            let u = self.row_of(a);
            lemma_dot_assoc(u, rows, x, N as nat, N as nat);
            assert(mv =~= Seq::new(N as nat, |k: int| dot(rows[k], x, N as nat)));
            let t = Seq::new(N as nat, |j: int| dot(u, rows_col(rows, j, N as nat), N as nat));
            assert forall|j: int| 0 <= j < N implies #[trigger] t[j] == (j == a) by {
                assert(rows_col(rows, j, N as nat) =~= m.col_of(j));
                assert(self.product_entry(m, a, j) == (a == j));
            }
            lemma_dot_unit(t, x, a, N as nat);
        }
        assert(self.mat_vec(mv) =~= x);
    }

    /// A matrix whose entries are those of the product `a * b` maps every
    /// vector as `b` then `a` do.
    pub proof fn lemma_compose_mat_vec(self, a: Self, b: Self, x: Seq<bool>)
        requires
            forall|i: int, j: int| 0 <= i < N && 0 <= j < N ==> #[trigger] self.entry(i, j) == a.product_entry(b, i, j),
            x.len() == N,
        ensures
            self.mat_vec(x) == a.mat_vec(b.mat_vec(x)),
    {
        let bv = b.mat_vec(x);
        let rows = Seq::new(N as nat, |k: int| b.row_of(k));
        assert forall|i: int| 0 <= i < N implies #[trigger] self.mat_vec(x)[i] == a.mat_vec(bv)[i] by {
            let u = a.row_of(i);
            lemma_dot_assoc(u, rows, x, N as nat, N as nat);
            assert(bv =~= Seq::new(N as nat, |k: int| dot(rows[k], x, N as nat)));
            let t = Seq::new(N as nat, |j: int| dot(u, rows_col(rows, j, N as nat), N as nat));
            assert forall|j: int| 0 <= j < N implies #[trigger] t[j] == self.row_of(i)[j] by {
                assert(rows_col(rows, j, N as nat) =~= b.col_of(j));
                assert(self.entry(i, j) == a.product_entry(b, i, j));
            }
            assert(t =~= self.row_of(i));
        }
        assert(self.mat_vec(x) =~= a.mat_vec(bv));
    }

    pub fn new() -> (r: Self)
        ensures
            forall|i: int, j: int| 0 <= i < N && 0 <= j < N ==> !r.entry(i, j),
    {
        broadcast use vstd::array::group_array_axioms;
        let row: [GF2; N] = vstd::array::array_fill_for_copy_types(GF2(false));
        let data: [[GF2; N]; N] = vstd::array::array_fill_for_copy_types(row);
        MatGF2 { data }
    }

    pub fn get(&self, row: usize, col: usize) -> (r: GF2)
        requires
            row < N,
            col < N,
        ensures
            r.0 == self.entry(row as int, col as int),
    {
        self.data[row][col]
    }

    pub fn set(&mut self, row: usize, col: usize, value: GF2)
        requires
            row < N,
            col < N,
        ensures
            forall|i: int, j: int|
                0 <= i < N && 0 <= j < N ==> final(self).entry(i, j) == (if i == row && j == col {
                    value.0
                } else {
                    old(self).entry(i, j)
                }),
    {
        self.data[row][col] = value;
    }

    pub fn from_array(data: [[bool; N]; N]) -> (r: Self)
        ensures
            forall|i: int, j: int| 0 <= i < N && 0 <= j < N ==> r.entry(i, j) == data[i][j],
    {
        let mut result = Self::new();
        let mut i: usize = 0;
        while i < N
            invariant
                i <= N,
                forall|a: int, b: int|
                    0 <= a < N && 0 <= b < N ==> result.entry(a, b) == (if a < i {
                        data[a][b]
                    } else {
                        false
                    }),
            decreases N - i,
        {
            let mut row = [GF2(false); N];
            let mut j: usize = 0;
            while j < N
                invariant
                    i < N,
                    j <= N,
                    forall|b: int| 0 <= b < N ==> row[b].0 == (if b < j {
                        data[i as int][b]
                    } else {
                        false
                    }),
                decreases N - j,
            {
                row[j] = GF2(data[i][j]);
                j += 1;
            }
            let ghost prev = result;
            result.data[i] = row;
            assert forall|a: int, b: int| 0 <= a < N && 0 <= b < N implies result.entry(a, b) == (
            if a < i + 1 {
                data[a][b]
            } else {
                false
            }) by {
                if a == i {
                    assert(result.data[a] == row);
                    assert(result.entry(a, b) == row[b].0);
                    assert(row[b].0 == data[a][b]);
                } else {
                    assert(result.data[a] == prev.data[a]);
                    assert(result.entry(a, b) == prev.entry(a, b));
                }
            }
            i += 1;
        }
        result
    }

    /// Matrix times vector.
    pub fn mul_vec(&self, rhs: &VecGF2<N>) -> (r: VecGF2<N>)
        ensures
            r.view_bits() == self.mat_vec(rhs.view_bits()),
    {
        let mut result = VecGF2::new();
        let mut i: usize = 0;
        while i < N
            invariant
                i <= N,
                forall|k: int| 0 <= k < i ==> result.data[k].0 == dot(self.row_of(k), rhs.view_bits(), N as nat),
            decreases N - i,
        {
            let mut sum = false;
            let mut j: usize = 0;
            while j < N
                invariant
                    i < N,
                    j <= N,
                    sum == dot(self.row_of(i as int), rhs.view_bits(), j as nat),
                decreases N - j,
            {
                sum = sum != (self.data[i][j].0 && rhs.data[j].0);
                j += 1;
            }
            result.data[i] = GF2(sum);
            i += 1;
        }
        assert(result.view_bits() =~= self.mat_vec(rhs.view_bits()));
        result
    }

    /// Inverse by Gauss-Jordan elimination; `None` when elimination finds no
    /// pivot for some column.
    pub fn inverse(&self) -> (r: Option<Self>)
        ensures
            r is Some <==> elim_ok(self.rows(), 0, N as int),
            r is Some ==> r->0.is_left_inverse_of(*self),
            r is Some ==> forall|y: Seq<bool>| y.len() == N ==> #[trigger] self.mat_vec(r->0.mat_vec(y)) == y,
            r is Some ==> self.only_zero_to_zero(),
    {
        if N == 0 {
            assert forall|y: Seq<bool>| y.len() == N implies #[trigger] self.mat_vec(self.mat_vec(y)) == y by {
                assert(self.mat_vec(self.mat_vec(y)) =~= y);
            }
            assert(self.only_zero_to_zero()) by {
                assert forall|v: Seq<bool>| v.len() == N && #[trigger] self.mat_vec(v) == Seq::new(N as nat, |i: int| false)
                    implies v == Seq::new(N as nat, |i: int| false) by {
                    assert(v =~= Seq::new(N as nat, |i: int| false));
                }
            }
            return Some(*self);
        }
        let mut left = self.data;
        let mut right = [[GF2(false); N]; N];
        let mut d: usize = 0;
        while d < N
            invariant
                d <= N,
                forall|a: int, b: int|
                    0 <= a < N && 0 <= b < N ==> right[a][b].0 == (a == b && a < d),
            decreases N - d,
        {
            right[d][d] = GF2(true);
            d += 1;
        }
        proof {
            assert forall|k: int, j: int| 0 <= k < N && 0 <= j < N implies #[trigger] dot(
                arr_row(right, k),
                self.col_of(j),
                N as nat,
            ) == left[k][j].0 by {
                lemma_dot_unit(arr_row(right, k), self.col_of(j), k, N as nat);
            }
        }
        let ghost mut fwd: Seq<Seq<bool>> = self.rows();
        assert(arr_rows(left) == self.rows());
        let mut i: usize = 0;
        while i < N
            invariant
                i <= N,
                forall|k: int, j: int|
                    0 <= k < N && 0 <= j < N ==> #[trigger] dot(
                        arr_row(right, k),
                        self.col_of(j),
                        N as nat,
                    ) == left[k][j].0,
                forall|k: int, c: int| 0 <= k < N && 0 <= c < i ==> left[k][c].0 == (k == c),
                fwd.len() == N,
                forall|k: int| i <= k < N ==> #[trigger] fwd[k] == arr_row(left, k),
                elim_ok(fwd, i as int, N as int) == elim_ok(self.rows(), 0, N as int),
            decreases N - i,
        {
            let mut p: usize = i;
            while p < N && !left[p][i].0
                invariant
                    i <= p <= N,
                    i < N,
                    forall|k: int| i <= k < N ==> #[trigger] fwd[k] == arr_row(left, k),
                    pivot_row(fwd, i as int, i as int, N as int) == pivot_row(
                        fwd,
                        i as int,
                        p as int,
                        N as int,
                    ),
                decreases N - p,
            {
                assert(fwd[p as int][i as int] == left[p as int][i as int].0);
                p += 1;
            }
            if p == N {
                return None;
            }
            assert(fwd[p as int][i as int] == left[p as int][i as int].0);
            assert(pivot_row(fwd, i as int, p as int, N as int) == p);
            let ghost m1 = if p != i {
                swap_rows(fwd, i as int, p as int)
            } else {
                fwd
            };
            if p != i {
                let ghost old_left = left;
                let ghost old_right = right;
                let tl = left[i];
                left[i] = left[p];
                left[p] = tl;
                let tr = right[i];
                right[i] = right[p];
                right[p] = tr;
                proof {
                    assert forall|k: int, j: int|
                        0 <= k < N && 0 <= j < N implies #[trigger] dot(
                        arr_row(right, k),
                        self.col_of(j),
                        N as nat,
                    ) == left[k][j].0 by {
                        if k == i {
                            assert(arr_row(right, k) =~= arr_row(old_right, p as int));
                            assert(dot(arr_row(old_right, p as int), self.col_of(j), N as nat)
                                == old_left[p as int][j].0);
                        } else if k == p {
                            assert(arr_row(right, k) =~= arr_row(old_right, i as int));
                            assert(dot(arr_row(old_right, i as int), self.col_of(j), N as nat)
                                == old_left[i as int][j].0);
                        } else {
                            assert(arr_row(right, k) =~= arr_row(old_right, k));
                            assert(dot(arr_row(old_right, k), self.col_of(j), N as nat)
                                == old_left[k][j].0);
                        }
                    }
                }
            }
            assert forall|k2: int| i <= k2 < N implies #[trigger] m1[k2] == arr_row(left, k2) by {
                if p != i {
                    if k2 == i {
                        assert(m1[k2] == fwd[p as int]);
                    } else if k2 == p {
                        assert(m1[k2] == fwd[i as int]);
                    } else {
                        assert(m1[k2] == fwd[k2]);
                    }
                }
            }
            let pivot_l = left[i];
            let pivot_r = right[i];
            let mut k: usize = 0;
            while k < N
                invariant
                    i < N,
                    k <= N,
                    pivot_l == left[i as int],
                    pivot_r == right[i as int],
                    pivot_l[i as int].0,
                    m1.len() == N,
                    m1[i as int] == arr_row(left, i as int),
                    forall|k2: int|
                        i < k2 < N ==> #[trigger] arr_row(left, k2) == (if k2 < k {
                            clear_below(m1, i as int, N as int)[k2]
                        } else {
                            m1[k2]
                        }),
                    forall|k2: int, j: int|
                        0 <= k2 < N && 0 <= j < N ==> #[trigger] dot(
                            arr_row(right, k2),
                            self.col_of(j),
                            N as nat,
                        ) == left[k2][j].0,
                    forall|k2: int, c: int| 0 <= k2 < N && 0 <= c < i ==> left[k2][c].0 == (k2 == c),
                    forall|k2: int| 0 <= k2 < k ==> left[k2][i as int].0 == (k2 == i),
                decreases N - k,
            {
                let ghost pre_left = left;
                proof {
                    if k > i {
                        assert(m1[k as int] == arr_row(left, k as int));
                        assert(arr_row(left, k as int)[i as int] == left[k as int][i as int].0);
                    }
                }
                if k != i && left[k][i].0 {
                    let nl = xor_row(&left[k], &pivot_l);
                    let nr = xor_row(&right[k], &pivot_r);
                    let ghost old_left = left;
                    let ghost old_right = right;
                    left[k] = nl;
                    right[k] = nr;
                    proof {
                        if k > i {
                            assert(arr_row(left, k as int) =~= xor_seq(
                                arr_row(old_left, k as int),
                                arr_row(old_left, i as int),
                            ));
                        }
                        assert forall|k2: int| i < k2 < N && k2 != k implies #[trigger] arr_row(left, k2)
                            == arr_row(old_left, k2) by {
                            assert(arr_row(left, k2) =~= arr_row(old_left, k2));
                        }
                        assert(arr_row(left, i as int) =~= arr_row(old_left, i as int));
                    }
                    proof {
                        assert forall|k2: int, j: int|
                            0 <= k2 < N && 0 <= j < N implies #[trigger] dot(
                            arr_row(right, k2),
                            self.col_of(j),
                            N as nat,
                        ) == left[k2][j].0 by {
                            if k2 == k {
                                assert(arr_row(right, k2) =~= xor_seq(
                                    arr_row(old_right, k2),
                                    arr_row(old_right, i as int),
                                ));
                                lemma_dot_xor(
                                    arr_row(old_right, k2),
                                    arr_row(old_right, i as int),
                                    self.col_of(j),
                                    N as nat,
                                );
                                assert(dot(arr_row(old_right, k2), self.col_of(j), N as nat)
                                    == old_left[k2][j].0);
                                assert(dot(arr_row(old_right, i as int), self.col_of(j), N as nat)
                                    == old_left[i as int][j].0);
                            } else {
                                assert(arr_row(right, k2) =~= arr_row(old_right, k2));
                                assert(dot(arr_row(old_right, k2), self.col_of(j), N as nat)
                                    == old_left[k2][j].0);
                            }
                        }
                    }
                }
                k += 1;
            }
            proof {
                let ghost old_fwd = fwd;
                fwd = clear_below(m1, i as int, N as int);
                assert(elim_ok(old_fwd, i as int, N as int) == elim_ok(fwd, i + 1, N as int));
            }
            i += 1;
        }
        let result = MatGF2 { data: right };
        proof {
            assert forall|a: int, b: int| 0 <= a < N && 0 <= b < N implies #[trigger] result.product_entry(
                *self,
                a,
                b,
            ) == (a == b) by {
                assert(result.row_of(a) =~= arr_row(right, a));
                assert(dot(arr_row(right, a), self.col_of(b), N as nat) == left[a][b].0);
            }
            result.lemma_left_inverse_injective(*self);
            assert forall|y: Seq<bool>| y.len() == N implies #[trigger] self.mat_vec(result.mat_vec(y)) == y by {
                result.lemma_left_inverse_is_right_inverse_vec(*self, y);
            }
        }
        Some(result)
    }

    /// A left inverse of a square matrix is also a right inverse: as the
    /// matrix maps no two vectors to the same one, it maps the vectors of
    /// its size onto all of them.
    pub proof fn lemma_left_inverse_is_right_inverse_vec(self, m: Self, y: Seq<bool>)
        requires
            self.is_left_inverse_of(m),
            y.len() == N,
        ensures
            m.mat_vec(self.mat_vec(y)) == y,
    {
        let all = bit_vectors(N as nat);
        let f = |v: Seq<bool>| m.mat_vec(v);
        lemma_bit_vectors_finite(N as nat);
        assert(vstd::relations::injective_on(f, all)) by {
            assert forall|a: Seq<bool>, b: Seq<bool>| all.contains(a) && all.contains(b) && #[trigger] f(a) == #[trigger] f(b) implies a == b by {
                self.lemma_left_inverse_mat_vec(m, a);
                self.lemma_left_inverse_mat_vec(m, b);
            }
        }
        let img = all.map(f);
        vstd::set_lib::lemma_map_size(all, img, f);
        assert(img.subset_of(all));
        vstd::set_lib::lemma_subset_equality(img, all);
        assert(all.contains(y));
        assert(img.contains(y));
        let x = choose|x: Seq<bool>| all.contains(x) && f(x) == y;
        self.lemma_left_inverse_mat_vec(m, x);
    }

    /// Only the zero vector is mapped to zero: the matrix is invertible.
    pub open spec fn only_zero_to_zero(self) -> bool {
        forall|v: Seq<bool>| v.len() == N && #[trigger] self.mat_vec(v) == Seq::new(N as nat, |i: int| false) ==> v == Seq::new(N as nat, |i: int| false)
    }

    /// A matrix with a left inverse maps only the zero vector to zero.
    pub proof fn lemma_left_inverse_injective(self, m: Self)
        requires
            self.is_left_inverse_of(m),
        ensures
            m.only_zero_to_zero(),
    {
        let z = Seq::new(N as nat, |i: int| false);
        assert forall|v: Seq<bool>| v.len() == N && #[trigger] m.mat_vec(v) == z implies v == z by {
            self.lemma_left_inverse_mat_vec(m, v);
            assert forall|i: int| 0 <= i < N implies self.mat_vec(z)[i] == z[i] by {
                lemma_dot_zero_right(self.row_of(i), z, N as nat);
            }
            assert(self.mat_vec(z) =~= z);
        }
    }


    /// All rows of the matrix.
    pub open spec fn rows(self) -> Seq<Seq<bool>> {
        arr_rows(self.data)
    }

    /// The value of the elimination in `det_from`: zero when some column has
    /// no pivot, otherwise one flipped once per row exchange.
    pub fn determinant(&self) -> (r: GF2)
        ensures
            r.0 == det_from(self.rows(), 0, N as int, true),
    {
        if N == 0 {
            return GF2(true);
        }
        let mut matrix = self.data;
        let mut det = true;
        let mut i: usize = 0;
        while i < N
            invariant
                i <= N,
                det_from(arr_rows(matrix), i as int, N as int, det) == det_from(
                    self.rows(),
                    0,
                    N as int,
                    true,
                ),
            decreases N - i,
        {
            let ghost m0 = arr_rows(matrix);
            let mut p: usize = i;
            while p < N && !matrix[p][i].0
                invariant
                    i <= p <= N,
                    i < N,
                    m0 == arr_rows(matrix),
                    pivot_row(m0, i as int, i as int, N as int) == pivot_row(
                        m0,
                        i as int,
                        p as int,
                        N as int,
                    ),
                decreases N - p,
            {
                p += 1;
            }
            if p == N {
                return GF2(false);
            }
            assert(pivot_row(m0, i as int, p as int, N as int) == p);
            if p != i {
                let t = matrix[i];
                matrix[i] = matrix[p];
                matrix[p] = t;
                det = !det;
                assert(arr_rows(matrix) =~= swap_rows(m0, i as int, p as int)) by {
                    assert(arr_rows(matrix)[i as int] =~= m0[p as int]);
                    assert(arr_rows(matrix)[p as int] =~= m0[i as int]);
                }
            }
            let ghost m1 = arr_rows(matrix);
            let pivot = matrix[i];
            let mut k: usize = i + 1;
            while k < N
                invariant
                    i < N,
                    i < k <= N,
                    pivot == matrix[i as int],
                    forall|k2: int|
                        0 <= k2 < N ==> #[trigger] arr_rows(matrix)[k2] == (if k2 < k {
                            clear_below(m1, i as int, N as int)[k2]
                        } else {
                            m1[k2]
                        }),
                decreases N - k,
            {
                if matrix[k][i].0 {
                    let ghost before = matrix;
                    matrix[k] = xor_row(&matrix[k], &pivot);
                    proof {
                        let ki = k as int;
                        let ii = i as int;
                        assert(arr_rows(before)[ki] == m1[ki]);
                        assert(arr_rows(before)[ii] == m1[ii]);
                        assert(arr_rows(before)[ki] == arr_row(before, ki));
                        assert(arr_rows(before)[ii] == arr_row(before, ii));
                        assert(arr_rows(matrix)[ki] == arr_row(matrix, ki));
                        assert(pivot == before[ii]);
                        assert(arr_row(matrix, ki) =~= xor_seq(arr_row(before, ki), arr_row(before, ii)));
                        assert(arr_rows(matrix)[k as int] =~= xor_seq(m1[k as int], m1[i as int]));
                        assert forall|k2: int| 0 <= k2 < N && k2 != k implies #[trigger] arr_rows(
                            matrix,
                        )[k2] == arr_rows(before)[k2] by {
                            assert(matrix[k2] == before[k2]);
                            assert(arr_rows(matrix)[k2] == arr_row(matrix, k2));
                            assert(arr_rows(before)[k2] == arr_row(before, k2));
                            assert(arr_row(matrix, k2) =~= arr_row(before, k2));
                        }
                        assert(clear_below(m1, i as int, N as int)[k as int] == xor_seq(m1[k as int], m1[i as int]));
                    }
                } else {
                    proof {
                        assert(arr_rows(matrix)[k as int] == m1[k as int]);
                        assert(arr_rows(matrix)[k as int] == arr_row(matrix, k as int));
                        assert(!m1[k as int][i as int]);
                    }
                }
                k += 1;
            }
            assert(arr_rows(matrix) =~= clear_below(m1, i as int, N as int));
            i += 1;
        }
        GF2(det)
    }

}

/// The bytewise XOR of two words.
pub open spec fn xor_word(a: Seq<u8>, b: Seq<u8>) -> Seq<u8> {
    Seq::new(4, |k: int| a[k] ^ b[k])
}

/// A bit of an XOR is the XOR of the bits.
proof fn lemma_shift_xor(x: u8, y: u8, s: u8)
    by (bit_vector)
    ensures
        (((x ^ y) >> s) & 1 == 1) == (((x >> s) & 1 == 1) != ((y >> s) & 1 == 1)),
{
}

/// The bits of an XOR of bytes are the XOR of their bits.
proof fn lemma_byte_bits_xor(x: u8, y: u8)
    ensures
        byte_bits(x ^ y) == xor_seq(byte_bits(x), byte_bits(y)),
{
    assert forall|t: int| 0 <= t < 8 implies byte_bits(x ^ y)[t] == xor_seq(byte_bits(x), byte_bits(y))[t] by {
        lemma_shift_xor(x, y, (7 - t) as u8);
    }
    assert(byte_bits(x ^ y) =~= xor_seq(byte_bits(x), byte_bits(y)));
}

/// The bits of an XOR of words are the XOR of their bits.
proof fn lemma_word_bits_xor(a: Seq<u8>, b: Seq<u8>)
    ensures
        word_bits(xor_word(a, b)) == xor_seq(word_bits(a), word_bits(b)),
{
    assert forall|t: int| 0 <= t < 32 implies word_bits(xor_word(a, b))[t] == xor_seq(word_bits(a), word_bits(b))[t] by {
        lemma_byte_bits_xor(a[t / 8], b[t / 8]);
    }
    assert(word_bits(xor_word(a, b)) =~= xor_seq(word_bits(a), word_bits(b)));
}

/// The dot product is symmetric.
proof fn lemma_dot_comm(a: Seq<bool>, b: Seq<bool>, n: nat)
    ensures
        dot(a, b, n) == dot(b, a, n),
    decreases n,
{
    if n > 0 {
        lemma_dot_comm(a, b, (n - 1) as nat);
    }
}

/// The bytes of an XOR of vectors are the XOR of their bytes.
proof fn lemma_bits_bytes_xor(s1: Seq<bool>, s2: Seq<bool>)
    requires
        s1.len() == 32,
        s2.len() == 32,
    ensures
        bits_bytes(xor_seq(s1, s2)) == xor_word(bits_bytes(s1), bits_bytes(s2)),
{
    let w = xor_word(bits_bytes(s1), bits_bytes(s2));
    lemma_word_bits_xor(bits_bytes(s1), bits_bytes(s2));
    lemma_word_bits_bytes(s1);
    lemma_word_bits_bytes(s2);
    lemma_bytes_word_bits(w);
}

/// A dot product over a vector that is zero outside the block of eight at
/// `8 * k` is the dot product of the blocks.
proof fn lemma_dot_block(a: Seq<bool>, b: Seq<bool>, k: int, n: nat)
    requires
        0 <= k < 4,
        a.len() == 32,
        b.len() == 32,
        n <= 32,
        forall|j: int| 0 <= j < 32 && (j < 8 * k || j >= 8 * k + 8) ==> !#[trigger] a[j],
    ensures
        dot(a, b, n) == if n <= 8 * k {
            false
        } else if n <= 8 * k + 8 {
            dot(a.subrange(8 * k, 8 * k + 8), b.subrange(8 * k, 8 * k + 8), (n - 8 * k) as nat)
        } else {
            dot(a.subrange(8 * k, 8 * k + 8), b.subrange(8 * k, 8 * k + 8), 8)
        },
    decreases n,
{
    if n > 0 {
        lemma_dot_block(a, b, k, (n - 1) as nat);
        let sa = a.subrange(8 * k, 8 * k + 8);
        let sb = b.subrange(8 * k, 8 * k + 8);
        let j = n - 1;
        if j < 8 * k || j >= 8 * k + 8 {
            assert(!a[j]);
        } else {
            let t = j - 8 * k;
            assert(sa[t] == a[j] && sb[t] == b[j]);
            assert(dot(sa, sb, (t + 1) as nat) == (dot(sa, sb, t as nat) != (sa[t] && sb[t])));
        }
    }
}

impl MatGF2<32> {
    /// The block-diagonal matrix of the four given 8 x 8 blocks.
    pub open spec fn is_l_concat(self, mat: [MatGF2<8>; 4]) -> bool {
        forall|i: int, j: int|
            0 <= i < 32 && 0 <= j < 32 ==> #[trigger] self.entry(i, j) == (i / 8 == j / 8 && mat[i / 8].entry(i % 8, j % 8))
    }

    /// The block-diagonal matrix of the four given blocks.
    pub open spec fn l_concat(mat: [MatGF2<8>; 4]) -> MatGF2<32> {
        choose|m: MatGF2<32>| m.is_l_concat(mat)
    }

    /// Two matrices with the same entries map words alike.
    pub proof fn lemma_l_concat_word_image(self, mat: [MatGF2<8>; 4], w: Seq<u8>)
        requires
            self.is_l_concat(mat),
        ensures
            Self::l_concat(mat).word_image(w) == self.word_image(w),
    {
        let m = Self::l_concat(mat);
        assert(m.is_l_concat(mat));
        assert forall|i: int| 0 <= i < 32 implies #[trigger] m.row_of(i) == self.row_of(i) by {
            assert forall|j: int| 0 <= j < 32 implies m.row_of(i)[j] == self.row_of(i)[j] by {
                assert(m.entry(i, j) == self.entry(i, j));
            }
            assert(m.row_of(i) =~= self.row_of(i));
        }
        assert(m.mat_vec(word_bits(w)) =~= self.mat_vec(word_bits(w)));
    }

    /// The matrix applied to four bytes read as a vector of 32 bits.
    pub open spec fn word_image(self, b: Seq<u8>) -> Seq<u8> {
        bits_bytes(self.mat_vec(word_bits(b)))
    }

    /// A block-diagonal matrix maps byte `k` of a word by its block `k`.
    pub proof fn lemma_l_concat_bytes(self, mat: [MatGF2<8>; 4], w: Seq<u8>, k: int)
        requires
            self.is_l_concat(mat),
            w.len() == 4,
            0 <= k < 4,
        ensures
            self.word_image(w)[k] == mat[k].image(w[k]),
    {
        let wb = word_bits(w);
        let mv = self.mat_vec(wb);
        let sub = wb.subrange(8 * k, 8 * k + 8);
        assert(sub =~= byte_bits(w[k]));
        assert forall|t: int| 0 <= t < 8 implies mv[8 * k + t] == mat[k].mat_vec(byte_bits(w[k]))[t] by {
            let i = 8 * k + t;
            let row = self.row_of(i);
            assert(i / 8 == k && i % 8 == t);
            assert forall|j: int| 0 <= j < 32 && (j < 8 * k || j >= 8 * k + 8) implies !#[trigger] row[j] by {
                assert(self.entry(i, j) == (i / 8 == j / 8 && mat[i / 8].entry(i % 8, j % 8)));
            }
            lemma_dot_block(row, wb, k, 32);
            assert(row.subrange(8 * k, 8 * k + 8) =~= mat[k].row_of(t)) by {
                assert forall|j: int| 0 <= j < 8 implies row.subrange(8 * k, 8 * k + 8)[j] == mat[k].row_of(t)[j] by {
                    assert(self.entry(i, 8 * k + j) == (i / 8 == (8 * k + j) / 8 && mat[i / 8].entry(i % 8, (8 * k + j) % 8)));
                }
            }
        }
        assert(mv.subrange(8 * k, 8 * k + 8) =~= mat[k].mat_vec(byte_bits(w[k])));
    }

    /// The matrix maps the XOR of two words to the XOR of their images.
    pub proof fn lemma_word_image_xor(self, a: Seq<u8>, b: Seq<u8>)
        ensures
            self.word_image(xor_word(a, b)) == xor_word(self.word_image(a), self.word_image(b)),
    {
        let u = word_bits(a);
        let v = word_bits(b);
        lemma_word_bits_xor(a, b);
        assert forall|i: int| 0 <= i < 32 implies self.mat_vec(xor_seq(u, v))[i] == xor_seq(self.mat_vec(u), self.mat_vec(v))[i] by {
            let row = self.row_of(i);
            lemma_dot_comm(row, xor_seq(u, v), 32);
            lemma_dot_xor(u, v, row, 32);
            lemma_dot_comm(u, row, 32);
            lemma_dot_comm(v, row, 32);
        }
        assert(self.mat_vec(xor_seq(u, v)) =~= xor_seq(self.mat_vec(u), self.mat_vec(v)));
        lemma_bits_bytes_xor(self.mat_vec(u), self.mat_vec(v));
    }

    /// A left inverse undoes the matrix on words.
    pub proof fn lemma_left_inverse_word_image(self, m: Self, x: Seq<u8>)
        requires
            self.is_left_inverse_of(m),
            x.len() == 4,
        ensures
            self.word_image(m.word_image(x)) == x,
    {
        lemma_word_bits_bytes(m.mat_vec(word_bits(x)));
        self.lemma_left_inverse_mat_vec(m, word_bits(x));
        lemma_bytes_word_bits(x);
    }

    /// A left inverse is also a right inverse on words.
    pub proof fn lemma_left_inverse_word_image_right(self, m: Self, x: Seq<u8>)
        requires
            self.is_left_inverse_of(m),
            x.len() == 4,
        ensures
            m.word_image(self.word_image(x)) == x,
    {
        lemma_word_bits_bytes(self.mat_vec(word_bits(x)));
        self.lemma_left_inverse_is_right_inverse_vec(m, word_bits(x));
        lemma_bytes_word_bits(x);
    }

    fn apply_bytes(&self, b: [u8; 4]) -> (r: [u8; 4])
        ensures
            r@ == self.word_image(b@),
    {
        let out = self.mul_vec(&bytes2vec(b));
        vec2bytes(&out)
    }

    fn apply_inverse_bytes(&self, v: [u8; 4]) -> (r: [u8; 4])
        requires
            elim_ok(self.rows(), 0, 32),
        ensures
            exists|b: Self| b.is_left_inverse_of(*self) && r@ == #[trigger] b.word_image(v@),
            forall|x: Seq<u8>| x.len() == 4 && v@ == #[trigger] self.word_image(x) ==> r@ == x,
    {
        let b = self.inverse().unwrap();
        let r = b.apply_bytes(v);
        proof {
            assert forall|x: Seq<u8>| x.len() == 4 && v@ == #[trigger] self.word_image(x) implies r@ == x by {
                b.lemma_left_inverse_word_image(*self, x);
            }
        }
        r
    }

    /// The matrix applied to a column, its first byte most significant.
    pub fn apply_row(&self, v: Column) -> (r: Column)
        ensures
            r.0@ == self.word_image(v.0@),
    {
        Column(self.apply_bytes(v.0))
    }

    /// The inverse matrix applied to a column; the matrix must be invertible.
    pub fn apply_inverse_row(&self, v: Column) -> (r: Column)
        requires
            elim_ok(self.rows(), 0, 32),
        ensures
            exists|b: Self| b.is_left_inverse_of(*self) && r.0@ == #[trigger] b.word_image(v.0@),
            forall|x: Seq<u8>| x.len() == 4 && v.0@ == #[trigger] self.word_image(x) ==> r.0@ == x,
    {
        Column(self.apply_inverse_bytes(v.0))
    }

    /// The matrix applied to a row, its first byte most significant.
    pub fn apply_column(&self, v: Row) -> (r: Row)
        ensures
            r.0@ == self.word_image(v.0@),
    {
        Row(self.apply_bytes(v.0))
    }

    /// The inverse matrix applied to a row; the matrix must be invertible.
    pub fn apply_inverse_column(&self, v: Row) -> (r: Row)
        requires
            elim_ok(self.rows(), 0, 32),
        ensures
            exists|b: Self| b.is_left_inverse_of(*self) && r.0@ == #[trigger] b.word_image(v.0@),
            forall|x: Seq<u8>| x.len() == 4 && v.0@ == #[trigger] self.word_image(x) ==> r.0@ == x,
            self.word_image(r.0@) == v.0@,
    {
        let r = Row(self.apply_inverse_bytes(v.0));
        proof {
            let b = choose|b: Self| b.is_left_inverse_of(*self) && r.0@ == #[trigger] b.word_image(v.0@);
            b.lemma_left_inverse_word_image_right(*self, v.0@);
        }
        r
    }

    /// The block-diagonal matrix with the four given 8 x 8 blocks.
    pub fn concat(mat: [MatGF2<8>; 4]) -> (r: Self)
        ensures
            r.is_l_concat(mat),
            forall|i: int, j: int|
                0 <= i < 32 && 0 <= j < 32 ==> r.entry(i, j) == (i / 8 == j / 8 && mat[i / 8].entry(
                    i % 8,
                    j % 8,
                )),
    {
        let mut concat = Self::new();
        let mut i: usize = 0;
        while i < 8
            invariant
                i <= 8,
                forall|a: int, b: int|
                    0 <= a < 32 && 0 <= b < 32 ==> concat.entry(a, b) == (a / 8 == b / 8 && a % 8 < i
                        && mat[a / 8].entry(a % 8, b % 8)),
            decreases 8 - i,
        {
            let mut j: usize = 0;
            while j < 8
                invariant
                    i < 8,
                    j <= 8,
                    forall|a: int, b: int|
                        0 <= a < 32 && 0 <= b < 32 ==> concat.entry(a, b) == (a / 8 == b / 8 && (a % 8
                            < i || (a % 8 == i && b % 8 < j)) && mat[a / 8].entry(a % 8, b % 8)),
                decreases 8 - j,
            {
                let mut p: usize = 0;
                while p < 4
                    invariant
                        i < 8,
                        j < 8,
                        p <= 4,
                        forall|a: int, b: int|
                            0 <= a < 32 && 0 <= b < 32 ==> concat.entry(a, b) == (a / 8 == b / 8 && (a
                                % 8 < i || (a % 8 == i && b % 8 < j) || (a % 8 == i && b % 8 == j && a
                                / 8 < p)) && mat[a / 8].entry(a % 8, b % 8)),
                    decreases 4 - p,
                {
                    let off = 8 * p;
                    concat.set(i + off, j + off, mat[p].get(i, j));
                    p += 1;
                }
                j += 1;
            }
            i += 1;
        }
        concat
    }
}

impl<const N: usize> MatGF2<N> {
    /// The identity matrix.
    pub fn identity_n() -> (r: Self)
        ensures
            r.rows() == identity_rows(N as nat),
            r.is_identity(),
    {
        let mut m = Self::new();
        let mut i: usize = 0;
        while i < N
            invariant
                i <= N,
                forall|a: int, b: int| 0 <= a < N && 0 <= b < N ==> m.entry(a, b) == (a == b && a < i),
            decreases N - i,
        {
            m.set(i, i, GF2(true));
            i += 1;
        }
        assert(m.rows() =~= identity_rows(N as nat)) by {
            assert forall|a: int| 0 <= a < N implies #[trigger] m.rows()[a] =~= identity_rows(N as nat)[a] by {
                assert(m.rows()[a] == arr_row(m.data, a));
                assert forall|b: int| 0 <= b < N implies arr_row(m.data, a)[b] == identity_rows(N as nat)[a][b] by {
                    assert(arr_row(m.data, a)[b] == m.entry(a, b));
                }
            }
        }
        m
    }

    /// A matrix with uniformly random entries.
    pub fn random(rnd: &mut rand::rngs::ThreadRng) -> (r: Self) {
        let mut out = Self::new();
        let mut i: usize = 0;
        while i < N
            invariant
                i <= N,
            decreases N - i,
        {
            let mut j: usize = 0;
            while j < N
                invariant
                    i < N,
                    j <= N,
                decreases N - j,
            {
                let b = crate::random::random_bool(rnd);
                out.set(i, j, GF2(b));
                j += 1;
            }
            i += 1;
        }
        out
    }

    /// A random matrix that elimination shows to be invertible, drawn again
    /// until one is found. After `usize::MAX` draws, which does not happen in
    /// practice, the identity matrix is returned.
    pub fn random_invertible(rng: &mut rand::rngs::ThreadRng) -> (r: Self)
        ensures
            elim_ok(r.rows(), 0, N as int),
    {
        let mut out = Self::random(rng);
        let mut i: usize = 1;
        while out.determinant().0 == false
            invariant
                1 <= i,
            decreases usize::MAX - i,
        {
            if i == usize::MAX {
                let id = Self::identity_n();
                proof {
                    lemma_identity_elim_ok(N as nat, 0);
                }
                return id;
            }
            out = Self::random(rng);
            i += 1;
        }
        proof {
            lemma_det_elim_ok(out.rows(), 0, N as int, true);
        }
        out
    }
}

impl<const N: usize> MatGF2<N> {
    /// Matrix product `self * other`.
    pub fn compose(&self, other: &Self) -> (r: Self)
        ensures
            forall|i: int, j: int|
                0 <= i < N && 0 <= j < N ==> r.entry(i, j) == self.product_entry(*other, i, j),
            r.rows() == mat_mul_rows(self.rows(), other.rows(), N as nat),
            forall|x: Seq<bool>| x.len() == N ==> #[trigger] r.mat_vec(x) == self.mat_vec(other.mat_vec(x)),
    {
        let mut result = Self::new();
        let mut i: usize = 0;
        while i < N
            invariant
                i <= N,
                forall|a: int, b: int|
                    0 <= a < i && 0 <= b < N ==> result.entry(a, b) == self.product_entry(
                        *other,
                        a,
                        b,
                    ),
            decreases N - i,
        {
            let mut row = [GF2(false); N];
            let mut j: usize = 0;
            while j < N
                invariant
                    i < N,
                    j <= N,
                    forall|b: int| 0 <= b < j ==> row[b].0 == self.product_entry(*other, i as int, b),
                decreases N - j,
            {
                let mut sum = false;
                let mut k: usize = 0;
                while k < N
                    invariant
                        i < N,
                        j < N,
                        k <= N,
                        sum == dot(self.row_of(i as int), other.col_of(j as int), k as nat),
                    decreases N - k,
                {
                    sum = sum != (self.data[i][k].0 && other.data[k][j].0);
                    k += 1;
                }
                row[j] = GF2(sum);
                j += 1;
            }
            let ghost prev = result;
            result.data[i] = row;
            assert forall|a: int, b: int| 0 <= a < i + 1 && 0 <= b < N implies result.entry(a, b)
                == self.product_entry(*other, a, b) by {
                if a == i {
                    assert(result.data[a] == row);
                } else {
                    assert(result.data[a] == prev.data[a]);
                    assert(result.entry(a, b) == prev.entry(a, b));
                }
            }
            i += 1;
        }
        proof {
            assert forall|x: Seq<bool>| x.len() == N implies #[trigger] result.mat_vec(x) == self.mat_vec(other.mat_vec(x)) by {
                result.lemma_compose_mat_vec(*self, *other, x);
            }
            assert forall|a: int| 0 <= a < N implies #[trigger] result.rows()[a] == mat_mul_rows(
                self.rows(),
                other.rows(),
                N as nat,
            )[a] by {
                assert forall|b: int| 0 <= b < N implies result.rows()[a][b] == mat_mul_rows(
                    self.rows(),
                    other.rows(),
                    N as nat,
                )[a][b] by {
                    assert(self.rows()[a] == arr_row(self.data, a));
                    assert(self.rows()[a] =~= self.row_of(a));
                    assert forall|k: int| 0 <= k < N implies #[trigger] other.rows()[k][b] == other.col_of(b)[k] by {
                        assert(other.rows()[k] == arr_row(other.data, k));
                    }
                    assert(Seq::new(N as nat, |k: int| other.rows()[k][b]) =~= other.col_of(b));
                    assert(result.rows()[a] == arr_row(result.data, a));
                    assert(result.rows()[a][b] == result.entry(a, b));
                }
                assert(result.rows()[a] =~= mat_mul_rows(self.rows(), other.rows(), N as nat)[a]);
            }
            assert(result.rows() =~= mat_mul_rows(self.rows(), other.rows(), N as nat));
        }
        result
    }
}

impl<const N: usize> core::ops::Mul<VecGF2<N>> for MatGF2<N> {
    type Output = VecGF2<N>;

    fn mul(self, rhs: VecGF2<N>) -> (r: VecGF2<N>) {
        let r = self.mul_vec(&rhs);
        proof {
            let c = choose|v: VecGF2<N>| v.view_bits() == self.mat_vec(rhs.view_bits());
            assert(r.view_bits() == self.mat_vec(rhs.view_bits()));
            assert(c.view_bits() == self.mat_vec(rhs.view_bits()));
            assert forall|k: int| 0 <= k < N implies c.data[k] == r.data[k] by {
                assert(c.view_bits()[k] == r.view_bits()[k]);
            }
            assert(c.data =~= r.data);
        }
        r
    }
}

impl<const N: usize> vstd::std_specs::ops::MulSpecImpl<VecGF2<N>> for MatGF2<N> {
    open spec fn obeys_mul_spec() -> bool {
        true
    }

    open spec fn mul_req(self, rhs: VecGF2<N>) -> bool {
        true
    }

    /// The vector whose entries are the dot products of the rows with `rhs`.
    open spec fn mul_spec(self, rhs: VecGF2<N>) -> VecGF2<N> {
        choose|v: VecGF2<N>| v.view_bits() == self.mat_vec(rhs.view_bits())
    }
}

impl MatGF2<8> {
    pub fn identity() -> (r: Self)
        ensures
            r.is_identity(),
            r.rows() == identity_rows(8),
    {
        let mut m = Self::new();
        let mut i: usize = 0;
        while i < 8
            invariant
                i <= 8,
                forall|a: int, b: int| 0 <= a < 8 && 0 <= b < 8 ==> m.entry(a, b) == (a == b && a < i),
            decreases 8 - i,
        {
            m.set(i, i, GF2(true));
            i += 1;
        }
        assert(m.rows() =~= identity_rows(8)) by {
            assert forall|a: int| 0 <= a < 8 implies #[trigger] m.rows()[a] =~= identity_rows(8)[a] by {
                assert(m.rows()[a] == arr_row(m.data, a));
                assert forall|b: int| 0 <= b < 8 implies arr_row(m.data, a)[b] == identity_rows(8)[a][b] by {
                    assert(arr_row(m.data, a)[b] == m.entry(a, b));
                }
            }
        }
        m
    }

    /// The matrix whose column `7 - c` holds the bits of `cols[c]`, bit `k`
    /// in row `7 - k`.
    pub fn from_column_bytes(cols: [u8; 8]) -> (r: Self)
        ensures
            forall|i: int, j: int|
                0 <= i < 8 && 0 <= j < 8 ==> r.entry(i, j) == ((cols[7 - j] >> ((7 - i) as u8)) & 1
                    == 1),
            r.rows() == column_bytes_rows(cols@),
    {
        let mut m = Self::new();
        let mut col: usize = 0;
        while col < 8
            invariant
                col <= 8,
                forall|i: int, j: int|
                    0 <= i < 8 && 0 <= j < 8 ==> m.entry(i, j) == (if 7 - j < col {
                        (cols[7 - j] >> ((7 - i) as u8)) & 1 == 1
                    } else {
                        false
                    }),
            decreases 8 - col,
        {
            let mut row: usize = 0;
            while row < 8
                invariant
                    col < 8,
                    row <= 8,
                    forall|i: int, j: int|
                        0 <= i < 8 && 0 <= j < 8 ==> m.entry(i, j) == (if 7 - j < col || (7 - j
                            == col && 7 - i < row) {
                            (cols[7 - j] >> ((7 - i) as u8)) & 1 == 1
                        } else {
                            false
                        }),
                decreases 8 - row,
            {
                m.set(7 - row, 7 - col, GF2((cols[col] >> (row as u8)) & 1 == 1));
                row += 1;
            }
            col += 1;
        }
        assert(m.rows() =~= column_bytes_rows(cols@)) by {
            assert forall|a: int| 0 <= a < 8 implies #[trigger] m.rows()[a] =~= column_bytes_rows(cols@)[a] by {
                assert(m.rows()[a] == arr_row(m.data, a));
                assert forall|b: int| 0 <= b < 8 implies arr_row(m.data, a)[b] == column_bytes_rows(cols@)[a][b] by {
                    assert(arr_row(m.data, a)[b] == m.entry(a, b));
                }
            }
        }
        m
    }

    /// Inverse of `from_column_bytes`.
    pub fn to_column_bytes(&self) -> (r: [u8; 8])
        ensures
            forall|c: int, k: int|
                #![trigger (r[c] >> (k as u8))]
                0 <= c < 8 && 0 <= k < 8 ==> ((r[c] >> (k as u8)) & 1 == 1) == self.entry(7 - k, 7 - c),
    {
        let mut cols = [0u8; 8];
        let mut col: usize = 0;
        while col < 8
            invariant
                col <= 8,
                forall|c: int, k: int|
                    #![trigger (cols[c] >> (k as u8))]
                    0 <= c < col && 0 <= k < 8 ==> ((cols[c] >> (k as u8)) & 1 == 1) == self.entry(
                        7 - k,
                        7 - c,
                    ),
            decreases 8 - col,
        {
            let mut b: u8 = 0;
            let mut row: usize = 0;
            assert forall|k: int| #![trigger (b >> (k as u8))] 0 <= k < 8 implies ((b >> (k as u8)) & 1 == 1) == false by {
                let ku = k as u8;
                assert((0u8 >> ku) & 1 == 0) by (bit_vector);
            }
            while row < 8
                invariant
                    col < 8,
                    row <= 8,
                    forall|k: int|
                        #![trigger (b >> (k as u8))]
                        0 <= k < 8 ==> ((b >> (k as u8)) & 1 == 1) == (k < row && self.entry(
                            7 - k,
                            7 - col,
                        )),
                decreases 8 - row,
            {
                let ghost b0 = b;
                let bit = self.get(7 - row, 7 - col).0;
                if bit {
                    b = b | (1u8 << (row as u8));
                }
                proof {
                    let ru = row as u8;
                    assert forall|k: int| #![trigger (b >> (k as u8))] 0 <= k < 8 implies ((b >> (k as u8)) & 1 == 1) == (k < row
                        + 1 && self.entry(7 - k, 7 - col)) by {
                        let ku = k as u8;
                        assert(((b0 >> ku) & 1 == 1) == (k < row && self.entry(7 - k, 7 - col)));
                        if bit {
                            assert(((b0 | (1u8 << ru)) >> ku) & 1 == (if ku == ru {
                                1u8
                            } else {
                                (b0 >> ku) & 1
                            })) by (bit_vector)
                                requires
                                    ku < 8,
                                    ru < 8,
                            ;
                        }
                    }
                }
                row += 1;
            }
            let ghost prev = cols;
            cols[col] = b;
            assert forall|c: int, k: int| #![trigger (cols[c] >> (k as u8))] 0 <= c < col + 1 && 0 <= k < 8 implies ((cols[c] >> (k as u8))
                & 1 == 1) == self.entry(7 - k, 7 - c) by {
                if c < col {
                    assert(cols[c] == prev[c]);
                }
            }
            col += 1;
        }
        cols
    }

    /// Matrix times the byte `v` read as a vector, most significant bit first.
    pub fn apply(&self, v: u8) -> (r: u8)
        ensures
            r == bits_value(self.mat_vec(byte_bits(v)), 8),
            r == self.image(v),
    {
        let out = self.mul_vec(&i82vec(v));
        let r = vec2i8(out);
        proof {
            lemma_bits_value_bound(self.mat_vec(byte_bits(v)), 8);
            vstd::arithmetic::power2::lemma2_to64();
        }
        r
    }

    /// The matrix applied to a byte.
    pub open spec fn image(self, v: u8) -> u8 {
        bits_value(self.mat_vec(byte_bits(v)), 8) as u8
    }

    /// The image of a byte depends on the rows alone.
    pub proof fn lemma_image_rows(self, v: u8)
        ensures
            self.image(v) == rows_image(self.rows(), v),
    {
        assert forall|i: int| 0 <= i < 8 implies #[trigger] self.row_of(i) == self.rows()[i] by {
            assert(self.rows()[i] == arr_row(self.data, i));
            assert(self.row_of(i) =~= arr_row(self.data, i));
        }
        assert(self.mat_vec(byte_bits(v)) =~= Seq::new(8, |i: int| dot(self.rows()[i], byte_bits(v), 8)));
    }

    /// A left inverse undoes the matrix on bytes.
    pub proof fn lemma_left_inverse_image(self, m: Self, x: u8)
        requires
            self.is_left_inverse_of(m),
        ensures
            self.image(m.image(x)) == x,
    {
        let mx = m.mat_vec(byte_bits(x));
        lemma_byte_bits_value(mx);
        self.lemma_left_inverse_mat_vec(m, byte_bits(x));
        lemma_bits_value_byte(x);
    }

    /// The matrix maps the XOR of two bytes to the XOR of their images.
    pub proof fn lemma_image_xor(self, a: u8, b: u8)
        ensures
            self.image(a ^ b) == self.image(a) ^ self.image(b),
    {
        let u = byte_bits(a);
        let v = byte_bits(b);
        lemma_byte_bits_xor(a, b);
        assert forall|i: int| 0 <= i < 8 implies self.mat_vec(xor_seq(u, v))[i] == xor_seq(self.mat_vec(u), self.mat_vec(v))[i] by {
            let row = self.row_of(i);
            lemma_dot_comm(row, xor_seq(u, v), 8);
            lemma_dot_xor(u, v, row, 8);
            lemma_dot_comm(u, row, 8);
            lemma_dot_comm(v, row, 8);
        }
        assert(self.mat_vec(xor_seq(u, v)) =~= xor_seq(self.mat_vec(u), self.mat_vec(v)));
        let ia = self.image(a);
        let ib = self.image(b);
        lemma_byte_bits_value(self.mat_vec(u));
        lemma_byte_bits_value(self.mat_vec(v));
        lemma_byte_bits_xor(ia, ib);
        lemma_bits_value_byte(ia ^ ib);
    }

    /// The byte that the matrix maps to `v`, when there is one.
    pub open spec fn preimage(self, v: u8) -> u8 {
        choose|x: u8| self.image(x) == v
    }

    /// A matrix with a left inverse maps some byte to every byte, and the
    /// left inverse maps every byte to its preimage.
    pub proof fn lemma_left_inverse_preimage(self, m: Self, v: u8)
        requires
            self.is_left_inverse_of(m),
        ensures
            m.image(m.preimage(v)) == v,
            self.image(v) == m.preimage(v),
    {
        let s = Seq::new(256, |x: int| m.image(x as u8));
        assert forall|i: int, j: int| 0 <= i < j < 256 implies s[i] != s[j] by {
            self.lemma_left_inverse_image(m, i as u8);
            self.lemma_left_inverse_image(m, j as u8);
        }
        crate::lemma_pigeonhole(s, v as nat);
        let j = choose|j: int| 0 <= j < s.len() && s[j] == v;
        assert(m.image(j as u8) == v);
        let p = m.preimage(v);
        assert(m.image(p) == v);
        self.lemma_left_inverse_image(m, p);
    }

    /// A matrix whose entries are those of the product `a * b` maps a byte
    /// as `b` then `a` do.
    pub proof fn lemma_compose_image(self, a: Self, b: Self, x: u8)
        requires
            forall|i: int, j: int| 0 <= i < 8 && 0 <= j < 8 ==> #[trigger] self.entry(i, j) == a.product_entry(b, i, j),
        ensures
            self.image(x) == a.image(b.image(x)),
    {
        self.lemma_compose_mat_vec(a, b, byte_bits(x));
        lemma_byte_bits_value(b.mat_vec(byte_bits(x)));
    }

    /// Reading the columns back from the matrix made of them gives the
    /// columns: `to_column_bytes` undoes `from_column_bytes`.
    pub proof fn lemma_column_bytes_roundtrip(self, cols: [u8; 8], back: [u8; 8])
        requires
            forall|i: int, j: int| 0 <= i < 8 && 0 <= j < 8 ==> self.entry(i, j) == ((cols[7 - j] >> ((7 - i) as u8)) & 1 == 1),
            forall|c: int, k: int|
                #![trigger (back[c] >> (k as u8))]
                0 <= c < 8 && 0 <= k < 8 ==> ((back[c] >> (k as u8)) & 1 == 1) == self.entry(7 - k, 7 - c),
        ensures
            back == cols,
    {
        assert forall|c: int| 0 <= c < 8 implies back[c] == cols[c] by {
            assert forall|t: int| 0 <= t < 8 implies byte_bits(back[c])[t] == byte_bits(cols[c])[t] by {
                let k = 7 - t;
                assert(((back[c] >> (k as u8)) & 1 == 1) == self.entry(7 - k, 7 - c));
                assert(self.entry(7 - k, 7 - c) == ((cols[7 - (7 - c)] >> ((7 - (7 - k)) as u8)) & 1 == 1));
            }
            assert(byte_bits(back[c]) =~= byte_bits(cols[c]));
            lemma_bits_value_byte(back[c]);
            lemma_bits_value_byte(cols[c]);
        }
        assert(back@ =~= cols@);
    }

    /// The matrix made of the columns that `to_column_bytes` reads from a
    /// matrix has the same entries: `from_column_bytes` undoes `to_column_bytes`.
    pub proof fn lemma_matrix_columns_roundtrip(self, cols: [u8; 8], back: Self)
        requires
            forall|c: int, k: int|
                #![trigger (cols[c] >> (k as u8))]
                0 <= c < 8 && 0 <= k < 8 ==> ((cols[c] >> (k as u8)) & 1 == 1) == self.entry(7 - k, 7 - c),
            forall|i: int, j: int| 0 <= i < 8 && 0 <= j < 8 ==> back.entry(i, j) == ((cols[7 - j] >> ((7 - i) as u8)) & 1 == 1),
        ensures
            forall|i: int, j: int| 0 <= i < 8 && 0 <= j < 8 ==> back.entry(i, j) == self.entry(i, j),
    {
        assert forall|i: int, j: int| 0 <= i < 8 && 0 <= j < 8 implies back.entry(i, j) == self.entry(i, j) by {
            assert(((cols[7 - j] >> ((7 - i) as u8)) & 1 == 1) == self.entry(7 - (7 - i), 7 - (7 - j)));
        }
    }

    /// The identity matrix maps every byte to itself.
    pub proof fn lemma_identity_image(self, v: u8)
        requires
            self.is_identity(),
        ensures
            self.image(v) == v,
    {
        self.lemma_identity_mat_vec(byte_bits(v));
        lemma_bits_value_byte(v);
    }

    /// A left inverse of a matrix on bytes is also a right inverse.
    pub proof fn lemma_left_inverse_is_right_inverse(self, m: Self, v: u8)
        requires
            self.is_left_inverse_of(m),
        ensures
            m.image(self.image(v)) == v,
    {
        self.lemma_left_inverse_preimage(m, v);
    }

    /// A left inverse of an invertible matrix maps every byte to the byte
    /// that the matrix rows map to it.
    pub proof fn lemma_left_inverse_rows_preimage(self, m: Self, v: u8)
        requires
            self.is_left_inverse_of(m),
        ensures
            self.image(v) == rows_preimage(m.rows(), v),
            rows_image(m.rows(), rows_preimage(m.rows(), v)) == v,
    {
        self.lemma_left_inverse_preimage(m, v);
        let x0 = m.preimage(v);
        m.lemma_image_rows(x0);
        let y = rows_preimage(m.rows(), v);
        assert(rows_image(m.rows(), y) == v);
        m.lemma_image_rows(y);
        self.lemma_left_inverse_image(m, y);
        self.lemma_left_inverse_image(m, x0);
    }

    /// Applies the inverse matrix to `v`; the matrix must be invertible.
    pub fn apply_inverse(&self, v: u8) -> (r: u8)
        requires
            elim_ok(self.rows(), 0, 8),
        ensures
            r == self.preimage(v),
            self.image(r) == v,
            forall|x: u8| v == #[trigger] self.image(x) ==> r == x,
    {
        let b = self.inverse().unwrap();
        let r = b.apply(v);
        proof {
            lemma_bits_value_bound(b.mat_vec(byte_bits(v)), 8);
            vstd::arithmetic::power2::lemma2_to64();
            assert(r == b.image(v));
            assert forall|x: u8| v == #[trigger] self.image(x) implies r == x by {
                b.lemma_left_inverse_image(*self, x);
            }
            b.lemma_left_inverse_preimage(*self, v);
        }
        r
    }
}

} // verus!
