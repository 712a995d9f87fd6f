//! Polynomial arithmetic over GF(2), the fields GF(2^8) it builds, and the
//! dual ciphers of AES obtained from field isomorphisms and squaring.

use vstd::prelude::*;
use vstd::arithmetic::power2::pow2;

use crate::consts::{gf_mul, gf_mul_pol_slow};
use crate::karroumi::Delta;
use crate::mat::{column_bytes_rows, elim_ok, identity_rows, mat_mul_rows, rows_image, rows_preimage, MatGF2};
use crate::{State, X};

verus! {

/// Coefficient of `x^i` in the polynomial whose coefficients are the bits of `p`.
pub open spec fn coeff(p: u32, i: nat) -> bool {
    i < 32 && (p >> (i as u32)) & 1 == 1
}

/// Carry-less product of the lowest `n` coefficients of `a` with `b`.
pub open spec fn clmul_upto(a: u32, b: u32, n: nat) -> u32
    decreases n,
{
    if n == 0 {
        0
    } else {
        let k = (n - 1) as nat;
        clmul_upto(a, b, k) ^ (if coeff(a, k) {
            b << (k as u32)
        } else {
            0
        })
    }
}

/// Product of two polynomials of degree below 16 in GF(2)[x].
pub open spec fn clmul(a: u16, b: u16) -> u32 {
    clmul_upto(a as u32, b as u32, 16)
}

/// Degree of the lowest `n` coefficients of `p`; `-1` when they are all zero.
pub open spec fn deg_below(p: u32, n: nat) -> int
    decreases n,
{
    if n == 0 {
        -1
    } else if coeff(p, (n - 1) as nat) {
        n - 1
    } else {
        deg_below(p, (n - 1) as nat)
    }
}

/// Degree of a polynomial; `-1` for the zero polynomial.
pub open spec fn pdeg(p: u32) -> int {
    deg_below(p, 32)
}

/// Long division of `a` by `m`, eliminating the coefficients below `x^i`
/// from the highest one down; returns (quotient, remainder).
pub open spec fn divmod_from(a: u32, m: u32, i: nat) -> (u32, u32)
    decreases i,
{
    if i == 0 || (i - 1) < pdeg(m) {
        (0u32, a)
    } else {
        let k = (i - 1) as nat;
        let s = (k - pdeg(m)) as u32;
        if coeff(a, k) {
            let qr = divmod_from(a ^ (m << s), m, k);
            (qr.0 ^ (1u32 << s), qr.1)
        } else {
            divmod_from(a, m, k)
        }
    }
}

/// Quotient and remainder of the division of `a` by `m` in GF(2)[x].
pub open spec fn pdivmod(a: u32, m: u32) -> (u32, u32) {
    divmod_from(a, m, 32)
}

/// Remainder of `a` modulo `m`.
pub open spec fn pmod(a: u32, m: u32) -> u32 {
    pdivmod(a, m).1
}

/// `a * b mod m` in GF(2)[x].
pub open spec fn pmulmod(a: u16, b: u16, m: u16) -> u16 {
    pmod(clmul(a, b), m as u32) as u16
}

/// Zero is neutral for XOR, and shifting by zero changes nothing.
pub proof fn lemma_xor_zero(x: u32)
    ensures
        x ^ 0u32 == x,
        0u32 ^ x == x,
        0u32 ^ 0u32 == 0,
        x >> 0u32 == x,
        (0u32 >> x) & 1 != 1 || x >= 32,
        (1u32 >> 0u32) == 1 && (1u32 >> 0u32) & 1 == 1,
{
    lemma_xor_u32(x, 0, 0, 0, 0);
}

/// XOR on 32-bit polynomials: zero is neutral, every value is its own
/// inverse, the operation commutes and associates, and a coefficient of a
/// sum is the sum of the coefficients.
pub proof fn lemma_xor_u32(x: u32, y: u32, z: u32, w: u32, i: u32)
    by (bit_vector)
    ensures
        x ^ 0u32 == x,
        0u32 ^ x == x,
        0u32 ^ 0u32 == 0,
        x >> 0u32 == x,
        (0u32 >> x) & 1 != 1 || x >= 32,
        (1u32 >> 0u32) == 1 && (1u32 >> 0u32) & 1 == 1,
        x ^ x == 0,
        x ^ y == y ^ x,
        (x ^ y) ^ z == x ^ (y ^ z),
        (x ^ y) ^ (z ^ w) == (x ^ z) ^ (y ^ w),
        i < 32 ==> ((((x ^ y) >> i) & 1 == 1) == (((x >> i) & 1 == 1) != ((y >> i) & 1 == 1))),
        x < 256 && y < 256 ==> x ^ y < 256,
{
}

/// `2^k` for a small positive `k` is at least two.
proof fn lemma_pow_shift(k: usize)
    by (bit_vector)
    requires
        1 <= k <= 8,
    ensures
        (1usize << k) >= 2,
{
}

proof fn lemma_deg_below(p: u32, n: nat)
    requires
        n <= 32,
        n == 32 || p >> (n as u32) == 0,
    ensures
        deg_below(p, n) < n,
        deg_below(p, n) >= -1,
        deg_below(p, n) == -1 <==> p == 0,
        deg_below(p, n) >= 0 ==> p >> (deg_below(p, n) as u32) == 1,
    decreases n,
{
    if n == 0 {
        lemma_xor_zero(p);
    } else {
        let k = (n - 1) as u32;
        if coeff(p, (n - 1) as nat) {
            if n == 32 {
                assert(p >> 31u32 == 1) by (bit_vector)
                    requires
                        (p >> 31u32) & 1 == 1,
                ;
            } else {
                let nn = n as u32;
                assert(p >> k == 1) by (bit_vector)
                    requires
                        (p >> k) & 1 == 1,
                        p >> nn == 0,
                        k + 1 == nn,
                        nn < 32,
                ;
            }
            assert(p != 0) by (bit_vector)
                requires
                    (p >> k) & 1 == 1,
            ;
        } else {
            if n == 32 {
                assert(p >> 31u32 == 0) by (bit_vector)
                    requires
                        (p >> 31u32) & 1 != 1,
                ;
            } else {
                let nn = n as u32;
                assert(p >> k == 0) by (bit_vector)
                    requires
                        (p >> k) & 1 != 1,
                        p >> nn == 0,
                        k + 1 == nn,
                        nn < 32,
                ;
            }
            lemma_deg_below(p, (n - 1) as nat);
        }
    }
}

/// The degree is the position of the highest nonzero coefficient.
pub proof fn lemma_pdeg(p: u32)
    ensures
        -1 <= pdeg(p) < 32,
        pdeg(p) == -1 <==> p == 0,
        pdeg(p) >= 0 ==> p >> (pdeg(p) as u32) == 1,
{
    lemma_deg_below(p, 32);
}

/// A polynomial has exactly one degree.
pub proof fn lemma_pdeg_unique(p: u32, d: u32)
    requires
        d < 32,
        p >> d == 1,
    ensures
        pdeg(p) == d,
{
    lemma_pdeg(p);
    if pdeg(p) == -1 {
        assert(false) by (bit_vector)
            requires
                p == 0,
                p >> d == 1,
        ;
    } else {
        let e = pdeg(p) as u32;
        assert(d == e) by (bit_vector)
            requires
                p >> d == 1,
                p >> e == 1,
                d < 32,
                e < 32,
        ;
    }
}

/// Division ignores positions above the highest nonzero coefficient.
proof fn lemma_divmod_skip(a: u32, m: u32, i: nat, j: nat)
    requires
        j <= i <= 32,
        j < 32,
        a >> (j as u32) == 0,
    ensures
        divmod_from(a, m, i) == divmod_from(a, m, j),
    decreases i,
{
    if i > j {
        let k = (i - 1) as nat;
        let ku = k as u32;
        let ju = j as u32;
        assert((a >> ku) & 1 != 1) by (bit_vector)
            requires
                a >> ju == 0,
                ju <= ku,
                ku < 32,
        ;
        lemma_divmod_skip(a, m, k, j);
    }
}

/// One step of the long division: the highest coefficient of `a` is cancelled.
proof fn lemma_divmod_step(a: u32, m: u32, da: u32, dm: u32)
    requires
        da < 16,
        dm <= da,
        a >> da == 1,
        m >> dm == 1,
        pdeg(m) == dm,
    ensures
        ({
            let s = (da - dm) as u32;
            let a2 = a ^ (m << s);
            &&& a2 >> da == 0
            &&& a2 < a
            &&& pdivmod(a, m) == ((pdivmod(a2, m).0 ^ (1u32 << s)), pdivmod(a2, m).1)
        }),
{
    let s = (da - dm) as u32;
    let a2 = a ^ (m << s);
    assert(a2 >> da == 0 && a2 < a) by (bit_vector)
        requires
            da < 16,
            dm <= da,
            a >> da == 1,
            m >> dm == 1,
            s == da - dm,
            a2 == a ^ (m << s),
    ;
    let d1 = (da + 1) as u32;
    assert(a >> d1 == 0) by (bit_vector)
        requires
            a >> da == 1,
            d1 == da + 1,
            da < 16,
    ;
    lemma_divmod_skip(a, m, 32, (da + 1) as nat);
    assert((a >> da) & 1 == 1) by (bit_vector)
        requires
            a >> da == 1,
    ;
    assert(divmod_from(a, m, (da + 1) as nat) == ((divmod_from(a2, m, da as nat).0 ^ (1u32 << s)),
        divmod_from(a2, m, da as nat).1));
    lemma_divmod_skip(a2, m, 32, da as nat);
}

/// Once the remainder is below the degree of the divisor, division stops.
proof fn lemma_divmod_done(a: u32, m: u32, dm: u32)
    requires
        dm < 32,
        pdeg(m) == dm,
        a >> dm == 0,
    ensures
        pdivmod(a, m) == (0u32, a),
{
    lemma_divmod_skip(a, m, 32, dm as nat);
}

proof fn lemma_clmul_zero(b: u32, n: nat)
    ensures
        clmul_upto(0, b, n) == 0,
    decreases n,
{
    if n > 0 {
        let k = (n - 1) as nat;
        lemma_clmul_zero(b, k);
        let ku = k as u32;
        lemma_xor_zero(ku);
    }
}

/// Flipping one coefficient of the first factor adds a shifted copy of the second.
proof fn lemma_clmul_toggle(x: u32, b: u32, s: u32, n: nat)
    requires
        s < 32,
        n <= 32,
    ensures
        clmul_upto(x ^ (1u32 << s), b, n) == clmul_upto(x, b, n) ^ (if (s as nat) < n {
            b << s
        } else {
            0
        }),
    decreases n,
{
    if n == 0 {
        lemma_xor_zero(0);
    } else {
        let k = (n - 1) as nat;
        lemma_clmul_toggle(x, b, s, k);
        let ku = k as u32;
        let xt = x ^ (1u32 << s);
        assert(((xt >> ku) & 1 == 1) == (((x >> ku) & 1 == 1) != (ku == s))) by (bit_vector)
            requires
                xt == x ^ (1u32 << s),
                ku < 32,
                s < 32,
        ;
        let l = clmul_upto(xt, b, k);
        let r = clmul_upto(x, b, k);
        let t = if coeff(x, k) {
            b << ku
        } else {
            0
        };
        let t2 = if coeff(xt, k) {
            b << ku
        } else {
            0
        };
        let bs = b << s;
        if ku == s {
            assert(l == r ^ 0u32);
            lemma_xor_zero(r);
            assert(t2 == t ^ bs) by (bit_vector)
                requires
                    (t == 0 && t2 == bs) || (t == bs && t2 == 0),
            ;
            assert(l ^ t2 == (r ^ t) ^ bs) by (bit_vector)
                requires
                    l == r,
                    t2 == t ^ bs,
            ;
        } else {
            let e = if (s as nat) < k {
                bs
            } else {
                0
            };
            assert(t2 == t);
            assert(l ^ t2 == (r ^ t) ^ e) by (bit_vector)
                requires
                    l == r ^ e,
                    t2 == t,
            ;
        }
    }
}

/// The product of polynomials of degree below `p` and below `q` has degree
/// below `p + q`.
pub proof fn lemma_clmul_bound(a: u32, b: u32, n: nat, p: u32, q: u32)
    requires
        p + q <= 31,
        a < (1u32 << p),
        b < (1u32 << q),
        n <= 32,
    ensures
        clmul_upto(a, b, n) < (1u32 << (p + q) as u32),
    decreases n,
{
    let pq = (p + q) as u32;
    if n == 0 {
        assert(0u32 < (1u32 << pq)) by (bit_vector)
            requires
                pq <= 31,
        ;
    } else {
        let k = (n - 1) as nat;
        lemma_clmul_bound(a, b, k, p, q);
        let ku = k as u32;
        let prev = clmul_upto(a, b, k);
        let t = if coeff(a, k) {
            b << ku
        } else {
            0
        };
        let c = coeff(a, k);
        assert(prev ^ t < (1u32 << pq)) by (bit_vector)
            requires
                c ==> (a >> ku) & 1 == 1 && t == b << ku,
                !c ==> t == 0,
                a < (1u32 << p),
                b < (1u32 << q),
                p <= 31,
                ku < 32,
                pq == p + q,
                pq <= 31,
                prev < (1u32 << pq),
        ;
    }
}

/// Products of polynomials of degree below 8 have degree below 16.
pub proof fn lemma_clmul_bytes(a: u16, b: u16)
    requires
        a < 256,
        b < 256,
    ensures
        clmul(a, b) < 0x10000,
{
    assert((a as u32) < (1u32 << 8u32) && (b as u32) < (1u32 << 8u32) && (1u32 << 16u32) == 0x10000) by (bit_vector)
        requires
            a < 256,
            b < 256,
    ;
    lemma_clmul_bound(a as u32, b as u32, 16, 8, 8);
}

/// Long division is correct: `a == q * m + r` with `deg r < deg m`.
pub proof fn lemma_divmod_correct(a: u32, m: u32)
    requires
        a < 0x10000,
        m < 0x10000,
        m != 0,
    ensures
        ({
            let (q, r) = pdivmod(a, m);
            &&& q < 0x10000
            &&& r < 0x10000
            &&& r >> (pdeg(m) as u32) == 0
            &&& clmul_upto(q, m, 16) ^ r == a
        }),
    decreases a,
{
    lemma_pdeg(m);
    lemma_pdeg(a);
    let dm = pdeg(m) as u32;
    if a >> dm == 0 {
        lemma_divmod_done(a, m, dm);
        lemma_clmul_zero(m, 16);
        lemma_xor_zero(a);
    } else {
        assert(a != 0) by (bit_vector)
            requires
                a >> dm != 0,
        ;
        let da = pdeg(a) as u32;
        assert(dm <= da && da < 16) by (bit_vector)
            requires
                a >> da == 1,
                a >> dm != 0,
                a < 0x10000,
                da < 32,
                dm < 32,
        ;
        lemma_divmod_step(a, m, da, dm);
        let s = (da - dm) as u32;
        let a2 = a ^ (m << s);
        lemma_divmod_correct(a2, m);
        let (q2, r2) = pdivmod(a2, m);
        let q = q2 ^ (1u32 << s);
        assert(q < 0x10000) by (bit_vector)
            requires
                q2 < 0x10000,
                q == q2 ^ (1u32 << s),
                s < 16,
        ;
        lemma_clmul_toggle(q2, m, s, 16);
        let c2 = clmul_upto(q2, m, 16);
        let ms = m << s;
        assert((c2 ^ ms) ^ r2 == a) by (bit_vector)
            requires
                c2 ^ r2 == a2,
                a2 == a ^ ms,
        ;
    }
}

/// A remainder is strictly smaller than a nonzero divisor.
pub proof fn lemma_pmod_lt(a: u32, m: u32)
    requires
        a < 0x10000,
        m < 0x10000,
        m != 0,
    ensures
        pmod(a, m) < m,
        pmod(a, m) >> (pdeg(m) as u32) == 0,
{
    lemma_divmod_correct(a, m);
    lemma_pdeg(m);
    let r = pmod(a, m);
    let dm = pdeg(m) as u32;
    assert(r < m) by (bit_vector)
        requires
            r >> dm == 0,
            m >> dm == 1,
            dm < 32,
    ;
}

/// A polynomial of degree below `dm` has no coefficient at or above `x^dm`.
proof fn lemma_divmod_below(r: u32, dm: u32)
    requires
        dm < 16,
        r == 0 || (0 <= pdeg(r) < dm),
    ensures
        r >> dm == 0,
{
    lemma_pdeg(r);
    if r == 0 {
        assert(0u32 >> dm == 0) by (bit_vector);
    } else {
        let du = pdeg(r) as u32;
        assert(r >> dm == 0) by (bit_vector)
            requires
                r >> du == 1,
                du < dm,
                dm < 16,
        ;
    }
}

/// Reducing modulo a polynomial of degree at most 8 gives a byte.
pub proof fn lemma_mod_byte(a: u32, m: u16)
    requires
        a < 0x10000,
        m != 0,
        m < 512,
    ensures
        pmod(a, m as u32) < 256,
{
    lemma_pmod_lt(a, m as u32);
    lemma_pdeg(m as u32);
    let r = pmod(a, m as u32);
    let mu = m as u32;
    let dm = pdeg(mu) as u32;
    assert(r < 256) by (bit_vector)
        requires
            r >> dm == 0,
            mu >> dm == 1,
            mu < 512,
            dm < 32,
    ;
}

/// One iteration of the division loop: cancel the highest coefficient of `r`.
proof fn lemma_divmod_update(a: u32, m: u32, d: u16, q: u16, r: u16, su: u16, dr: u32, dm: u32)
    requires
        su as u32 + dm == dr,
        m == d as u32,
        pdeg(m) == dm,
        m >> dm == 1,
        dm <= dr,
        dr < 16,
        (r as u32) >> dr == 1,
        pdivmod(a, m) == ((q as u32) ^ pdivmod(r as u32, m).0, pdivmod(r as u32, m).1),
    ensures
        ({
            let q2 = q ^ (1u16 << su);
            let r2 = r ^ (d << su);
            &&& r2 < r
            &&& pdivmod(a, m) == ((q2 as u32) ^ pdivmod(r2 as u32, m).0, pdivmod(r2 as u32, m).1)
        }),
{
    let ru = r as u32;
    lemma_divmod_step(ru, m, dr, dm);
    let s32 = su as u32;
    let r2 = r ^ (d << su);
    let q2 = q ^ (1u16 << su);
    assert((r2 as u32) == ru ^ (m << s32)) by (bit_vector)
        requires
            m == d as u32,
            m >> dm == 1,
            s32 + dm == dr,
            s32 == su as u32,
            dr < 16,
            ru == r as u32,
            r2 == r ^ (d << su),
    ;
    assert((q2 as u32) == (q as u32) ^ (1u32 << s32)) by (bit_vector)
        requires
            su < 16,
            s32 == su as u32,
            q2 == q ^ (1u16 << su),
    ;
    let x = q as u32;
    let y = pdivmod(r2 as u32, m).0;
    assert(x ^ (y ^ (1u32 << s32)) == (x ^ (1u32 << s32)) ^ y) by (bit_vector);
}

/// `pmod` as a polynomial of degree below 16.
pub open spec fn pmod16(a: u16, m: u16) -> u16 {
    pmod(a as u32, m as u32) as u16
}

/// Greatest common divisor by Euclid's algorithm.
pub open spec fn pgcd(a: u16, b: u16) -> u16
    decreases b,
{
    if b == 0 {
        a
    } else {
        proof {
            lemma_pmod_lt(a as u32, b as u32);
        }
        pgcd(b, pmod16(a, b))
    }
}

/// Binary exponentiation state: `result * power^e`, squaring `power` as the
/// bits of `e` are consumed from the lowest.
pub open spec fn powmod_from(result: u16, power: u16, e: nat, m: u16) -> u16
    decreases e,
{
    if e == 0 {
        result
    } else {
        let result2 = if e % 2 == 1 {
            pmulmod(result, power, m)
        } else {
            result
        };
        powmod_from(result2, pmulmod(power, power, m), e / 2, m)
    }
}

/// `x^(2^k) mod p`
pub open spec fn frobenius_x(p: u16, k: nat) -> u16 {
    powmod_from(1, 2, (1usize << (k as usize)) as nat, p)
}

/// Rabin's coprimality condition for the divisor `k` of the degree `n`:
/// `gcd(x^(2^k) - x, p) == 1` whenever `0 < k < n`.
pub open spec fn rabin_coprime(p: u16, k: nat, n: nat) -> bool {
    !(k < n && k > 0) || pgcd(frobenius_x(p, k) ^ 2, p) == 1
}

/// Rabin's irreducibility test for a polynomial `p` of degree `n >= 1`:
/// `x^(2^n) == x (mod p)`, and the coprimality condition for every divisor of `n`.
pub open spec fn rabin_irreducible(p: u16) -> bool {
    let n = pdeg(p as u32);
    &&& n >= 1
    &&& pmod16(frobenius_x(p, n as nat) ^ 2, p) == 0
    &&& forall|d: nat|
        1 <= d && d * d <= n && n % (d as int) == 0 ==> #[trigger] rabin_coprime(p, d, n as nat)
            && rabin_coprime(p, (n / (d as int)) as nat, n as nat)
}

/// Quotient of the division of `a` by `m`, as a polynomial of degree below 16.
pub open spec fn pdiv16(a: u16, m: u16) -> u16 {
    pdivmod(a as u32, m as u32).0 as u16
}

/// The extended Euclidean algorithm run from the state `(r0, r1, s0, s1)`,
/// returning the final `(r0, s0)`: with `r0 = a, r1 = m, s0 = 1, s1 = 0`,
/// `r0` ends as the gcd and `s0` as its coefficient for `a`.
pub open spec fn ext_euclid(r0: u16, r1: u16, s0: u16, s1: u16) -> (u16, u16)
    decreases r1,
{
    if r1 == 0 {
        (r0, s0)
    } else {
        proof {
            lemma_pmod_lt(r0 as u32, r1 as u32);
        }
        let s2 = s0 ^ (clmul(pdiv16(r0, r1), s1) as u16);
        ext_euclid(r1, pmod16(r0, r1), s1, s2)
    }
}

/// Every product the extended Euclidean algorithm forms from the state
/// `(r0, r1, s0, s1)` has degree below 16.
pub open spec fn ext_euclid_fits(r0: u16, r1: u16, s0: u16, s1: u16) -> bool
    decreases r1,
{
    if r1 == 0 {
        true
    } else {
        proof {
            lemma_pmod_lt(r0 as u32, r1 as u32);
        }
        let s2 = s0 ^ (clmul(pdiv16(r0, r1), s1) as u16);
        clmul(pdiv16(r0, r1), s1) < 0x10000 && ext_euclid_fits(r1, pmod16(r0, r1), s1, s2)
    }
}

/// `a` has an inverse modulo `m` that the extended Euclidean algorithm finds.
pub open spec fn has_inverse(a: u16, m: u16) -> bool {
    &&& m != 0
    &&& ext_euclid_fits(a, m, 1, 0)
    &&& ext_euclid(a, m, 1, 0).0 == 1
}

/// The inverse of `a` modulo `m` found by the extended Euclidean algorithm.
pub open spec fn pinv(a: u16, m: u16) -> u16 {
    pmod16(ext_euclid(a, m, 1, 0).1, m)
}

/// A polynomial over GF(2) of degree below 16; bit `i` is the coefficient of `x^i`.
#[derive(Clone, Copy, PartialEq, Eq, Structural, Debug)]
pub struct Poly(pub u16);

impl Poly {
    pub open spec fn val(self) -> u32 {
        self.0 as u32
    }

    pub fn has_pow(&self, pow: usize) -> (r: bool)
        requires
            pow < 16,
        ensures
            r == coeff(self.val(), pow as nat),
    {
        let p = self.0;
        let pw = pow as u16;
        assert(((p >> pw) & 1 == 1) == (((p as u32) >> (pw as u32)) & 1 == 1)) by (bit_vector)
            requires
                pw < 16,
        ;
        (p >> pw) & 1 == 1
    }

    pub fn toggle_pow(&mut self, pow: usize)
        requires
            pow < 16,
        ensures
            final(self).0 == old(self).0 ^ (1u16 << (pow as u16)),
    {
        self.0 = self.0 ^ (1u16 << (pow as u16));
    }

    pub fn set_pow(&mut self, pow: usize)
        requires
            pow < 16,
        ensures
            final(self).0 == old(self).0 | (1u16 << (pow as u16)),
    {
        self.0 = self.0 | (1u16 << (pow as u16));
    }

    /// Degree of the polynomial, `None` for zero.
    pub fn deg(&self) -> (r: Option<usize>)
        ensures
            r == (if pdeg(self.val()) < 0 {
                None::<usize>
            } else {
                Some(pdeg(self.val()) as usize)
            }),
            r is Some ==> r->0 < 16,
    {
        let p = self.0;
        let mut i: usize = 16;
        proof {
            lemma_pdeg(p as u32);
        }
        assert((p as u32) >> 16u32 == 0) by (bit_vector);
        while i > 0
            invariant
                i <= 16,
                p == self.0,
                (p as u32) >> (i as u32) == 0,
            decreases i,
        {
            i -= 1;
            if self.has_pow(i) {
                let iu = i as u32;
                let pu = p as u32;
                assert(pu >> iu == 1) by (bit_vector)
                    requires
                        (pu >> iu) & 1 == 1,
                        pu >> ((iu + 1) as u32) == 0,
                        iu < 16,
                ;
                proof {
                    lemma_pdeg_unique(pu, iu);
                }
                return Some(i);
            }
            let iu = i as u32;
            let pu = p as u32;
            assert(pu >> iu == 0) by (bit_vector)
                requires
                    (pu >> iu) & 1 != 1,
                    pu >> ((iu + 1) as u32) == 0,
                    iu < 16,
            ;
        }
        proof {
            lemma_xor_zero(p as u32);
        }
        None
    }

    pub fn add(&self, rhs: Self) -> (r: Self)
        ensures
            r.0 == self.0 ^ rhs.0,
    {
        Poly(self.0 ^ rhs.0)
    }

    /// Product in GF(2)[x]; the product must have degree below 16.
    pub fn mul(&self, rhs: Self) -> (r: Self)
        requires
            clmul(self.0, rhs.0) < 0x10000,
        ensures
            r.val() == clmul(self.0, rhs.0),
    {
        Poly(self.mul_wide(rhs) as u16)
    }

    /// Product in GF(2)[x] with all 31 coefficients.
    fn mul_wide(&self, rhs: Self) -> (r: u32)
        ensures
            r == clmul(self.0, rhs.0),
    {
        let mut acc: u32 = 0;
        let mut i: usize = 0;
        while i < 16
            invariant
                i <= 16,
                acc == clmul_upto(self.val(), rhs.val(), i as nat),
            decreases 16 - i,
        {
            let ghost prev = acc;
            if self.has_pow(i) {
                acc = acc ^ ((rhs.0 as u32) << (i as u32));
            } else {
                proof {
                    lemma_xor_zero(prev);
                }
            }
            i += 1;
        }
        acc
    }

    /// Quotient and remainder of the division by `b`.
    pub fn divmod(self, b: Poly) -> (r: (Poly, Poly))
        requires
            b.0 != 0,
        ensures
            (r.0.val(), r.1.val()) == pdivmod(self.val(), b.val()),
            r.1.val() >> (pdeg(b.val()) as u32) == 0,
    {
        let ghost a = self.val();
        let ghost m = b.val();
        let d = b.0;
        proof {
            lemma_pdeg(m);
        }
        let deg_d = match b.deg() {
            Some(v) => v,
            None => {
                proof {
                    assert(false);
                }
                0
            },
        };
        let ghost dm = deg_d as u32;
        let mut q: u16 = 0;
        let mut r: u16 = self.0;
        proof {
            let x = pdivmod(a, m).0;
            lemma_xor_zero(x);
        }
        let mut deg_r: usize = 0;
        let mut active: bool = false;
        match Poly(r).deg() {
            Some(v) => {
                deg_r = v;
                active = v >= deg_d;
            },
            None => {},
        }
        proof {
            lemma_pdeg(r as u32);
            if !active {
                lemma_divmod_below(r as u32, dm);
            }
        }
        while active
            invariant
                deg_d < 16,
                dm == deg_d,
                pdeg(m) == dm,
                m >> dm == 1,
                m == d as u32,
                pdivmod(a, m) == ((q as u32) ^ pdivmod(r as u32, m).0, pdivmod(r as u32, m).1),
                active ==> deg_r >= deg_d && deg_r < 16 && pdeg(r as u32) == deg_r,
                !active ==> (r as u32) >> dm == 0,
            decreases r,
        {
            let su = (deg_r - deg_d) as u16;
            proof {
                lemma_pdeg(r as u32);
                lemma_divmod_update(a, m, d, q, r, su, deg_r as u32, dm);
            }
            q = q ^ (1u16 << su);
            r = r ^ (d << su);
            active = false;
            match Poly(r).deg() {
                Some(v) => {
                    deg_r = v;
                    active = v >= deg_d;
                },
                None => {},
            }
            proof {
                lemma_pdeg(r as u32);
                if !active {
                    lemma_divmod_below(r as u32, dm);
                }
            }
        }
        proof {
            lemma_divmod_done(r as u32, m, dm);
            let qq = q as u32;
            lemma_xor_zero(qq);
        }
        (Poly(q), Poly(r))
    }

    /// Remainder of the division by `modulus`.
    pub fn modulus(self, modulus: Poly) -> (r: Poly)
        requires
            modulus.0 != 0,
        ensures
            r.val() == pmod(self.val(), modulus.val()),
            r.0 == pmod16(self.0, modulus.0),
    {
        let (_, rem) = self.divmod(modulus);
        rem
    }

    /// `self * b mod modulus`.
    pub fn mulmod(&self, b: Poly, modulus: Poly) -> (r: Poly)
        requires
            clmul(self.0, b.0) < 0x10000,
            modulus.0 != 0,
        ensures
            r.0 == pmulmod(self.0, b.0, modulus.0),
    {
        self.mul(b).modulus(modulus)
    }

    /// `self^exp mod modulus` by binary exponentiation.
    pub fn powmod(self, exp: usize, modulus: Poly) -> (r: Poly)
        requires
            exp == 0 || (modulus.0 != 0 && self.0 < 256 && (exp == 1 || modulus.0 < 512)),
        ensures
            r.0 == powmod_from(1, self.0, exp as nat, modulus.0),
    {
        let mut result = Poly(1);
        let mut power = self;
        let mut e = exp;
        while e > 0
            invariant
                e <= exp,
                exp >= 2 ==> modulus.0 < 512,
                e > 0 ==> modulus.0 != 0 && power.0 < 256 && result.0 < 256,
                powmod_from(result.0, power.0, e as nat, modulus.0) == powmod_from(
                    1,
                    self.0,
                    exp as nat,
                    modulus.0,
                ),
            decreases e,
        {
            proof {
                lemma_clmul_bytes(result.0, power.0);
                lemma_clmul_bytes(power.0, power.0);
            }
            let ghost e0 = e;
            let ghost p0 = power.0;
            let ghost r0 = result.0;
            assert((e & 1 == 1) == (e % 2 == 1) && e >> 1 == e / 2) by (bit_vector);
            if e & 1 == 1 {
                result = result.mulmod(power, modulus);
            }
            power = power.mulmod(power, modulus);
            e = e >> 1;
            proof {
                if e > 0 {
                    lemma_mod_byte(clmul(p0, p0), modulus.0);
                    if e0 % 2 == 1 {
                        lemma_mod_byte(clmul(r0, p0), modulus.0);
                    }
                }
            }
        }
        result
    }

    /// Greatest common divisor by Euclid's algorithm.
    pub fn gcd(self, b: Poly) -> (r: Poly)
        ensures
            r.0 == pgcd(self.0, b.0),
    {
        let ghost b0 = b;
        let mut a = self;
        let mut b = b;
        while b.deg().is_some()
            invariant
                pgcd(a.0, b.0) == pgcd(self.0, b0.0),
            decreases b.0,
        {
            proof {
                lemma_pdeg(b.val());
                lemma_pmod_lt(a.val(), b.val());
            }
            let (_, r) = a.divmod(b);
            a = b;
            b = r;
        }
        proof {
            lemma_pdeg(b.val());
        }
        a
    }


    /// Rabin's coprimality condition for the divisor `k` of the degree `n`.
    fn rabin_block(self, k: usize, n: usize) -> (r: bool)
        requires
            self.0 < 512,
            self.0 != 0,
            n <= 8,
            k <= 8,
        ensures
            r == rabin_coprime(self.0, k as nat, n as nat),
    {
        if k < n && k > 0 {
            let x = Poly(2);
            let xp_k = x.powmod(1usize << k, self);
            proof {
                lemma_pow_shift(k);
            }
            let g = xp_k.add(x).gcd(self);
            g.0 == 1
        } else {
            true
        }
    }

    /// Rabin's irreducibility test; the polynomial must have degree at most 8.
    pub fn is_irreducible(self) -> (r: bool)
        requires
            self.0 < 512,
        ensures
            r == rabin_irreducible(self.0),
    {
        let poly = self;
        proof {
            lemma_pdeg(self.val());
        }
        let n = match poly.deg() {
            Some(n) => n,
            None => {
                return false;
            },
        };
        if n < 1 {
            return false;
        }
        let pu = self.0 as u32;
        assert(n <= 8) by (bit_vector)
            requires
                pu >> (n as u32) == 1,
                pu < 512,
                n < 16,
        ;
        let x = Poly(2);
        proof {
            lemma_pow_shift(n);
        }
        let xp = x.powmod(1usize << n, poly);
        let diff = xp.add(x);
        let diff_mod = diff.modulus(poly);
        if diff_mod.0 != 0 {
            return false;
        }
        let mut d: usize = 1;
        let mut dd: usize = 1;
        while dd <= n
            invariant
                dd == d * d,
                1 <= d <= 3,
                1 <= n <= 8,
                n == pdeg(self.val()),
                self.0 < 512,
                self.0 != 0,
                forall|d2: nat|
                    1 <= d2 < d && d2 * d2 <= n as int && (n as int) % (d2 as int) == 0 ==> #[trigger] rabin_coprime(
                        self.0,
                        d2,
                        n as nat,
                    ) && rabin_coprime(self.0, ((n as int) / (d2 as int)) as nat, n as nat),
            decreases 9 - d,
        {
            assert(d < 3) by (nonlinear_arith)
                requires
                    dd == d * d,
                    dd <= n,
                    n <= 8,
                    1 <= d <= 3,
            ;
            if n % d == 0 {
                if !self.rabin_block(d, n) {
                    return false;
                }
                if !self.rabin_block(n / d, n) {
                    return false;
                }
            }
            assert((d + 1) * (d + 1) == d * d + 2 * d + 1) by (nonlinear_arith);
            dd = dd + 2 * d + 1;
            d += 1;
        }
        proof {
            assert forall|d2: nat|
                1 <= d2 && d2 * d2 <= n as int && (n as int) % (d2 as int) == 0 implies #[trigger] rabin_coprime(
                self.0,
                d2,
                n as nat,
            ) && rabin_coprime(self.0, ((n as int) / (d2 as int)) as nat, n as nat) by {
                if d2 >= d {
                    assert(d2 * d2 >= d * d) by (nonlinear_arith)
                        requires
                            d2 >= d,
                            d >= 1,
                    ;
                    assert(false);
                }
            }
        }
        true
    }


    /// Inverse modulo `modulus` by the extended Euclidean algorithm.
    pub fn inv(self, modulus: Poly) -> (r: Poly)
        requires
            has_inverse(self.0, modulus.0),
        ensures
            r.0 == pinv(self.0, modulus.0),
    {
        let mut r0 = self;
        let mut r1 = modulus;
        let mut s0: Poly = Poly(1);
        let mut s1: Poly = Poly(0);
        while r1.deg().is_some()
            invariant
                ext_euclid_fits(r0.0, r1.0, s0.0, s1.0),
                ext_euclid(r0.0, r1.0, s0.0, s1.0) == ext_euclid(self.0, modulus.0, 1, 0),
            decreases r1.0,
        {
            proof {
                lemma_pdeg(r1.val());
                lemma_pmod_lt(r0.val(), r1.val());
                lemma_divmod_correct(r0.val(), r1.val());
            }
            let (q, r2) = r0.divmod(r1);
            let s2 = s0.add(q.mul(s1));
            r0 = r1;
            r1 = r2;
            s0 = s1;
            s1 = s2;
        }
        proof {
            lemma_pdeg(r1.val());
            lemma_pdeg(r0.val());
        }
        let d0 = r0.deg();
        if d0.is_none() || d0.unwrap() != 0 || !r0.has_pow(0) {
            proof {
                assert(r0.0 == 1);
                lemma_xor_zero(0);
                lemma_pdeg_unique(1u32, 0u32);
                assert(false);
            }
        }
        s0.modulus(modulus)
    }


    /// Whether the extended Euclidean algorithm finds an inverse of `self`
    /// modulo `modulus` (the condition under which `inv` succeeds).
    pub fn has_inverse(self, modulus: Poly) -> (r: bool)
        ensures
            r == has_inverse(self.0, modulus.0),
    {
        if modulus.0 == 0 {
            return false;
        }
        let mut r0 = self;
        let mut r1 = modulus;
        let mut s0: Poly = Poly(1);
        let mut s1: Poly = Poly(0);
        while r1.deg().is_some()
            invariant
                ext_euclid_fits(r0.0, r1.0, s0.0, s1.0) == ext_euclid_fits(self.0, modulus.0, 1, 0),
                ext_euclid(r0.0, r1.0, s0.0, s1.0) == ext_euclid(self.0, modulus.0, 1, 0),
                modulus.0 != 0,
            decreases r1.0,
        {
            proof {
                lemma_pdeg(r1.val());
                lemma_pmod_lt(r0.val(), r1.val());
                lemma_divmod_correct(r0.val(), r1.val());
            }
            let (q, r2) = r0.divmod(r1);
            let wide = q.mul_wide(s1);
            if wide >= 0x10000 {
                return false;
            }
            let s2 = s0.add(Poly(wide as u16));
            r0 = r1;
            r1 = r2;
            s0 = s1;
            s1 = s2;
        }
        proof {
            lemma_pdeg(r1.val());
        }
        r0.0 == 1
    }

}


/// Products in a field of degree at most 8 are bytes.
pub proof fn lemma_gf_mul_byte(a: u8, b: u8, m: u16)
    requires
        m != 0,
        m < 512,
    ensures
        pmulmod(a as u16, b as u16, m) < 256,
        clmul(a as u16, b as u16) < 0x10000,
{
    lemma_clmul_bytes(a as u16, b as u16);
    lemma_mod_byte(clmul(a as u16, b as u16), m);
}

/// A coefficient of a sum is the sum of the coefficients.
proof fn lemma_coeff_xor(a: u32, b: u32, k: nat)
    ensures
        coeff(a ^ b, k) == (coeff(a, k) != coeff(b, k)),
{
    if k < 32 {
        lemma_xor_u32(a, b, 0, 0, k as u32);
    }
}

/// The remainder of a division is additive in the dividend.
pub proof fn lemma_divmod_rem_xor(a: u32, b: u32, m: u32, i: nat)
    ensures
        divmod_from(a ^ b, m, i).1 == divmod_from(a, m, i).1 ^ divmod_from(b, m, i).1,
    decreases i,
{
    if i == 0 || (i - 1) < pdeg(m) {
    } else {
        let k = (i - 1) as nat;
        let s = (k - pdeg(m)) as u32;
        let mm = m << s;
        lemma_coeff_xor(a, b, k);
        if coeff(a, k) && coeff(b, k) {
            lemma_divmod_rem_xor(a ^ mm, b ^ mm, m, k);
            lemma_xor_u32(a, mm, b, mm, 0);
            lemma_xor_u32(a, b, mm, mm, 0);
            lemma_xor_u32(mm, 0, 0, 0, 0);
            lemma_xor_u32(a ^ b, 0, 0, 0, 0);
            assert((a ^ mm) ^ (b ^ mm) == a ^ b);
        } else if coeff(a, k) {
            lemma_divmod_rem_xor(a ^ mm, b, m, k);
            lemma_xor_u32(a, b, mm, 0, 0);
            lemma_xor_u32(b, mm, 0, 0, 0);
            lemma_xor_u32(a, mm, b, 0, 0);
            assert((a ^ b) ^ mm == (a ^ mm) ^ b);
        } else if coeff(b, k) {
            lemma_divmod_rem_xor(a, b ^ mm, m, k);
            lemma_xor_u32(a, b, mm, 0, 0);
        } else {
            lemma_divmod_rem_xor(a, b, m, k);
        }
    }
}

/// The carry-less product is additive in its first factor.
pub proof fn lemma_clmul_xor(a: u32, b: u32, c: u32, n: nat)
    ensures
        clmul_upto(a ^ b, c, n) == clmul_upto(a, c, n) ^ clmul_upto(b, c, n),
    decreases n,
{
    if n > 0 {
        let k = (n - 1) as nat;
        lemma_clmul_xor(a, b, c, k);
        lemma_coeff_xor(a, b, k);
        let t = c << (k as u32);
        let x = clmul_upto(a, c, k);
        let y = clmul_upto(b, c, k);
        let ta: u32 = if coeff(a, k) { t } else { 0 };
        let tb: u32 = if coeff(b, k) { t } else { 0 };
        let tab: u32 = if coeff(a ^ b, k) { t } else { 0 };
        lemma_xor_u32(t, 0, 0, 0, 0);
        assert(tab == ta ^ tb);
        lemma_xor_u32(x, y, ta, tb, 0);
        assert(clmul_upto(a ^ b, c, n) == clmul_upto(a ^ b, c, k) ^ tab);
        assert(clmul_upto(a, c, n) == x ^ ta);
        assert(clmul_upto(b, c, n) == y ^ tb);
    } else {
        lemma_xor_u32(0, 0, 0, 0, 0);
    }
}

/// Multiplication in GF(2)[x] / `m` distributes over XOR.
pub proof fn lemma_gf_mul_xor(a: u8, b: u8, c: u8, m: u16)
    requires
        m != 0,
        m < 512,
    ensures
        gf_mul(a ^ b, c, m) == gf_mul(a, c, m) ^ gf_mul(b, c, m),
{
    let a32 = a as u16 as u32;
    let b32 = b as u16 as u32;
    let c32 = c as u16 as u32;
    assert(((a ^ b) as u16) as u32 == a32 ^ b32);
    lemma_clmul_xor(a32, b32, c32, 16);
    let pa = clmul(a as u16, c as u16);
    let pb = clmul(b as u16, c as u16);
    assert(clmul((a ^ b) as u16, c as u16) == pa ^ pb);
    lemma_divmod_rem_xor(pa, pb, m as u32, 32);
    lemma_gf_mul_byte(a, c, m);
    lemma_gf_mul_byte(b, c, m);
    lemma_mod_byte(pa, m);
    lemma_mod_byte(pb, m);
    let ra = pmod(pa, m as u32);
    let rb = pmod(pb, m as u32);
    assert(ra < 256 && rb < 256);
    lemma_xor_u32(ra, rb, 0, 0, 0);
    assert(pmod(pa ^ pb, m as u32) == ra ^ rb);
    assert((ra ^ rb) as u16 as u8 == (ra as u16 as u8) ^ (rb as u16 as u8));
}

/// `a^i` in the field GF(2)[x] / `m`.
pub open spec fn gf_pow(a: u8, i: nat, m: u16) -> u8
    decreases i,
{
    if i == 0 {
        1
    } else {
        gf_mul(gf_pow(a, (i - 1) as nat, m), a, m)
    }
}

/// The polynomial `p`, restricted to its coefficients below `x^n`, evaluated
/// at `a` in the field GF(2)[x] / `m`.
pub open spec fn poly_eval(p: u16, a: u8, m: u16, n: nat) -> u8
    decreases n,
{
    if n == 0 {
        0
    } else {
        poly_eval(p, a, m, (n - 1) as nat) ^ (if coeff(p as u32, (n - 1) as nat) {
            gf_pow(a, (n - 1) as nat, m)
        } else {
            0
        })
    }
}

/// `a` is a nonzero root of the polynomial `p` (of degree at most 8) in GF(2)[x] / `m`.
pub open spec fn is_root(p: u16, m: u16, a: int) -> bool {
    1 <= a <= 255 && poly_eval(p, a as u8, m, 9) == 0
}

/// `a` is the smallest nonzero root of `p` in GF(2)[x] / `m`.
pub open spec fn is_first_root(p: u16, m: u16, a: int) -> bool {
    is_root(p, m, a) && forall|b: int| 1 <= b < a ==> !#[trigger] is_root(p, m, b)
}

/// The polynomial `p` has a nonzero root in GF(2)[x] / `m`.
pub open spec fn has_root(p: u16, m: u16) -> bool {
    exists|a: int| #[trigger] is_root(p, m, a)
}

/// The smallest nonzero root of `p` in GF(2)[x] / `m`.
pub open spec fn first_root(p: u16, m: u16) -> u8 {
    (choose|a: int| is_first_root(p, m, a)) as u8
}

proof fn lemma_first_root_unique(p: u16, m: u16, a: int)
    requires
        is_first_root(p, m, a),
    ensures
        first_root(p, m) == a,
{
    let c = choose|a: int| is_first_root(p, m, a);
    assert(is_first_root(p, m, c));
    if c < a {
        assert(!is_root(p, m, c));
    } else if a < c {
        assert(!is_root(p, m, a));
    }
}

/// Column `i` of the squaring map in GF(2)[x] / `m`: the square of `x^i`.
pub open spec fn squaring_cols(m: u16) -> Seq<u8> {
    Seq::new(8, |i: int| gf_mul(1u8 << (i as u8), 1u8 << (i as u8), m))
}

/// The matrix of the field isomorphism from GF(2)[x] / `s` to GF(2)[x] / `t`
/// sending `x` to the first root of `s` in the target field.
pub open spec fn iso_rows(s: u16, t: u16) -> Seq<Seq<bool>> {
    if s == t {
        identity_rows(8)
    } else {
        column_bytes_rows(Seq::new(8, |i: int| gf_pow(first_root(s, t), i as nat, t)))
    }
}

/// The `k`-th power of an 8 x 8 matrix, multiplied from the right.
pub open spec fn matrix_power(m: Seq<Seq<bool>>, k: nat) -> Seq<Seq<bool>>
    decreases k,
{
    if k == 0 {
        identity_rows(8)
    } else if k == 1 {
        m
    } else {
        mat_mul_rows(matrix_power(m, (k - 1) as nat), m, 8)
    }
}

/// The standard AES field polynomial `x^8 + x^4 + x^3 + x + 1`.
pub open spec fn aes_poly() -> u16 {
    0x11b
}

/// The matrix taking a byte of the standard field to the dual cipher's
/// representation: the field isomorphism followed by `square_power` squarings.
pub open spec fn dual_q_rows(d: Dual) -> Seq<Seq<bool>> {
    mat_mul_rows(
        matrix_power(column_bytes_rows(squaring_cols(d.poly.0)), d.square_power as nat),
        iso_rows(aes_poly(), d.poly.0),
        8,
    )
}

/// `c` squared `k` times in GF(2)[x] / `m`.
pub open spec fn square_times(c: u8, k: nat, m: u16) -> u8
    decreases k,
{
    if k == 0 {
        c
    } else {
        let r = square_times(c, (k - 1) as nat, m);
        gf_mul(r, r, m)
    }
}

/// The coefficient `c` of the standard cipher as seen by the dual cipher.
pub open spec fn transformed_coeff(c: u8, d: Dual) -> u8 {
    square_times(rows_image(iso_rows(aes_poly(), d.poly.0), c), d.square_power as nat, d.poly.0)
}

/// Standard AES as a dual cipher of itself.
pub open spec fn standard_dual() -> Dual {
    Dual { poly: Poly(0x11b), square_power: 0 }
}

/// The map of standard AES into itself is the identity.
pub proof fn lemma_standard_q_identity()
    ensures
        dual_q_rows(standard_dual()) == identity_rows(8),
{
    crate::mat::lemma_identity_mul(8);
}

/// A dual cipher: the AES field represented modulo another irreducible
/// polynomial, and its bytes squared `square_power` times.
#[derive(Clone, Copy, Debug)]
pub struct Dual {
    pub poly: Poly,
    pub square_power: usize,
}

impl Dual {
    /// The polynomial defines a field of 256 elements into which the standard
    /// field maps: it has degree 8, and the standard polynomial has a root in it.
    pub open spec fn wf(self) -> bool {
        &&& self.square_power <= 7
        &&& 256 <= self.poly.0 < 512
        &&& (self.poly.0 != aes_poly() ==> has_root(aes_poly(), self.poly.0))
    }

    /// The map from the standard field to this cipher's representation is invertible.
    pub open spec fn invertible(self) -> bool {
        elim_ok(dual_q_rows(self), 0, 8)
    }

    /// The standard cipher, AES itself.
    pub fn standard() -> (r: Self)
        ensures
            r == standard_dual(),
            r.wf(),
            r.invertible(),
    {
        proof {
            lemma_standard_q_identity();
            crate::mat::lemma_identity_elim_ok(8, 0);
        }
        Dual { poly: Poly(0x11b), square_power: 0 }
    }

    pub fn new(poly: Poly, square_power: usize) -> (r: Self)
        requires
            square_power <= 7,
        ensures
            r.poly == poly,
            r.square_power == square_power,
    {
        Dual { poly, square_power }
    }

    /// A dual cipher with one of the irreducible polynomials and a power of
    /// the Frobenius map, both picked at random.
    pub fn random(rng: &mut rand::rngs::ThreadRng) -> (r: Self)
        ensures
            irreducible_list().contains(r.poly.0),
            r.square_power <= 7,
    {
        let polys = irreducible_polynomials();
        let poly = crate::random::choose_entry(&polys, rng).unwrap();
        let square_power = crate::random::random_below(rng, 8);
        proof {
            let i = choose|i: int| 0 <= i < polys@.len() && polys@[i] == poly;
            assert(irreducible_list()[i] == poly.0);
        }
        Self::new(poly, square_power)
    }

    /// Whether this names a dual cipher of AES whose map from the standard
    /// field can be inverted.
    pub fn is_valid(&self) -> (r: bool)
        ensures
            r == (self.wf() && self.invertible()),
    {
        if self.square_power > 7 || self.poly.0 < 256 || self.poly.0 >= 512 {
            return false;
        }
        if self.poly.0 != 0x11b && find_root(Poly(0x11b), self.poly).is_none() {
            return false;
        }
        Q::for_dual(*self).0.inverse().is_some()
    }

    /// The change of representation from this cipher to `to`.
    pub fn delta(self, to: Dual) -> (r: Delta)
        requires
            self.wf(),
            self.invertible(),
            to.wf(),
        ensures
            forall|x: u8| #[trigger] r.0.image(x) == delta_image(self, to, x),
            forall|y: u8| #[trigger] r.0.image(rows_image(dual_q_rows(self), y)) == rows_image(dual_q_rows(to), y),
    {
        let from = Q::for_dual(self);
        let to_q = Q::for_dual(to);
        let r = from.delta(to_q);
        proof {
            assert forall|y: u8| #[trigger] r.0.image(rows_image(dual_q_rows(self), y)) == rows_image(dual_q_rows(to), y) by {
                from.0.lemma_image_rows(y);
                to_q.0.lemma_image_rows(y);
                assert(r.0.image(from.0.image(y)) == to_q.0.image(y));
            }
        }
        r
    }
}

/// The byte `x` of the representation of `from` in that of `to`: mapped back
/// into the standard field, then into `to`.
pub open spec fn delta_image(from: Dual, to: Dual, x: u8) -> u8 {
    rows_image(dual_q_rows(to), rows_preimage(dual_q_rows(from), x))
}

/// The nonzero root `a` of `source_poly` in the field GF(2)[x] / `target_poly`
/// with the smallest value, if there is one.
pub fn find_root(source_poly: Poly, target_poly: Poly) -> (r: Option<u8>)
    requires
        target_poly.0 != 0,
        target_poly.0 < 512,
    ensures
        match r {
            Some(a) => is_first_root(source_poly.0, target_poly.0, a as int),
            None => !has_root(source_poly.0, target_poly.0),
        },
{
    let mut alpha: u16 = 1;
    while alpha <= 255
        invariant
            1 <= alpha <= 256,
            target_poly.0 != 0,
            target_poly.0 < 512,
            forall|b: int| 1 <= b < alpha ==> !#[trigger] is_root(source_poly.0, target_poly.0, b),
        decreases 256 - alpha,
    {
        let a = alpha as u8;
        let mut val: u8 = 0;
        let mut alpha_power: u8 = 1;
        let mut i: usize = 0;
        while i < 9
            invariant
                i <= 9,
                a == alpha,
                target_poly.0 != 0,
                target_poly.0 < 512,
                val == poly_eval(source_poly.0, a, target_poly.0, i as nat),
                i < 9 ==> alpha_power == gf_pow(a, i as nat, target_poly.0),
            decreases 9 - i,
        {
            let term: u8 = if source_poly.has_pow(i) {
                alpha_power
            } else {
                0
            };
            val = val ^ term;
            if i < 8 {
                proof {
                    lemma_gf_mul_byte(alpha_power, a, target_poly.0);
                }
                alpha_power = gf_mul_pol_slow(alpha_power, a, target_poly);
            }
            i += 1;
        }
        if val == 0 {
            return Some(a);
        }
        alpha += 1;
    }
    proof {
        assert forall|b: int| #[trigger] is_root(source_poly.0, target_poly.0, b) implies false by {
        }
    }
    None
}

impl Poly {
    /// The matrix of squaring in the field GF(2)[x] / `self`, on bytes read as
    /// vectors, the bit of weight `2^k` in row `7 - k`.
    pub fn squaring_matrix(&self) -> (r: MatGF2<8>)
        requires
            self.0 != 0,
            self.0 < 512,
        ensures
            r.rows() == column_bytes_rows(squaring_cols(self.0)),
    {
        let mut cols = [0u8; 8];
        let mut i: usize = 0;
        while i < 8
            invariant
                i <= 8,
                self.0 != 0,
                self.0 < 512,
                forall|k: int| 0 <= k < i ==> cols[k] == squaring_cols(self.0)[k],
            decreases 8 - i,
        {
            let basis: u8 = 1u8 << (i as u8);
            proof {
                lemma_gf_mul_byte(basis, basis, self.0);
            }
            let squared = Poly(basis as u16).mulmod(Poly(basis as u16), *self);
            cols[i] = squared.0 as u8;
            i += 1;
        }
        assert(cols@ =~= squaring_cols(self.0));
        MatGF2::from_column_bytes(cols)
    }

    /// The matrix of the field isomorphism from GF(2)[x] / `self` to
    /// GF(2)[x] / `target` that sends `x` to the first root of `self` there.
    pub fn isomorphism(&self, target: Poly) -> (r: MatGF2<8>)
        requires
            target.0 != 0,
            target.0 < 512,
            self.0 != target.0 ==> has_root(self.0, target.0),
        ensures
            r.rows() == iso_rows(self.0, target.0),
    {
        if *self == target {
            return MatGF2::identity();
        }
        let root = match find_root(*self, target) {
            Some(root) => root,
            None => {
                proof {
                    assert(false);
                }
                0
            },
        };
        proof {
            lemma_first_root_unique(self.0, target.0, root as int);
        }
        let mut cols = [0u8; 8];
        let mut root_power: u8 = 1;
        let mut i: usize = 0;
        while i < 8
            invariant
                i <= 8,
                target.0 != 0,
                target.0 < 512,
                root == first_root(self.0, target.0),
                i < 8 ==> root_power == gf_pow(root, i as nat, target.0),
                forall|k: int| 0 <= k < i ==> cols[k] == gf_pow(root, k as nat, target.0),
            decreases 8 - i,
        {
            cols[i] = root_power;
            if i < 7 {
                proof {
                    lemma_gf_mul_byte(root_power, root, target.0);
                }
                root_power = gf_mul_pol_slow(root_power, root, target);
            }
            i += 1;
        }
        assert(cols@ =~= Seq::new(8, |k: int| gf_pow(first_root(self.0, target.0), k as nat, target.0)));
        MatGF2::from_column_bytes(cols)
    }
}


/// The thirty irreducible polynomials of degree 8 over GF(2), in increasing order.
pub open spec fn irreducible_list() -> Seq<u16> {
    seq![
        0x11bu16, 0x11d, 0x12b, 0x12d, 0x139, 0x13f, 0x14d, 0x15f, 0x163, 0x165, 0x169, 0x171,
        0x177, 0x17b, 0x187, 0x18b, 0x18d, 0x19f, 0x1a3, 0x1a9, 0x1b1, 0x1bd, 0x1c3, 0x1cf, 0x1d7,
        0x1dd, 0x1e7, 0x1f3, 0x1f5, 0x1f9,
    ]
}

/// The irreducible polynomials of degree 8 over GF(2); the first one defines
/// the AES field.
pub fn irreducible_polynomials() -> (r: [Poly; 30])
    ensures
        forall|i: int| 0 <= i < 30 ==> #[trigger] r[i].0 == irreducible_list()[i],
        forall|i: int| 0 <= i < 30 ==> 256 <= #[trigger] r[i].0 < 512,
        r[0].0 == aes_poly(),
{
    let r = [
        Poly(0x11b), Poly(0x11d), Poly(0x12b), Poly(0x12d), Poly(0x139), Poly(0x13f), Poly(0x14d),
        Poly(0x15f), Poly(0x163), Poly(0x165), Poly(0x169), Poly(0x171), Poly(0x177), Poly(0x17b),
        Poly(0x187), Poly(0x18b), Poly(0x18d), Poly(0x19f), Poly(0x1a3), Poly(0x1a9), Poly(0x1b1),
        Poly(0x1bd), Poly(0x1c3), Poly(0x1cf), Poly(0x1d7), Poly(0x1dd), Poly(0x1e7), Poly(0x1f3),
        Poly(0x1f5), Poly(0x1f9),
    ];
    assert(forall|i: int| 0 <= i < 30 ==> #[trigger] r[i].0 == irreducible_list()[i]);
    r
}

/// A generator of the multiplicative group of each field of `irreducible_polynomials`.
pub fn initial_generators() -> (r: [u8; 30])
    ensures
        r@ == seq![
            0x03u8, 0x02, 0x49, 0x2A, 0x2A, 0x4E, 0x0D, 0x0B, 0x2F, 0x2A, 0x21, 0x17, 0x16, 0x26, 0x07,
            0x32, 0x21, 0x06, 0x32, 0x37, 0x1A, 0x1C, 0x25, 0x21, 0x1B, 0x1D, 0x06, 0x21, 0x21, 0x07,
        ],
{
    let r = [
        0x03u8, 0x02, 0x49, 0x2A, 0x2A, 0x4E, 0x0D, 0x0B, 0x2F, 0x2A, 0x21, 0x17, 0x16, 0x26, 0x07,
        0x32, 0x21, 0x06, 0x32, 0x37, 0x1A, 0x1C, 0x25, 0x21, 0x1B, 0x1D, 0x06, 0x21, 0x21, 0x07,
    ];
    assert(r@ =~= seq![
        0x03u8, 0x02, 0x49, 0x2A, 0x2A, 0x4E, 0x0D, 0x0B, 0x2F, 0x2A, 0x21, 0x17, 0x16, 0x26, 0x07,
        0x32, 0x21, 0x06, 0x32, 0x37, 0x1A, 0x1C, 0x25, 0x21, 0x1B, 0x1D, 0x06, 0x21, 0x21, 0x07,
    ]);
    r
}

/// Columns of the matrix of the affine step of the AES S-box.
pub open spec fn affine_cols() -> Seq<u8> {
    seq![0b00011111u8, 0b00111110, 0b01111100, 0b11111000, 0b11110001, 0b11100011, 0b11000111, 0b10001111]
}

/// The matrix of the affine step of the AES S-box.
pub fn affine_matrix() -> (r: MatGF2<8>)
    ensures
        r.rows() == column_bytes_rows(affine_cols()),
{
    let cols = [0b00011111u8, 0b00111110, 0b01111100, 0b11111000, 0b11110001, 0b11100011, 0b11000111, 0b10001111];
    assert(cols@ =~= affine_cols());
    MatGF2::from_column_bytes(cols)
}

/// The constant added by the affine step of the AES S-box.
pub const AFFINE_CONSTANT: u8 = 0x63;

/// The linear map from the standard field to a dual cipher's representation.
#[derive(Clone, Copy)]
pub struct Q(pub MatGF2<8>);

impl Q {
    pub fn for_dual(dual: Dual) -> (r: Self)
        requires
            dual.wf(),
        ensures
            r.0.rows() == dual_q_rows(dual),
    {
        let field_iso = irreducible_polynomials()[0].isomorphism(dual.poly);
        if dual.square_power == 0 {
            return Q(MatGF2::identity().compose(&field_iso));
        }
        let q = dual.poly.squaring_matrix();
        let mut result = q;
        let mut i: usize = 1;
        while i < dual.square_power
            invariant
                1 <= i <= dual.square_power,
                result.rows() == matrix_power(q.rows(), i as nat),
            decreases dual.square_power - i,
        {
            result = result.compose(&q);
            i += 1;
        }
        Q(result.compose(&field_iso))
    }

    /// The map is additive: it maps the XOR of two bytes to the XOR of
    /// their images.
    pub proof fn lemma_additive(self, a: u8, b: u8)
        ensures
            self.0.image(a ^ b) == self.0.image(a) ^ self.0.image(b),
    {
        self.0.lemma_image_xor(a, b);
    }

    /// The map of the standard cipher leaves every byte as it is.
    pub proof fn lemma_standard_identity(self, x: u8)
        requires
            self.0.rows() == dual_q_rows(standard_dual()),
        ensures
            self.0.image(x) == x,
    {
        lemma_standard_q_identity();
        self.0.lemma_image_rows(x);
        crate::sbox::lemma_identity_image(x);
    }

    /// A map with a left inverse maps different bytes to different bytes.
    pub proof fn lemma_injective(self, b: MatGF2<8>, x: u8, y: u8)
        requires
            b.is_left_inverse_of(self.0),
            x != y,
        ensures
            self.0.image(x) != self.0.image(y),
    {
        b.lemma_left_inverse_image(self.0, x);
        b.lemma_left_inverse_image(self.0, y);
    }

    /// The inverse map; the matrix must be invertible.
    pub fn inverse(&self) -> (r: Q)
        requires
            elim_ok(self.0.rows(), 0, 8),
        ensures
            r.0.is_left_inverse_of(self.0),
    {
        Q(self.0.inverse().unwrap())
    }

    /// The change of representation from this map to `to`: the inverse of
    /// this map, then `to`. This map must be invertible.
    pub fn delta(&self, to: Q) -> (r: Delta)
        requires
            elim_ok(self.0.rows(), 0, 8),
        ensures
            forall|x: u8| #[trigger] r.0.image(x) == rows_image(to.0.rows(), rows_preimage(self.0.rows(), x)),
            forall|y: u8| #[trigger] r.0.image(self.0.image(y)) == to.0.image(y),
    {
        let q_from_inv = self.inverse();
        let matrix = to.0.compose(&q_from_inv.0);
        proof {
            assert forall|y: u8| #[trigger] matrix.image(self.0.image(y)) == to.0.image(y) by {
                matrix.lemma_compose_image(to.0, q_from_inv.0, self.0.image(y));
                q_from_inv.0.lemma_left_inverse_image(self.0, y);
            }
            assert forall|x: u8| #[trigger] matrix.image(x) == rows_image(to.0.rows(), rows_preimage(self.0.rows(), x)) by {
                matrix.lemma_compose_image(to.0, q_from_inv.0, x);
                q_from_inv.0.lemma_left_inverse_rows_preimage(self.0, x);
                to.0.lemma_image_rows(q_from_inv.0.image(x));
            }
        }
        Delta::new(matrix)
    }

    pub fn apply(&self, x: X) -> (r: X)
        ensures
            r.0 == self.0.image(x.0),
    {
        X(self.0.apply(x.0))
    }
}

/// Every byte of `s1` is the image of the byte of `s0` at the same position.
pub open spec fn is_state_image(m: MatGF2<8>, s0: State, s1: State) -> bool {
    forall|p: int| 0 <= p < 16 ==> s1.0[p] == #[trigger] m.image(s0.0[p])
}

impl State {
    /// Maps every byte of the state by `q`.
    pub fn apply_q(&mut self, q: Q)
        ensures
            forall|p: int| 0 <= p < 16 ==> final(self).0[p] == q.0.image(old(self).0[p]),
            is_state_image(q.0, *old(self), *final(self)),
    {
        let mut i: usize = 0;
        while i < 16
            invariant
                i <= 16,
                forall|p: int| 0 <= p < i ==> self.0[p] == q.0.image(old(self).0[p]),
                forall|p: int| i <= p < 16 ==> self.0[p] == old(self).0[p],
            decreases 16 - i,
        {
            self.0[i] = q.apply(X(self.0[i])).0;
            i += 1;
        }
    }

    /// Maps every byte of the state by the inverse of `q`, which must be invertible.
    pub fn apply_q_inv(&mut self, q: Q)
        requires
            elim_ok(q.0.rows(), 0, 8),
        ensures
            exists|b: MatGF2<8>|
                b.is_left_inverse_of(q.0) && forall|p: int|
                    0 <= p < 16 ==> final(self).0[p] == #[trigger] b.image(old(self).0[p]),
            forall|s0: State| #[trigger] is_state_image(q.0, s0, *old(self)) ==> *final(self) == s0,
            is_state_image(q.0, *final(self), *old(self)),
    {
        let inv = q.inverse();
        self.apply_q(inv);
        proof {
            assert forall|p: int| 0 <= p < 16 implies old(self).0[p] == #[trigger] q.0.image(self.0[p]) by {
                inv.0.lemma_left_inverse_is_right_inverse(q.0, old(self).0[p]);
            }
            assert forall|s0: State| #[trigger] is_state_image(q.0, s0, *old(self)) implies *self == s0 by {
                assert forall|p: int| 0 <= p < 16 implies self.0[p] == s0.0[p] by {
                    assert(old(self).0[p] == q.0.image(s0.0[p]));
                    inv.0.lemma_left_inverse_image(q.0, s0.0[p]);
                }
                assert(self.0 =~= s0.0);
            }
        }
    }
}

/// The image of the standard coefficient `coeff` in the dual cipher, so that
/// the transform of `coeff * x` is the image of `coeff` times the transform of `x`.
pub fn transform_coeff_full(coeff: u8, dual: Dual) -> (r: u8)
    requires
        dual.wf(),
    ensures
        r == transformed_coeff(coeff, dual),
{
    let iso = irreducible_polynomials()[0].isomorphism(dual.poly);
    let coeff_in_poly = iso.apply(coeff);
    proof {
        iso.lemma_image_rows(coeff);
    }
    let mut result = coeff_in_poly;
    let mut i: usize = 0;
    while i < dual.square_power
        invariant
            i <= dual.square_power,
            dual.wf(),
            result == square_times(coeff_in_poly, i as nat, dual.poly.0),
        decreases dual.square_power - i,
    {
        proof {
            lemma_gf_mul_byte(result, result, dual.poly.0);
        }
        result = Poly(result as u16).mulmod(Poly(result as u16), dual.poly).0 as u8;
        i += 1;
    }
    result
}

/// The coefficients of MixColumns and of its inverse.
#[derive(Clone, Copy, Debug)]
pub struct MixColCoeffs {
    pub c2: u8,
    pub c3: u8,
    pub c9: u8,
    pub c11: u8,
    pub c13: u8,
    pub c14: u8,
}

impl MixColCoeffs {
    /// The coefficients of standard AES.
    pub fn standard() -> (r: Self)
        ensures
            r.c2 == 2 && r.c3 == 3 && r.c9 == 9 && r.c11 == 11 && r.c13 == 13 && r.c14 == 14,
    {
        MixColCoeffs { c2: 2, c3: 3, c9: 9, c11: 11, c13: 13, c14: 14 }
    }

    /// The coefficients of the dual cipher `dual`.
    pub fn for_dual(dual: Dual) -> (r: Self)
        requires
            dual.wf(),
        ensures
            r.c2 == transformed_coeff(2, dual),
            r.c3 == transformed_coeff(3, dual),
            r.c9 == transformed_coeff(9, dual),
            r.c11 == transformed_coeff(11, dual),
            r.c13 == transformed_coeff(13, dual),
            r.c14 == transformed_coeff(14, dual),
    {
        MixColCoeffs {
            c2: transform_coeff_full(2, dual),
            c3: transform_coeff_full(3, dual),
            c9: transform_coeff_full(9, dual),
            c11: transform_coeff_full(11, dual),
            c13: transform_coeff_full(13, dual),
            c14: transform_coeff_full(14, dual),
        }
    }
}

/// The round constant of the key schedule for `round`: zero for round zero,
/// otherwise the transformed `x` raised to `round - 1`.
pub open spec fn rcon_spec(round: nat, config: Dual) -> u8 {
    if round == 0 {
        0
    } else {
        powmod_from(1, transformed_coeff(2, config) as u16, (round - 1) as nat, config.poly.0) as u8
    }
}

pub fn compute_rcon(round: usize, config: Dual) -> (r: u8)
    requires
        round > 0 ==> config.wf(),
    ensures
        r == rcon_spec(round as nat, config),
{
    if round == 0 {
        return 0;
    }
    let poly = config.poly;
    let base = transform_coeff_full(0x02, config);
    Poly(base as u16).powmod(round - 1, poly).0 as u8
}

/// The powers `g^0 .. g^255` of a field element, with the field polynomial.
pub struct G(pub [u8; 256], pub Poly);

impl G {
    /// `a` times the power `idx` of the generator.
    pub fn mul(&self, a: X, idx: usize) -> (r: X)
        requires
            idx < 256,
            self.1.0 != 0,
            self.1.0 < 512,
        ensures
            r.0 == gf_mul(a.0, self.0[idx as int], self.1.0),
    {
        proof {
            lemma_gf_mul_byte(a.0, self.0[idx as int], self.1.0);
        }
        X(gf_mul_pol_slow(a.0, self.0[idx], self.1))
    }
}

/// The table of powers of `generator` in GF(2)[x] / `pol`.
pub fn make_g(generator: u8, pol: Poly) -> (r: G)
    requires
        pol.0 != 0,
        pol.0 < 512,
    ensures
        r.1 == pol,
        forall|i: int| 0 <= i < 256 ==> r.0[i] == gf_pow(generator, i as nat, pol.0),
{
    let mut out = [0u8; 256];
    let mut i: usize = 0;
    let mut cur: u8 = 1;
    while i <= 255
        invariant
            i <= 256,
            pol.0 != 0,
            pol.0 < 512,
            cur == gf_pow(generator, i as nat, pol.0),
            forall|k: int| 0 <= k < i ==> out[k] == gf_pow(generator, k as nat, pol.0),
        decreases 256 - i,
    {
        out[i] = cur;
        i += 1;
        proof {
            lemma_gf_mul_byte(cur, generator, pol.0);
        }
        cur = gf_mul_pol_slow(cur, generator, pol);
    }
    G(out, pol)
}

/// The divisors of 255 that are checked against the order of a generator.
pub open spec fn order_divisors() -> Seq<usize> {
    seq![1usize, 3, 5, 15, 17, 51, 85]
}

/// Whether `alpha`, read as a polynomial, is irreducible and none of its
/// powers by a proper divisor of 255 is one modulo `field`.
pub fn is_generator(alpha: u8, field: Poly) -> (r: bool)
    requires
        field.0 != 0,
        field.0 < 512,
    ensures
        r == (rabin_irreducible(alpha as u16) && forall|k: int|
            0 <= k < 7 ==> #[trigger] powmod_from(1, alpha as u16, order_divisors()[k] as nat, field.0) != 1),
{
    if !Poly(alpha as u16).is_irreducible() {
        return false;
    }
    let ds: [usize; 7] = [1, 3, 5, 15, 17, 51, 85];
    assert(ds@ =~= order_divisors());
    let mut k: usize = 0;
    while k < 7
        invariant
            k <= 7,
            field.0 != 0,
            field.0 < 512,
            ds@ == order_divisors(),
            forall|j: int| 0 <= j < k ==> #[trigger] powmod_from(1, alpha as u16, order_divisors()[j] as nat, field.0) != 1,
        decreases 7 - k,
    {
        if Poly(alpha as u16).powmod(ds[k], field) == Poly(1) {
            return false;
        }
        k += 1;
    }
    true
}

/// `first` and its squares `first^2, first^4, .., first^128` modulo `pol`.
pub fn generators_for_pol(pol: Poly, first: u8) -> (r: [u8; 8])
    requires
        pol.0 != 0,
        pol.0 < 512,
    ensures
        r[0] == first,
        forall|k: int| 1 <= k < 8 ==> #[trigger] r[k] == powmod_from(1, first as u16, pow2(k as nat), pol.0) as u8,
{
    let first16 = first as u16;
    let exps: [usize; 8] = [1, 2, 4, 8, 16, 32, 64, 128];
    proof {
        vstd::arithmetic::power2::lemma2_to64();
    }
    let mut out = [first; 8];
    let mut k: usize = 1;
    while k < 8
        invariant
            1 <= k <= 8,
            pol.0 != 0,
            pol.0 < 512,
            first16 == first as u16,
            out[0] == first,
            forall|j: int| 0 <= j < 8 ==> exps[j] == pow2(j as nat),
            forall|j: int| 1 <= j < k ==> #[trigger] out[j] == powmod_from(1, first as u16, pow2(j as nat), pol.0) as u8,
        decreases 8 - k,
    {
        out[k] = Poly(first16).powmod(exps[k], pol).0 as u8;
        k += 1;
    }
    out
}

} // verus!
