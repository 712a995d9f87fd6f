//! Random S-boxes: a random permutation of the bytes improved by random
//! swaps, scored by fixed points, nonlinearity and balance.

use vstd::prelude::*;

use crate::{X, XArr};

verus! {

/// The number of ones among the lowest `n` bits of `v`.
pub open spec fn ones(v: u8, n: nat) -> nat
    decreases n,
{
    if n == 0 {
        0
    } else {
        ones(v, (n - 1) as nat) + ((v >> ((n - 1) as u8)) & 1) as nat
    }
}

/// The parity of the common bits of `a` and `x`: the inner product of the
/// two bit vectors over GF(2).
pub open spec fn dot_spec(a: u8, x: u8) -> u8 {
    (ones(a & x, 8) % 2) as u8
}

/// Bit `bit` of entry `x` of the S-box.
pub open spec fn out_bit(sbox: Seq<X>, x: int, bit: u8) -> u8 {
    (sbox[x].0 & (1u8 << bit)) >> bit
}

/// The sign that the Walsh transform gives `x`: one where bit `bit` of the
/// entry agrees with the linear function `a`, minus one where it does not.
pub open spec fn walsh_term(sbox: Seq<X>, bit: u8, a: u8, x: int) -> int {
    if (out_bit(sbox, x, bit) ^ dot_spec(a, x as u8)) == 0 {
        1
    } else {
        -1
    }
}

/// The correlation of bit `bit` with the linear function `a` over the
/// first `n` entries.
pub open spec fn correlation(sbox: Seq<X>, bit: u8, a: u8, n: nat) -> int
    decreases n,
{
    if n == 0 {
        0
    } else {
        correlation(sbox, bit, a, (n - 1) as nat) + walsh_term(sbox, bit, a, n - 1)
    }
}

pub open spec fn abs_int(v: int) -> int {
    if v < 0 {
        -v
    } else {
        v
    }
}

/// The largest absolute correlation of bit `bit` with the nonzero linear
/// functions below `n`.
pub open spec fn max_correlation(sbox: Seq<X>, bit: u8, n: nat) -> int
    decreases n,
{
    if n <= 1 {
        0
    } else {
        let prev = max_correlation(sbox, bit, (n - 1) as nat);
        let c = abs_int(correlation(sbox, bit, (n - 1) as u8, 256));
        if c > prev {
            c
        } else {
            prev
        }
    }
}

/// The sum over the first `b` bits of how far the largest correlation stays
/// below 256.
pub open spec fn nonlinearity_sum(sbox: Seq<X>, b: nat) -> int
    decreases b,
{
    if b == 0 {
        0
    } else {
        nonlinearity_sum(sbox, (b - 1) as nat) + (256 - max_correlation(sbox, (b - 1) as u8, 256))
    }
}

/// The number of entries below `n` whose bit `bit` is set.
pub open spec fn bit_ones(sbox: Seq<X>, bit: u8, n: nat) -> int
    decreases n,
{
    if n == 0 {
        0
    } else {
        bit_ones(sbox, bit, (n - 1) as nat) + out_bit(sbox, n - 1, bit)
    }
}

/// The sum over the first `b` bits of twice how close their number of ones
/// is to half the entries.
pub open spec fn balance_sum(sbox: Seq<X>, b: nat) -> int
    decreases b,
{
    if b == 0 {
        0
    } else {
        balance_sum(sbox, (b - 1) as nat) + (128 - abs_int(bit_ones(sbox, (b - 1) as u8, 256) - 128)) * 2
    }
}

/// The number of entries below `n` that are fixed points.
pub open spec fn fixed_points(sbox: Seq<X>, n: nat) -> int
    decreases n,
{
    if n == 0 {
        0
    } else {
        fixed_points(sbox, (n - 1) as nat) + if sbox[n - 1].0 == n - 1 {
            1int
        } else {
            0int
        }
    }
}

/// The number of entries below `n` that map their index to its complement.
pub open spec fn opposite_points(sbox: Seq<X>, n: nat) -> int
    decreases n,
{
    if n == 0 {
        0
    } else {
        opposite_points(sbox, (n - 1) as nat) + if !sbox[n - 1].0 == n - 1 {
            1int
        } else {
            0int
        }
    }
}

/// The score of an S-box: fixed points and complement points cost, the
/// nonlinearity and balance of the output bits earn.
pub open spec fn sbox_score(sbox: Seq<X>) -> int {
    -100 * fixed_points(sbox, 256) - 50 * opposite_points(sbox, 256) + nonlinearity_sum(sbox, 8) / 8 + balance_sum(sbox, 8)
}

/// The identity permutation of the bytes.
pub open spec fn identity_table() -> Seq<X> {
    Seq::new(256, |i: int| X(i as u8))
}

proof fn lemma_out_bit(v: u8, bit: u8)
    requires
        bit < 8,
    ensures
        (v & (1u8 << bit)) >> bit <= 1,
{
    assert((v & (1u8 << bit)) >> bit <= 1) by (bit_vector)
        requires
            bit < 8,
    ;
}

/// The inner product over GF(2) of the bits of `a` and `x`.
fn dot_product(a: u8, x: u8) -> (r: u8)
    ensures
        r == dot_spec(a, x),
        r <= 1,
{
    let v = a & x;
    let mut c: u8 = 0;
    let mut k: u8 = 0;
    while k < 8
        invariant
            k <= 8,
            c as nat == ones(v, k as nat),
            c <= k,
        decreases 8 - k,
    {
        let b = (v >> k) & 1;
        assert(b <= 1) by (bit_vector)
            requires
                b == (v >> k) & 1,
        ;
        c = c + b;
        k += 1;
    }
    c % 2
}

/// The score of the nonlinearity of the output bits: for each bit, how far
/// its largest correlation with a nonzero linear function stays below 256,
/// averaged over the bits.
fn nonlinearity_score(sbox: &[X; 256]) -> (r: i32)
    ensures
        r == nonlinearity_sum(sbox@, 8) / 8,
        0 <= r <= 256,
{
    let mut score: i32 = 0;
    let mut bit: u8 = 0;
    while bit < 8
        invariant
            bit <= 8,
            score == nonlinearity_sum(sbox@, bit as nat),
            0 <= score <= 256 * bit,
        decreases 8 - bit,
    {
        let mask: u8 = 1u8 << bit;
        let mut max_corr: i32 = 0;
        let mut a: usize = 1;
        while a < 256
            invariant
                1 <= a <= 256,
                bit < 8,
                mask == 1u8 << bit,
                max_corr == max_correlation(sbox@, bit, a as nat),
                0 <= max_corr <= 256,
            decreases 256 - a,
        {
            let mut corr: i32 = 0;
            let mut x: usize = 0;
            while x < 256
                invariant
                    x <= 256,
                    1 <= a < 256,
                    bit < 8,
                    mask == 1u8 << bit,
                    corr == correlation(sbox@, bit, a as u8, x as nat),
                    -(x as int) <= corr <= x,
                decreases 256 - x,
            {
                let fx = (sbox[x].0 & mask) >> bit;
                let ax = dot_product(a as u8, x as u8);
                proof {
                    lemma_out_bit(sbox[x as int].0, bit);
                }
                if fx ^ ax == 0 {
                    corr = corr + 1;
                } else {
                    corr = corr - 1;
                }
                x += 1;
            }
            let abs = if corr < 0 {
                -corr
            } else {
                corr
            };
            if abs > max_corr {
                max_corr = abs;
            }
            a += 1;
        }
        score = score + (256 - max_corr);
        bit += 1;
    }
    score / 8
}

/// The score of the balance of the output bits: for each bit, twice how
/// close its number of ones is to half the entries.
fn balance_score(sbox: &[X; 256]) -> (r: i32)
    ensures
        r == balance_sum(sbox@, 8),
        0 <= r <= 2048,
{
    let mut score: i32 = 0;
    let mut bit: u8 = 0;
    while bit < 8
        invariant
            bit <= 8,
            score == balance_sum(sbox@, bit as nat),
            0 <= score <= 256 * bit,
        decreases 8 - bit,
    {
        let mask: u8 = 1u8 << bit;
        let mut ones: i32 = 0;
        let mut x: usize = 0;
        while x < 256
            invariant
                x <= 256,
                bit < 8,
                mask == 1u8 << bit,
                ones == bit_ones(sbox@, bit, x as nat),
                0 <= ones <= x,
            decreases 256 - x,
        {
            proof {
                lemma_out_bit(sbox[x as int].0, bit);
            }
            ones = ones + ((sbox[x].0 & mask) >> bit) as i32;
            x += 1;
        }
        let d = ones - 128;
        let abs = if d < 0 {
            -d
        } else {
            d
        };
        score = score + (128 - abs) * 2;
        bit += 1;
    }
    score
}

/// The score of an S-box.
fn evaluate_sbox(sbox: &[X; 256]) -> (r: i32)
    ensures
        r == sbox_score(sbox@),
{
    let mut score: i32 = 0;
    let mut i: usize = 0;
    while i < 256
        invariant
            i <= 256,
            score == -100 * fixed_points(sbox@, i as nat),
            0 <= fixed_points(sbox@, i as nat) <= i,
        decreases 256 - i,
    {
        if i == sbox[i].0 as usize {
            score = score - 100;
        }
        i += 1;
    }
    let mut i: usize = 0;
    while i < 256
        invariant
            i <= 256,
            score == -100 * fixed_points(sbox@, 256) - 50 * opposite_points(sbox@, i as nat),
            0 <= fixed_points(sbox@, 256) <= 256,
            0 <= opposite_points(sbox@, i as nat) <= i,
        decreases 256 - i,
    {
        if i == (!sbox[i].0) as usize {
            score = score - 50;
        }
        i += 1;
    }
    let n = nonlinearity_score(sbox);
    let b = balance_score(sbox);
    score = score + n;
    score = score + b;
    score
}

/// A random S-box: a random permutation of the bytes, improved by a
/// thousand random swaps that are kept when they raise the score.
pub fn random_sbox(rng: &mut rand::rngs::ThreadRng) -> (r: XArr<X>)
    ensures
        r.0@.to_multiset() == identity_table().to_multiset(),
        forall|i: int, j: int| 0 <= i < j < 256 ==> r.0[i] != r.0[j],
{
    let mut sbox = [X(0); 256];
    let mut k: usize = 0;
    while k < 256
        invariant
            k <= 256,
            forall|i: int| 0 <= i < k ==> #[trigger] sbox[i] == X(i as u8),
        decreases 256 - k,
    {
        sbox[k] = X(k as u8);
        k += 1;
    }
    assert(sbox@ =~= identity_table());
    crate::random::shuffle(&mut sbox, rng);
    let mut score = evaluate_sbox(&sbox);
    let mut round: usize = 0;
    while round < 1000
        invariant
            round <= 1000,
            sbox@.to_multiset() == identity_table().to_multiset(),
            score == sbox_score(sbox@),
        decreases 1000 - round,
    {
        let mut candidate = sbox;
        let i = crate::random::random_below(rng, 256);
        let j = crate::random::random_below(rng, 256);
        let vi = candidate[i];
        let vj = candidate[j];
        candidate[i] = vj;
        candidate[j] = vi;
        proof {
            broadcast use vstd::seq_lib::group_to_multiset_ensures;
            broadcast use vstd::multiset::group_multiset_axioms;
            let s = sbox@;
            assert(s[i as int] == vi && s.contains(vi));
            assert(s[j as int] == vj && s.contains(vj));
            let s1 = s.update(i as int, vj);
            assert(candidate@ =~= s1.update(j as int, vi));
            assert(s1.to_multiset() == s.to_multiset().insert(vj).remove(vi));
            assert(s1[j as int] == vj);
            assert(candidate@.to_multiset() == s1.to_multiset().insert(vi).remove(vj));
            assert forall|v: X| #[trigger] candidate@.to_multiset().count(v) == s.to_multiset().count(v) by {
                assert(s.to_multiset().count(vi) > 0);
                assert(s1.to_multiset().count(vj) > 0) by {
                    assert(s1.contains(vj));
                }
            }
            assert(candidate@.to_multiset() =~= s.to_multiset());
        }
        let candidate_score = evaluate_sbox(&candidate);
        if candidate_score > score {
            sbox = candidate;
            score = candidate_score;
        }
        round += 1;
    }
    proof {
        let id = identity_table();
        assert(id.no_duplicates());
        id.lemma_multiset_has_no_duplicates();
        sbox@.lemma_multiset_has_no_duplicates_conv();
    }
    XArr(sbox)
}

} // verus!
