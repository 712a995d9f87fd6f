//! The ShiftRows permutations and multiplication in GF(2^8).

use vstd::prelude::*;

use crate::dual::{lemma_clmul_bytes, pmulmod, Poly};
use crate::xor::{Bijection4, ShiftRowsBijection};
use crate::State;

verus! {

/// Product of `a` and `b` in the field GF(2)[x] / `pol`.
pub open spec fn gf_mul(a: u8, b: u8, pol: u16) -> u8 {
    pmulmod(a as u16, b as u16, pol) as u8
}

/// Position whose byte ShiftRows moves to position `p`: the row stays and the
/// column advances by the row number.
pub open spec fn shift_rows_src(p: nat) -> nat {
    4 * ((p / 4 + p % 4) % 4) + p % 4
}

/// Position whose byte InvShiftRows moves to position `p`.
pub open spec fn inv_shift_rows_src(p: nat) -> nat {
    4 * (((p / 4 + 4 - p % 4) as nat) % 4) + p % 4
}

/// The ShiftRows permutation: row `r` is rotated left by `r` columns.
pub fn shift_rows_tab() -> (r: ShiftRowsBijection)
    ensures
        r.wf(),
        forall|p: nat| p < 16 ==> r.map_spec(p) == shift_rows_src(p),
{
    ShiftRowsBijection(Bijection4([0u8, 5, 10, 15, 4, 9, 14, 3, 8, 13, 2, 7, 12, 1, 6, 11]))
}

/// The inverse of the ShiftRows permutation.
pub fn inv_shift_rows_tab() -> (r: ShiftRowsBijection)
    ensures
        r.wf(),
        forall|p: nat| p < 16 ==> r.map_spec(p) == inv_shift_rows_src(p),
{
    ShiftRowsBijection(Bijection4([0u8, 13, 10, 7, 4, 1, 14, 11, 8, 5, 2, 15, 12, 9, 6, 3]))
}

/// The two permutations undo each other.
pub proof fn lemma_shift_rows_inverse(p: nat)
    requires
        p < 16,
    ensures
        shift_rows_src(p) < 16,
        inv_shift_rows_src(p) < 16,
        inv_shift_rows_src(shift_rows_src(p)) == p,
        shift_rows_src(inv_shift_rows_src(p)) == p,
{
    let c = p / 4;
    let r = p % 4;
    assert(p == 4 * c + r);
    assert(c < 4);
    let s1 = (c + r) % 4;
    assert(shift_rows_src(p) == 4 * s1 + r);
    assert((4 * s1 + r) / 4 == s1 && (4 * s1 + r) % 4 == r);
    assert(((s1 + 4 - r) as nat) % 4 == c) by {
        if c + r < 4 {
            assert(s1 == c + r);
        } else {
            assert(s1 == c + r - 4);
        }
    }
    let s2 = ((c + 4 - r) as nat) % 4;
    assert(inv_shift_rows_src(p) == 4 * s2 + r);
    assert((4 * s2 + r) / 4 == s2 && (4 * s2 + r) % 4 == r);
    assert((s2 + r) % 4 == c) by {
        if c >= r {
            assert(s2 == c - r);
        } else {
            assert(s2 == c + 4 - r);
        }
    }
}

/// Multiplication in the finite field GF(2)[x] / `pol`.
pub fn gf_mul_pol_slow(a: u8, b: u8, pol: Poly) -> (r: u8)
    requires
        pol.0 != 0,
        pmulmod(a as u16, b as u16, pol.0) <= 0xff,
    ensures
        r == gf_mul(a, b, pol.0),
{
    let pa = Poly(a as u16);
    let pb = Poly(b as u16);
    proof {
        lemma_clmul_bytes(a as u16, b as u16);
    }
    let prod = pa.mulmod(pb, pol);
    prod.0 as u8
}

/// Performs the ShiftRows step: position `p` receives the byte at `tab.map(p)`.
pub fn shift_rows(state: &mut State, tab: &ShiftRowsBijection)
    requires
        tab.wf(),
    ensures
        forall|p: int| 0 <= p < 16 ==> final(state).0[p] == old(state).0[tab.map_spec(p as nat) as int],
{
    let copy = *state;
    let mut i: usize = 0;
    while i < 16
        invariant
            i <= 16,
            tab.wf(),
            forall|p: int| 0 <= p < i ==> state.0[p] == copy.0[tab.map_spec(p as nat) as int],
        decreases 16 - i,
    {
        state.0[i] = copy.0[tab.0.0[i] as usize];
        i += 1;
    }
}

} // verus!
