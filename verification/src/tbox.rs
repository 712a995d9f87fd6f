//! T-boxes: AddRoundKey and SubBytes of a round folded into one table per
//! state position.

use vstd::prelude::*;

use crate::aes::{add_round_key, add_shifted_round_key, inverse_table, sub_bytes};
use crate::consts::{inv_shift_rows_src, inv_shift_rows_tab, shift_rows_src, shift_rows_tab};
use crate::dual::Q;
use crate::key::RoundKeys;
use crate::mat::{elim_ok, MatGF2};
use crate::sbox::{sbox_table, PrecomputedSBox, SBox};
use crate::{RIArr, SPos, State, X, XArr, RI};

verus! {

/// For every byte value, the state that a round turns it into at each position.
#[derive(Clone, Copy, Debug)]
pub struct Tbox(pub XArr<State>);

impl Tbox {
    /// The byte that position `p` holding `x` becomes.
    pub open spec fn entry(self, x: int, p: int) -> u8 {
        self.0.0[x].0[p]
    }

    /// All entries zero.
    pub fn zero() -> (r: Self)
        ensures
            forall|x: int, p: int| 0 <= x < 256 && 0 <= p < 16 ==> r.entry(x, p) == 0,
    {
        Tbox(XArr([State([0u8; 16]); 256]))
    }

    /// Replaces every byte of the state by its entry.
    pub fn apply(&self, state: &mut State)
        ensures
            forall|p: int| 0 <= p < 16 ==> #[trigger] final(state).0[p] == self.entry(old(state).0[p] as int, p),
    {
        let mut i: usize = 0;
        while i < 16
            invariant
                i <= 16,
                forall|p: int| 0 <= p < i ==> #[trigger] state.0[p] == self.entry(old(state).0[p] as int, p),
                forall|p: int| i <= p < 16 ==> state.0[p] == old(state).0[p],
            decreases 16 - i,
        {
            let x = state.0[i];
            state.0[i] = self.0.0[x as usize].0[i];
            i += 1;
        }
    }

    /// Adds the key `k` to every state of the table.
    pub(crate) fn add_key(&mut self, k: &crate::RoundKey)
        ensures
            forall|x: int, p: int| 0 <= x < 256 && 0 <= p < 16 ==> #[trigger] final(self).entry(x, p) == old(self).entry(x, p) ^ k.0[p],
    {
        let mut x: usize = 0;
        while x < 256
            invariant
                x <= 256,
                forall|y: int, p: int| 0 <= y < x && 0 <= p < 16 ==> #[trigger] self.entry(y, p) == old(self).entry(y, p) ^ k.0[p],
                forall|y: int| x <= y < 256 ==> #[trigger] self.0.0[y] == old(self).0.0[y],
            decreases 256 - x,
        {
            let ghost before = *self;
            let mut st = self.0.0[x];
            add_round_key(&mut st, k);
            self.0.0[x] = st;
            proof {
                assert forall|y: int, p: int| 0 <= y < x + 1 && 0 <= p < 16 implies #[trigger] self.entry(y, p) == old(self).entry(y, p) ^ k.0[p] by {
                    if y != x {
                        assert(self.0.0[y] == before.0.0[y]);
                        assert(self.entry(y, p) == before.entry(y, p));
                    } else {
                        assert(self.0.0[y] == st);
                        assert(before.0.0[y] == old(self).0.0[y]);
                    }
                }
                assert forall|y: int| x + 1 <= y < 256 implies #[trigger] self.0.0[y] == old(self).0.0[y] by {
                    assert(self.0.0[y] == before.0.0[y]);
                }
            }
            x += 1;
        }
    }

    /// Maps every entry by the inverse of `q`, which must be invertible.
    pub fn apply_q_inv(&mut self, q: Q)
        requires
            elim_ok(q.0.rows(), 0, 8),
        ensures
            exists|b: MatGF2<8>|
                b.is_left_inverse_of(q.0) && forall|x: int, p: int|
                    0 <= x < 256 && 0 <= p < 16 ==> #[trigger] final(self).entry(x, p) == b.image(old(self).entry(x, p)),
    {
        let q_inv = q.inverse();
        let mut x: usize = 0;
        while x < 256
            invariant
                x <= 256,
                q_inv.0.is_left_inverse_of(q.0),
                forall|y: int, p: int| 0 <= y < x && 0 <= p < 16 ==> #[trigger] self.entry(y, p) == q_inv.0.image(old(self).entry(y, p)),
                forall|y: int, p: int| x <= y < 256 && 0 <= p < 16 ==> #[trigger] self.entry(y, p) == old(self).entry(y, p),
            decreases 256 - x,
        {
            let ghost before = *self;
            let mut st = self.0.0[x];
            st.apply_q(q_inv);
            self.0.0[x] = st;
            proof {
                assert forall|p: int| 0 <= p < 16 implies #[trigger] self.entry(x as int, p) == q_inv.0.image(before.entry(x as int, p)) by {
                    assert(self.0.0[x as int] == st);
                }
                assert forall|y: int, p: int| 0 <= y < 256 && y != x && 0 <= p < 16 implies #[trigger] self.entry(y, p) == before.entry(y, p) by {
                    assert(self.0.0[y] == before.0.0[y]);
                }
            }
            x += 1;
        }
    }
}

/// The T-boxes of all rounds but the last, and the last one, which also adds
/// the final round key.
pub struct Tboxes<const NRM1: usize> {
    pub tboxes: RIArr<Tbox, NRM1>,
    pub last: Tbox,
}

impl<const NRM1: usize> Tboxes<NRM1> {
    /// The T-boxes of encryption with the substitution `table`: round `r` adds
    /// its key to the shifted state and substitutes; the last also adds the final key.
    pub open spec fn forward_spec(self, table: Seq<u8>, rk: RoundKeys<NRM1>) -> bool {
        &&& forall|r: int, x: int, p: int|
            0 <= r < NRM1 && 0 <= x < 256 && 0 <= p < 16 ==> #[trigger] self.tboxes.0[r].entry(x, p) == table[(x as u8
                ^ rk.rounds.0[r].0[shift_rows_src(p as nat) as int]) as int]
        &&& forall|x: int, p: int|
            0 <= x < 256 && 0 <= p < 16 ==> #[trigger] self.last.entry(x, p) == table[(x as u8
                ^ rk.last.0.0[shift_rows_src(p as nat) as int]) as int] ^ rk.last.1.0[p]
    }

    /// The T-boxes of decryption with the inverse substitution `itable`, in
    /// the order in which decryption uses the round keys.
    pub open spec fn inverse_spec(self, itable: Seq<u8>, rk: RoundKeys<NRM1>) -> bool {
        &&& forall|x: int, p: int|
            0 <= x < 256 && 0 <= p < 16 ==> #[trigger] self.tboxes.0[0].entry(x, p) == itable[(x as u8
                ^ rk.last.1.0[inv_shift_rows_src(p as nat) as int]) as int] ^ rk.last.0.0[p]
        &&& forall|r: int, x: int, p: int|
            1 <= r < NRM1 && 0 <= x < 256 && 0 <= p < 16 ==> #[trigger] self.tboxes.0[r].entry(x, p) == itable[x]
                ^ rk.rounds.0[NRM1 - r].0[p]
        &&& forall|x: int, p: int|
            0 <= x < 256 && 0 <= p < 16 ==> #[trigger] self.last.entry(x, p) == itable[x] ^ rk.rounds.0[0].0[p]
    }

    pub fn new(tboxes: RIArr<Tbox, NRM1>, last: Tbox) -> (r: Self)
        ensures
            r.tboxes == tboxes,
            r.last == last,
    {
        Tboxes { tboxes, last }
    }

    /// The T-boxes of encryption, or with `inv` of decryption, with `sbox`.
    pub fn from_round_keys<S: SBox + Copy>(sbox: S, round_keys: &RoundKeys<NRM1>, inv: bool) -> (r: Self)
        requires
            inv ==> NRM1 >= 1,
        ensures
            !inv ==> r.forward_spec(sbox_table(sbox), *round_keys),
            inv ==> r.inverse_spec(inverse_table(sbox_table(sbox)), *round_keys),
    {
        if inv {
            let inv_sbox = PrecomputedSBox::inversed(&sbox);
            assert(sbox_table(&sbox) =~= sbox_table(sbox));
            assert(sbox_table(&inv_sbox) =~= inverse_table(sbox_table(sbox)));
            Self::from_round_keys_inv(&inv_sbox, round_keys)
        } else {
            Self::from_round_keys_forward(sbox, round_keys)
        }
    }

    pub(crate) fn tbox_shifted<S: SBox + Copy>(sbox: S, a: &crate::RoundKey, inv: bool) -> (r: Tbox)
        ensures
            forall|x: int, p: int| 0 <= x < 256 && 0 <= p < 16 ==> #[trigger] r.entry(x, p) == sbox_table(sbox)[(x as u8
                ^ a.0[(if inv { inv_shift_rows_src(p as nat) } else { shift_rows_src(p as nat) }) as int]) as int],
    {
        let tab = if inv {
            inv_shift_rows_tab()
        } else {
            shift_rows_tab()
        };
        let mut t = Tbox::zero();
        let mut x: usize = 0;
        while x < 256
            invariant
                x <= 256,
                tab.wf(),
                forall|p: nat| p < 16 ==> tab.map_spec(p) == (if inv { inv_shift_rows_src(p) } else { shift_rows_src(p) }),
                forall|y: int, p: int| 0 <= y < x && 0 <= p < 16 ==> #[trigger] t.entry(y, p) == sbox_table(sbox)[(y as u8
                    ^ a.0[(if inv { inv_shift_rows_src(p as nat) } else { shift_rows_src(p as nat) }) as int]) as int],
            decreases 256 - x,
        {
            let mut st = State::from_x(X(x as u8));
            add_shifted_round_key(&mut st, a, &tab);
            let ghost st1 = st;
            sub_bytes(sbox, &mut st);
            let ghost before = t;
            t.0.0[x] = st;
            proof {
                assert forall|y: int, p: int| 0 <= y < x + 1 && 0 <= p < 16 implies #[trigger] t.entry(y, p) == sbox_table(sbox)[(y as u8
                    ^ a.0[(if inv { inv_shift_rows_src(p as nat) } else { shift_rows_src(p as nat) }) as int]) as int] by {
                    if y != x {
                        assert(t.0.0[y] == before.0.0[y]);
                        assert(t.entry(y, p) == before.entry(y, p));
                    } else {
                        assert(t.0.0[y] == st);
                        assert(st.0[p] == sbox_table(sbox)[st1.0[p] as int]);
                        assert(st1.0[p] == (x as u8) ^ a.0[tab.map_spec(p as nat) as int]);
                    }
                }
            }
            x += 1;
        }
        t
    }

    pub(crate) fn tbox_plain<S: SBox + Copy>(sbox: S, b: &crate::RoundKey) -> (r: Tbox)
        ensures
            forall|x: int, p: int| 0 <= x < 256 && 0 <= p < 16 ==> #[trigger] r.entry(x, p) == sbox_table(sbox)[x] ^ b.0[p],
    {
        let mut t = Tbox::zero();
        let mut x: usize = 0;
        while x < 256
            invariant
                x <= 256,
                forall|y: int, p: int| 0 <= y < x && 0 <= p < 16 ==> #[trigger] t.entry(y, p) == sbox_table(sbox)[y] ^ b.0[p],
            decreases 256 - x,
        {
            let mut st = State::from_x(X(x as u8));
            sub_bytes(sbox, &mut st);
            let ghost st1 = st;
            add_round_key(&mut st, b);
            let ghost before = t;
            t.0.0[x] = st;
            proof {
                assert forall|y: int, p: int| 0 <= y < x + 1 && 0 <= p < 16 implies #[trigger] t.entry(y, p) == sbox_table(sbox)[y] ^ b.0[p] by {
                    if y != x {
                        assert(t.0.0[y] == before.0.0[y]);
                        assert(t.entry(y, p) == before.entry(y, p));
                    } else {
                        assert(t.0.0[y] == st);
                        assert(st.0[p] == st1.0[p] ^ b.0[p]);
                        assert(st1.0[p] == sbox_table(sbox)[x as int]);
                    }
                }
            }
            x += 1;
        }
        t
    }

    fn from_round_keys_inv<S: SBox + Copy>(inv_sbox: S, round_keys: &RoundKeys<NRM1>) -> (r: Self)
        requires
            NRM1 >= 1,
        ensures
            r.inverse_spec(sbox_table(inv_sbox), *round_keys),
    {
        let (a, b) = round_keys.last;
        let mut tboxes: RIArr<Tbox, NRM1> = RIArr([Tbox::zero(); NRM1]);
        let mut first = Self::tbox_shifted(inv_sbox, &b, true);
        let mut x: usize = 0;
        while x < 256
            invariant
                x <= 256,
                forall|y: int, p: int| 0 <= y < x && 0 <= p < 16 ==> #[trigger] first.entry(y, p) == sbox_table(inv_sbox)[(y as u8
                    ^ b.0[inv_shift_rows_src(p as nat) as int]) as int] ^ a.0[p],
                forall|y: int, p: int| x <= y < 256 && 0 <= p < 16 ==> #[trigger] first.entry(y, p) == sbox_table(inv_sbox)[(y as u8
                    ^ b.0[inv_shift_rows_src(p as nat) as int]) as int],
            decreases 256 - x,
        {
            let ghost before = first;
            let mut st = first.0.0[x];
            add_round_key(&mut st, &a);
            first.0.0[x] = st;
            proof {
                assert forall|p: int| 0 <= p < 16 implies #[trigger] first.entry(x as int, p) == before.entry(x as int, p) ^ a.0[p] by {
                    assert(first.0.0[x as int] == st);
                    assert(st.0[p] == before.0.0[x as int].0[p] ^ a.0[p]);
                }
                assert forall|y: int, p: int| 0 <= y < 256 && y != x && 0 <= p < 16 implies #[trigger] first.entry(y, p) == before.entry(y, p) by {
                    assert(first.0.0[y] == before.0.0[y]);
                }
            }
            x += 1;
        }
        tboxes.0[0] = first;
        let mut i: usize = 1;
        while i < NRM1
            invariant
                1 <= i <= NRM1,
                forall|y: int, p: int| 0 <= y < 256 && 0 <= p < 16 ==> #[trigger] tboxes.0[0].entry(y, p) == sbox_table(inv_sbox)[(y as u8
                    ^ b.0[inv_shift_rows_src(p as nat) as int]) as int] ^ a.0[p],
                forall|r: int, y: int, p: int| 1 <= r < i && 0 <= y < 256 && 0 <= p < 16 ==> #[trigger] tboxes.0[r].entry(y, p)
                    == sbox_table(inv_sbox)[y] ^ round_keys.rounds.0[NRM1 - r].0[p],
                a == round_keys.last.0,
                b == round_keys.last.1,
            decreases NRM1 - i,
        {
            tboxes.0[i] = Self::tbox_plain(inv_sbox, &round_keys.rounds.0[NRM1 - i]);
            i += 1;
        }
        let last = Self::tbox_plain(inv_sbox, &round_keys.rounds.0[0]);
        Tboxes { tboxes, last }
    }

    fn from_round_keys_forward<S: SBox + Copy>(sbox: S, round_keys: &RoundKeys<NRM1>) -> (r: Self)
        ensures
            r.forward_spec(sbox_table(sbox), *round_keys),
    {
        let mut tboxes: RIArr<Tbox, NRM1> = RIArr([Tbox::zero(); NRM1]);
        let mut r: usize = 0;
        while r < NRM1
            invariant
                r <= NRM1,
                forall|r2: int, x: int, p: int|
                    0 <= r2 < r && 0 <= x < 256 && 0 <= p < 16 ==> #[trigger] tboxes.0[r2].entry(x, p) == sbox_table(sbox)[(x as u8
                        ^ round_keys.rounds.0[r2].0[shift_rows_src(p as nat) as int]) as int],
            decreases NRM1 - r,
        {
            tboxes.0[r] = Self::tbox_shifted(sbox, &round_keys.rounds.0[r], false);
            r += 1;
        }
        let (a, b) = round_keys.last;
        let mut last = Self::tbox_shifted(sbox, &a, false);
        let mut x: usize = 0;
        while x < 256
            invariant
                x <= 256,
                forall|y: int, p: int| 0 <= y < x && 0 <= p < 16 ==> #[trigger] last.entry(y, p) == sbox_table(sbox)[(y as u8
                    ^ a.0[shift_rows_src(p as nat) as int]) as int] ^ b.0[p],
                forall|y: int, p: int| x <= y < 256 && 0 <= p < 16 ==> #[trigger] last.entry(y, p) == sbox_table(sbox)[(y as u8
                    ^ a.0[shift_rows_src(p as nat) as int]) as int],
            decreases 256 - x,
        {
            let ghost before = last;
            let mut st = last.0.0[x];
            add_round_key(&mut st, &b);
            last.0.0[x] = st;
            proof {
                assert forall|p: int| 0 <= p < 16 implies #[trigger] last.entry(x as int, p) == before.entry(x as int, p) ^ b.0[p] by {
                    assert(last.0.0[x as int] == st);
                    assert(st.0[p] == before.0.0[x as int].0[p] ^ b.0[p]);
                }
                assert forall|y: int, p: int| 0 <= y < 256 && y != x && 0 <= p < 16 implies #[trigger] last.entry(y, p) == before.entry(y, p) by {
                    assert(last.0.0[y] == before.0.0[y]);
                }
            }
            x += 1;
        }
        Tboxes { tboxes, last }
    }

    /// Entry `x` at position `ij` of the T-box of round `r`.
    pub fn get(&self, r: RI, x: X, ij: SPos) -> (v: X)
        requires
            r.0 < NRM1,
        ensures
            v.0 == self.tboxes.0[r.0 as int].entry(x.0 as int, ij.idx() as int),
    {
        self.tboxes.0[r.0].0.0[x.0 as usize].get(ij)
    }
}

} // verus!
