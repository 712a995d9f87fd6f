//! Dual ciphers that change from round to round: every round, or every column
//! of every round, computes in the representation of its own dual cipher,
//! and the tables convert between consecutive representations.

use vstd::prelude::*;

use crate::aes::{dual_coeffs, inverse_table};
use crate::consts::{inv_shift_rows_src, shift_rows_src};
use crate::key::{dual_key_words, rot_word_spec, sub_word_spec, xor_bytes, Key, RoundKeys};
use crate::dual::{compute_rcon, rcon_spec};
use crate::{rot_word, sub_word, Word, RoundKey, State};
use crate::aes::{add_round_key, add_shifted_round_key};
use crate::consts::{inv_shift_rows_tab, shift_rows_tab};
use crate::dual::dual_q_rows;
use crate::mat::rows_image;
use crate::key::expand_nonstandard_keys;
use crate::sbox::{sbox_table, PrecomputedSBox, SBox};
use crate::tbox::Tboxes;
use crate::tables::Tables;
use crate::tybox::WorkRounds;
use crate::dual::Q;
use crate::dual::{delta_image, irreducible_list, standard_dual, Dual};
use crate::mat::MatGF2;
use crate::tbox::Tbox;
use crate::ty::Ty;
use crate::tybox::Work;
use crate::xor::ShiftRowsBijection;
use crate::{RIArr, SPos, XArr, Row, X, RI};

verus! {

/// The dual cipher of every round but the last, and of the last.
#[derive(Debug)]
pub struct KarroumiConfig<const NRM1: usize> {
    pub rounds: RIArr<Dual, NRM1>,
    pub last: Dual,
}

impl<const NRM1: usize> KarroumiConfig<NRM1> {
    /// Every dual cipher is usable and its map from the standard field invertible.
    pub open spec fn wf(self) -> bool {
        &&& forall|r: int| 0 <= r < NRM1 ==> (#[trigger] self.rounds.0[r]).wf() && self.rounds.0[r].invertible()
        &&& self.last.wf()
        &&& self.last.invertible()
    }

    /// Whether every round names a valid dual cipher.
    pub fn is_valid(&self) -> (r: bool)
        ensures
            r == self.wf(),
    {
        let mut i: usize = 0;
        while i < NRM1
            invariant
                i <= NRM1,
                forall|j: int| 0 <= j < i ==> (#[trigger] self.rounds.0[j]).wf() && self.rounds.0[j].invertible(),
            decreases NRM1 - i,
        {
            if !self.rounds.0[i].is_valid() {
                return false;
            }
            i += 1;
        }
        self.last.is_valid()
    }

    /// The dual cipher of round `r`: the last one from `NRM1` on.
    pub open spec fn round_spec(self, r: int) -> Dual {
        if r < NRM1 {
            self.rounds.0[r]
        } else {
            self.last
        }
    }

    pub fn new(rounds: RIArr<Dual, NRM1>, last: Dual) -> (r: Self)
        ensures
            r.rounds == rounds,
            r.last == last,
    {
        Self { rounds, last }
    }

    /// Every dual cipher picked at random.
    pub fn random(rng: &mut rand::rngs::ThreadRng) -> (r: Self)
        ensures
            forall|i: int| 0 <= i < NRM1 ==> irreducible_list().contains((#[trigger] r.rounds.0[i]).poly.0) && r.rounds.0[i].square_power <= 7,
            irreducible_list().contains(r.last.poly.0),
            r.last.square_power <= 7,
    {
        let mut rounds = RIArr([Dual::standard(); NRM1]);
        let mut i: usize = 0;
        while i < NRM1
            invariant
                i <= NRM1,
                forall|j: int| 0 <= j < i ==> irreducible_list().contains((#[trigger] rounds.0[j]).poly.0) && rounds.0[j].square_power <= 7,
            decreases NRM1 - i,
        {
            rounds.0[i] = Dual::random(rng);
            i += 1;
        }
        let last = Dual::random(rng);
        Self { rounds, last }
    }

    /// AES itself in every round.
    pub fn standard() -> (r: Self)
        ensures
            forall|i: int| 0 <= i < NRM1 ==> #[trigger] r.rounds.0[i] == standard_dual(),
            r.last == standard_dual(),
            r.wf(),
    {
        Self { rounds: RIArr([Dual::standard(); NRM1]), last: Dual::standard() }
    }

    pub fn round_config(&self, r: RI) -> (d: Dual)
        ensures
            d == self.round_spec(r.0 as int),
    {
        if r.0 < NRM1 {
            self.rounds.0[r.0]
        } else {
            self.last
        }
    }
}

/// A change of representation of bytes, as a matrix over GF(2).
#[derive(Clone, Copy)]
pub struct Delta(pub MatGF2<8>);

impl Delta {
    pub fn new(mat: MatGF2<8>) -> (r: Self)
        ensures
            r.0 == mat,
    {
        Self(mat)
    }

    pub fn apply(&self, x: X) -> (r: X)
        ensures
            r.0 == self.0.image(x.0),
    {
        X(self.0.apply(x.0))
    }
}

/// The dual cipher of each of the four columns of the state.
#[derive(Debug, Clone, Copy)]
pub struct Dual4(pub [Dual; 4]);

/// A change of representation for each position of the state.
pub struct Delta4(pub [Delta; 16]);

impl Dual4 {
    /// Every column's dual cipher is usable and invertible.
    pub open spec fn wf(self) -> bool {
        forall|k: int| 0 <= k < 4 ==> (#[trigger] self.0[k]).wf() && self.0[k].invertible()
    }

    /// Whether every column names a valid dual cipher.
    pub fn is_valid(&self) -> (r: bool)
        ensures
            r == self.wf(),
    {
        let mut k: usize = 0;
        while k < 4
            invariant
                k <= 4,
                forall|j: int| 0 <= j < k ==> (#[trigger] self.0[j]).wf() && self.0[j].invertible(),
            decreases 4 - k,
        {
            if !self.0[k].is_valid() {
                return false;
            }
            k += 1;
        }
        true
    }

    /// The same dual cipher in every column.
    pub fn uniform(dual: Dual) -> (r: Self)
        ensures
            forall|k: int| 0 <= k < 4 ==> #[trigger] r.0[k] == dual,
    {
        Self([dual, dual, dual, dual])
    }

    /// AES itself in every column.
    pub fn standard() -> (r: Self)
        ensures
            forall|k: int| 0 <= k < 4 ==> #[trigger] r.0[k] == standard_dual(),
            r.wf(),
    {
        Self::uniform(Dual::standard())
    }

    /// Every column's dual cipher picked at random.
    pub fn random(rng: &mut rand::rngs::ThreadRng) -> (r: Self)
        ensures
            forall|k: int| 0 <= k < 4 ==> irreducible_list().contains((#[trigger] r.0[k]).poly.0) && r.0[k].square_power <= 7,
    {
        let a = Dual::random(rng);
        let b = Dual::random(rng);
        let c = Dual::random(rng);
        let d = Dual::random(rng);
        Self([a, b, c, d])
    }
}

impl Dual4 {
    /// The change of representation at each position from the dual cipher
    /// of the column that `shift_rows` takes the byte from to that of the
    /// column of the position.
    pub fn delta(&self, curr: Dual4, shift_rows: &ShiftRowsBijection) -> (r: Delta4)
        requires
            shift_rows.wf(),
            self.wf(),
            curr.wf(),
        ensures
            forall|p: int, x: u8| 0 <= p < 16 ==> #[trigger] r.0[p].0.image(x) == delta_image(
                self.0[(shift_rows.map_spec(p as nat) / 4) as int],
                curr.0[p / 4],
                x,
            ),
    {
        let mut out = [Delta(MatGF2::identity()); 16];
        let mut i: usize = 0;
        while i < 16
            invariant
                i <= 16,
                shift_rows.wf(),
                self.wf(),
                curr.wf(),
                forall|p: int, x: u8| 0 <= p < i ==> #[trigger] out[p].0.image(x) == delta_image(
                    self.0[(shift_rows.map_spec(p as nat) / 4) as int],
                    curr.0[p / 4],
                    x,
                ),
            decreases 16 - i,
        {
            let pos = SPos::from_index(i);
            let column = pos.column();
            let prev_column = shift_rows.map(pos).column();
            out[i] = self.0[prev_column.as_index()].delta(curr.0[column.as_index()]);
            i += 1;
        }
        Delta4(out)
    }

    /// The change of representation at each position from the dual cipher
    /// of its column to that of `to`.
    pub fn delta_inv(&self, to: Dual4) -> (r: Delta4)
        requires
            self.wf(),
            to.wf(),
        ensures
            forall|p: int, x: u8| 0 <= p < 16 ==> #[trigger] r.0[p].0.image(x) == delta_image(self.0[p / 4], to.0[p / 4], x),
    {
        let mut out = [Delta(MatGF2::identity()); 16];
        let mut i: usize = 0;
        while i < 16
            invariant
                i <= 16,
                self.wf(),
                to.wf(),
                forall|p: int, x: u8| 0 <= p < i ==> #[trigger] out[p].0.image(x) == delta_image(self.0[p / 4], to.0[p / 4], x),
            decreases 16 - i,
        {
            let column = SPos::from_index(i).column();
            out[i] = self.0[column.as_index()].delta(to.0[column.as_index()]);
            i += 1;
        }
        Delta4(out)
    }
}

/// The dual ciphers of the columns of every round but the last, and of the last.
#[derive(Debug)]
pub struct KarroumiConfig4<const NRM1: usize> {
    pub rounds: RIArr<Dual4, NRM1>,
    pub last: Dual4,
}

impl<const NRM1: usize> KarroumiConfig4<NRM1> {
    /// Every dual cipher is usable and invertible.
    pub open spec fn wf(self) -> bool {
        &&& forall|r: int| 0 <= r < NRM1 ==> (#[trigger] self.rounds.0[r]).wf()
        &&& self.last.wf()
    }

    /// Whether every column of every round names a valid dual cipher.
    pub fn is_valid(&self) -> (r: bool)
        ensures
            r == self.wf(),
    {
        let mut i: usize = 0;
        while i < NRM1
            invariant
                i <= NRM1,
                forall|j: int| 0 <= j < i ==> (#[trigger] self.rounds.0[j]).wf(),
            decreases NRM1 - i,
        {
            if !self.rounds.0[i].is_valid() {
                return false;
            }
            i += 1;
        }
        self.last.is_valid()
    }

    /// The dual ciphers of round `r`: the last ones from `NRM1` on.
    pub open spec fn round_spec(self, r: int) -> Dual4 {
        if r < NRM1 {
            self.rounds.0[r]
        } else {
            self.last
        }
    }

    pub fn new(rounds: RIArr<Dual4, NRM1>, last: Dual4) -> (r: Self)
        ensures
            r.rounds == rounds,
            r.last == last,
    {
        Self { rounds, last }
    }

    /// Every dual cipher picked at random.
    pub fn random(rng: &mut rand::rngs::ThreadRng) -> (r: Self)
        ensures
            forall|i: int, k: int| 0 <= i < NRM1 && 0 <= k < 4 ==> irreducible_list().contains((#[trigger] r.rounds.0[i].0[k]).poly.0)
                && r.rounds.0[i].0[k].square_power <= 7,
            forall|k: int| 0 <= k < 4 ==> irreducible_list().contains((#[trigger] r.last.0[k]).poly.0) && r.last.0[k].square_power <= 7,
    {
        let mut rounds = RIArr([Dual4::uniform(Dual::standard()); NRM1]);
        let mut i: usize = 0;
        while i < NRM1
            invariant
                i <= NRM1,
                forall|j: int, k: int| 0 <= j < i && 0 <= k < 4 ==> irreducible_list().contains((#[trigger] rounds.0[j].0[k]).poly.0)
                    && rounds.0[j].0[k].square_power <= 7,
            decreases NRM1 - i,
        {
            rounds.0[i] = Dual4::random(rng);
            i += 1;
        }
        let last = Dual4::random(rng);
        Self { rounds, last }
    }

    /// AES itself in every column of every round.
    pub fn standard() -> (r: Self)
        ensures
            forall|i: int, k: int| 0 <= i < NRM1 && 0 <= k < 4 ==> #[trigger] r.rounds.0[i].0[k] == standard_dual(),
            forall|k: int| 0 <= k < 4 ==> #[trigger] r.last.0[k] == standard_dual(),
            r.wf(),
    {
        let s = Dual4::standard();
        Self { rounds: RIArr([s; NRM1]), last: s }
    }

    pub fn round_config(&self, r: RI) -> (d: Dual4)
        ensures
            d == self.round_spec(r.0 as int),
    {
        if r.0 < NRM1 {
            self.rounds.0[r.0]
        } else {
            self.last
        }
    }
}

impl Tbox {
    /// Precomposes every T-box with `delta`: the entry for `x` becomes the old
    /// entry for `delta(x)`.
    pub fn apply_delta(&mut self, delta: Delta)
        ensures
            forall|x: int, p: int| 0 <= x < 256 && 0 <= p < 16 ==> #[trigger] final(self).entry(x, p) == old(self).entry(delta.0.image(x as u8) as int, p),
    {
        let old_t = self.0;
        let mut x: usize = 0;
        while x < 256
            invariant
                x <= 256,
                forall|y: int, p: int| 0 <= y < x && 0 <= p < 16 ==> #[trigger] self.entry(y, p) == old(self).entry(delta.0.image(y as u8) as int, p),
                old_t == old(self).0,
            decreases 256 - x,
        {
            let d = delta.apply(X(x as u8));
            let ghost before = *self;
            self.0.0[x] = old_t.0[d.0 as usize];
            proof {
                assert forall|y: int, p: int| 0 <= y < x + 1 && 0 <= p < 16 implies #[trigger] self.entry(y, p) == old(self).entry(
                    delta.0.image(y as u8) as int,
                    p,
                ) by {
                    if y != x {
                        assert(self.0.0[y] == before.0.0[y]);
                        assert(self.entry(y, p) == before.entry(y, p));
                    } else {
                        assert(self.0.0[y] == old_t.0[d.0 as int]);
                    }
                }
            }
            x += 1;
        }
    }

    /// Maps every entry by `delta`.
    pub fn apply_delta_inv(&mut self, delta: Delta)
        ensures
            forall|x: int, p: int| 0 <= x < 256 && 0 <= p < 16 ==> #[trigger] final(self).entry(x, p) == delta.0.image(old(self).entry(x, p)),
    {
        let mut x: usize = 0;
        while x < 256
            invariant
                x <= 256,
                forall|y: int, p: int| 0 <= y < x && 0 <= p < 16 ==> #[trigger] self.entry(y, p) == delta.0.image(old(self).entry(y, p)),
                forall|y: int| x <= y < 256 ==> #[trigger] self.0.0[y] == old(self).0.0[y],
            decreases 256 - x,
        {
            let mut st = self.0.0[x];
            let ghost st0 = st;
            let mut p: usize = 0;
            while p < 16
                invariant
                    p <= 16,
                    forall|q: int| 0 <= q < p ==> #[trigger] st.0[q] == delta.0.image(st0.0[q]),
                    forall|q: int| p <= q < 16 ==> #[trigger] st.0[q] == st0.0[q],
                decreases 16 - p,
            {
                st.0[p] = delta.apply(X(st.0[p])).0;
                p += 1;
            }
            let ghost before = *self;
            self.0.0[x] = st;
            proof {
                assert forall|y: int, p: int| 0 <= y < x + 1 && 0 <= p < 16 implies #[trigger] self.entry(y, p) == delta.0.image(
                    old(self).entry(y, p),
                ) by {
                    if y != x {
                        assert(self.0.0[y] == before.0.0[y]);
                        assert(self.entry(y, p) == before.entry(y, p));
                    } else {
                        assert(self.0.0[y] == st);
                        assert(st0 == old(self).0.0[y]);
                    }
                }
                assert forall|y: int| x + 1 <= y < 256 implies #[trigger] self.0.0[y] == old(self).0.0[y] by {
                    assert(self.0.0[y] == before.0.0[y]);
                }
            }
            x += 1;
        }
    }

    /// Precomposes the T-box of each position with the delta of the position.
    pub fn apply_delta4(&mut self, deltas: Delta4)
        ensures
            forall|x: int, p: int| 0 <= x < 256 && 0 <= p < 16 ==> #[trigger] final(self).entry(x, p) == old(self).entry(deltas.0[p].0.image(x as u8) as int, p),
    {
        let old_t = self.0;
        let mut x: usize = 0;
        while x < 256
            invariant
                x <= 256,
                forall|y: int, p: int| 0 <= y < x && 0 <= p < 16 ==> #[trigger] self.entry(y, p) == old(self).entry(deltas.0[p].0.image(y as u8) as int, p),
                old_t == old(self).0,
            decreases 256 - x,
        {
            let mut st = self.0.0[x];
            let mut p: usize = 0;
            while p < 16
                invariant
                    p <= 16,
                    x < 256,
                    old_t == old(self).0,
                    forall|q: int| 0 <= q < p ==> #[trigger] st.0[q] == old(self).entry(deltas.0[q].0.image(x as u8) as int, q),
                decreases 16 - p,
            {
                let d = deltas.0[p].apply(X(x as u8));
                st.0[p] = old_t.0[d.0 as usize].0[p];
                p += 1;
            }
            let ghost before = *self;
            self.0.0[x] = st;
            proof {
                assert forall|y: int, p: int| 0 <= y < x + 1 && 0 <= p < 16 implies #[trigger] self.entry(y, p) == old(self).entry(
                    deltas.0[p].0.image(y as u8) as int,
                    p,
                ) by {
                    if y != x {
                        assert(self.0.0[y] == before.0.0[y]);
                        assert(self.entry(y, p) == before.entry(y, p));
                    } else {
                        assert(self.0.0[y] == st);
                    }
                }
            }
            x += 1;
        }
    }

    /// Maps the entries of each position by the delta of the position.
    pub fn apply_delta4_inv(&mut self, deltas: Delta4)
        ensures
            forall|x: int, p: int| 0 <= x < 256 && 0 <= p < 16 ==> #[trigger] final(self).entry(x, p) == deltas.0[p].0.image(old(self).entry(x, p)),
    {
        let mut x: usize = 0;
        while x < 256
            invariant
                x <= 256,
                forall|y: int, p: int| 0 <= y < x && 0 <= p < 16 ==> #[trigger] self.entry(y, p) == deltas.0[p].0.image(old(self).entry(y, p)),
                forall|y: int| x <= y < 256 ==> #[trigger] self.0.0[y] == old(self).0.0[y],
            decreases 256 - x,
        {
            let mut st = self.0.0[x];
            let ghost st0 = st;
            let mut p: usize = 0;
            while p < 16
                invariant
                    p <= 16,
                    forall|q: int| 0 <= q < p ==> #[trigger] st.0[q] == deltas.0[q].0.image(st0.0[q]),
                    forall|q: int| p <= q < 16 ==> #[trigger] st.0[q] == st0.0[q],
                decreases 16 - p,
            {
                st.0[p] = deltas.0[p].apply(X(st.0[p])).0;
                p += 1;
            }
            let ghost before = *self;
            self.0.0[x] = st;
            proof {
                assert forall|y: int, p: int| 0 <= y < x + 1 && 0 <= p < 16 implies #[trigger] self.entry(y, p) == deltas.0[p].0.image(
                    old(self).entry(y, p),
                ) by {
                    if y != x {
                        assert(self.0.0[y] == before.0.0[y]);
                        assert(self.entry(y, p) == before.entry(y, p));
                    } else {
                        assert(self.0.0[y] == st);
                        assert(st0 == old(self).0.0[y]);
                    }
                }
                assert forall|y: int| x + 1 <= y < 256 implies #[trigger] self.0.0[y] == old(self).0.0[y] by {
                    assert(self.0.0[y] == before.0.0[y]);
                }
            }
            x += 1;
        }
    }
}

impl Work {
    /// Precomposes every table with `delta`: the row for `x` becomes the old
    /// row for `delta(x)`.
    pub fn apply_delta(&mut self, delta: Delta)
        ensures
            forall|p: int, x: int| 0 <= p < 16 && 0 <= x < 256 ==> #[trigger] final(self).0[p].0[x] == old(self).0[p].0[delta.0.image(x as u8) as int],
    {
        let mut i: usize = 0;
        while i < 16
            invariant
                i <= 16,
                forall|p: int, x: int| 0 <= p < i && 0 <= x < 256 ==> #[trigger] self.0[p].0[x] == old(self).0[p].0[delta.0.image(x as u8) as int],
                forall|p: int| i <= p < 16 ==> #[trigger] self.0[p] == old(self).0[p],
            decreases 16 - i,
        {
            let old_t = self.0[i];
            let mut t = old_t;
            let mut x: usize = 0;
            while x < 256
                invariant
                    x <= 256,
                    forall|y: int| 0 <= y < x ==> #[trigger] t.0[y] == old_t.0[delta.0.image(y as u8) as int],
                decreases 256 - x,
            {
                let idx = delta.apply(X(x as u8));
                t.0[x] = old_t.0[idx.0 as usize];
                x += 1;
            }
            self.0[i] = t;
            i += 1;
        }
    }

    /// Precomposes the table of each position with the delta of the position.
    pub fn apply_delta4(&mut self, deltas: Delta4)
        ensures
            forall|p: int, x: int| 0 <= p < 16 && 0 <= x < 256 ==> #[trigger] final(self).0[p].0[x] == old(self).0[p].0[deltas.0[p].0.image(x as u8) as int],
    {
        let mut i: usize = 0;
        while i < 16
            invariant
                i <= 16,
                forall|p: int, x: int| 0 <= p < i && 0 <= x < 256 ==> #[trigger] self.0[p].0[x] == old(self).0[p].0[deltas.0[p].0.image(x as u8) as int],
                forall|p: int| i <= p < 16 ==> #[trigger] self.0[p] == old(self).0[p],
            decreases 16 - i,
        {
            let delta = deltas.0[i];
            let old_t = self.0[i];
            let mut t = old_t;
            let mut x: usize = 0;
            while x < 256
                invariant
                    x <= 256,
                    forall|y: int| 0 <= y < x ==> #[trigger] t.0[y] == old_t.0[delta.0.image(y as u8) as int],
                decreases 256 - x,
            {
                let idx = delta.apply(X(x as u8));
                t.0[x] = old_t.0[idx.0 as usize];
                x += 1;
            }
            self.0[i] = t;
            i += 1;
        }
    }
}

/// The dual cipher whose MixColumns round `r` of encryption, or with `inv`
/// of decryption, computes in.
pub open spec fn ty_dual<const NRM1: usize>(cfg: KarroumiConfig<NRM1>, inv: bool, r: int) -> Dual {
    if inv {
        if r == 0 {
            cfg.last
        } else {
            cfg.rounds.0[NRM1 - r]
        }
    } else {
        cfg.rounds.0[r]
    }
}

/// The MixColumns tables of every round, each in its own dual cipher.
pub struct KarroumiTy<const NRM1: usize>(pub RIArr<Ty, NRM1>);

impl<const NRM1: usize> KarroumiTy<NRM1> {
    pub fn new(inv: bool, config: &KarroumiConfig<NRM1>) -> (r: Self)
        requires
            config.wf(),
        ensures
            forall|rr: int| 0 <= rr < NRM1 ==> (#[trigger] r.0.0[rr]).matches(
                inv,
                dual_coeffs(ty_dual(*config, inv, rr)),
                ty_dual(*config, inv, rr).poly.0,
            ),
    {
        let mut out = RIArr([Ty([[[0u8; 4]; 256]; 4]); NRM1]);
        let mut i: usize = 0;
        while i < NRM1
            invariant
                i <= NRM1,
                config.wf(),
                forall|rr: int| 0 <= rr < i ==> (#[trigger] out.0[rr]).matches(
                    inv,
                    dual_coeffs(ty_dual(*config, inv, rr)),
                    ty_dual(*config, inv, rr).poly.0,
                ),
            decreases NRM1 - i,
        {
            let dual = if inv {
                if i == 0 {
                    config.last
                } else {
                    config.rounds.0[NRM1 - i]
                }
            } else {
                config.rounds.0[i]
            };
            out.0[i] = Ty::new(inv, dual);
            i += 1;
        }
        Self(out)
    }

    pub fn get(&self, r: RI) -> (t: &Ty)
        requires
            r.0 < NRM1,
        ensures
            *t == self.0.0[r.0 as int],
    {
        &self.0.0[r.0]
    }
}

/// The dual cipher of column `k` of round `r` of encryption, or with `inv`
/// of decryption.
pub open spec fn ty_dual4<const NRM1: usize>(cfg: KarroumiConfig4<NRM1>, inv: bool, r: int, k: int) -> Dual {
    if inv {
        if r == 0 {
            cfg.last.0[k]
        } else {
            cfg.rounds.0[NRM1 - r].0[k]
        }
    } else {
        cfg.rounds.0[r].0[k]
    }
}

/// The MixColumns tables of every column of every round, each in its own dual cipher.
pub struct KarroumiTy4<const NRM1: usize>(pub RIArr<[Ty; 4], NRM1>);

impl<const NRM1: usize> KarroumiTy4<NRM1> {
    pub fn new(inv: bool, config: &KarroumiConfig4<NRM1>) -> (r: Self)
        requires
            config.wf(),
        ensures
            forall|rr: int, k: int| 0 <= rr < NRM1 && 0 <= k < 4 ==> (#[trigger] r.0.0[rr][k]).matches(
                inv,
                dual_coeffs(ty_dual4(*config, inv, rr, k)),
                ty_dual4(*config, inv, rr, k).poly.0,
            ),
    {
        let zero = Ty([[[0u8; 4]; 256]; 4]);
        let mut out = RIArr([[zero; 4]; NRM1]);
        let mut i: usize = 0;
        while i < NRM1
            invariant
                i <= NRM1,
                config.wf(),
                forall|rr: int, k: int| 0 <= rr < i && 0 <= k < 4 ==> (#[trigger] out.0[rr][k]).matches(
                    inv,
                    dual_coeffs(ty_dual4(*config, inv, rr, k)),
                    ty_dual4(*config, inv, rr, k).poly.0,
                ),
            decreases NRM1 - i,
        {
            let enc_config = if inv {
                if i == 0 {
                    config.last
                } else {
                    config.rounds.0[NRM1 - i]
                }
            } else {
                config.rounds.0[i]
            };
            let mut column_tys = [zero; 4];
            let mut k: usize = 0;
            while k < 4
                invariant
                    k <= 4,
                    i < NRM1,
                    config.wf(),
                    forall|kk: int| 0 <= kk < 4 ==> #[trigger] enc_config.0[kk] == ty_dual4(*config, inv, i as int, kk),
                    forall|kk: int| 0 <= kk < k ==> (#[trigger] column_tys[kk]).matches(
                        inv,
                        dual_coeffs(ty_dual4(*config, inv, i as int, kk)),
                        ty_dual4(*config, inv, i as int, kk).poly.0,
                    ),
                decreases 4 - k,
            {
                column_tys[k] = Ty::new(inv, enc_config.0[k]);
                k += 1;
            }
            out.0[i] = column_tys;
            i += 1;
        }
        Self(out)
    }

    pub fn get(&self, r: RI, column: crate::SColumn) -> (t: &Ty)
        requires
            r.0 < NRM1,
        ensures
            *t == self.0.0[r.0 as int][column.0.idx() as int],
    {
        &self.0.0[r.0][column.as_index()]
    }
}

/// `v` is the substitution of `y` by an S-box that `f` returns for `d`.
pub open spec fn sub_by<S: SBox, F: Fn(Dual) -> S>(f: F, d: Dual, y: u8, v: u8) -> bool {
    exists|s: S| #[trigger] call_ensures(f, (d,), s) && sbox_table(s)[y as int] == v
}

/// `v` is the substitution of `y` by an S-box that `f` returns for `d`,
/// plus `k`.
pub open spec fn sub_xor_by<S: SBox, F: Fn(Dual) -> S>(f: F, d: Dual, y: u8, k: u8, v: u8) -> bool {
    exists|s: S| #[trigger] call_ensures(f, (d,), s) && (sbox_table(s)[y as int] ^ k) == v
}

/// `v` is the inverse substitution of `y` by an S-box that `f` returns for
/// `d`, plus `k`.
pub open spec fn inv_sub_xor_by<S: SBox, F: Fn(Dual) -> S>(f: F, d: Dual, y: u8, k: u8, v: u8) -> bool {
    exists|s: S| #[trigger] call_ensures(f, (d,), s) && (inverse_table(sbox_table(s))[y as int] ^ k) == v
}

impl<const NRM1: usize> KarroumiConfig<NRM1> {
    /// `f` may be called with every dual cipher of the configuration.
    pub open spec fn accepted_by<S, F: Fn(Dual) -> S>(self, f: F) -> bool {
        &&& forall|r: int| 0 <= r < NRM1 ==> call_requires(f, (#[trigger] self.rounds.0[r],))
        &&& call_requires(f, (self.last,))
    }
}

impl<const NRM1: usize> Tboxes<NRM1> {
    /// The T-boxes of encryption where round `r` substitutes with an S-box
    /// that `f` returns for its dual cipher.
    pub open spec fn karroumi_forward_spec<S: SBox, F: Fn(Dual) -> S>(self, f: F, rk: RoundKeys<NRM1>, cfg: KarroumiConfig<NRM1>) -> bool {
        &&& forall|r: int, x: int, p: int|
            0 <= r < NRM1 && 0 <= x < 256 && 0 <= p < 16 ==> sub_by(
                f,
                cfg.rounds.0[r],
                x as u8 ^ rk.rounds.0[r].0[shift_rows_src(p as nat) as int],
                #[trigger] self.tboxes.0[r].entry(x, p),
            )
        &&& forall|x: int, p: int|
            0 <= x < 256 && 0 <= p < 16 ==> sub_xor_by(
                f,
                cfg.last,
                x as u8 ^ rk.last.0.0[shift_rows_src(p as nat) as int],
                rk.last.1.0[p],
                #[trigger] self.last.entry(x, p),
            )
    }

    /// The T-boxes of decryption, in the order in which decryption uses the
    /// round keys, each inverting an S-box that `f` returns for the dual
    /// cipher of the round it undoes.
    pub open spec fn karroumi_inverse_spec<S: SBox, F: Fn(Dual) -> S>(self, f: F, rk: RoundKeys<NRM1>, cfg: KarroumiConfig<NRM1>) -> bool {
        &&& forall|x: int, p: int|
            0 <= x < 256 && 0 <= p < 16 ==> inv_sub_xor_by(
                f,
                cfg.last,
                x as u8 ^ rk.last.1.0[inv_shift_rows_src(p as nat) as int],
                rk.last.0.0[p],
                #[trigger] self.tboxes.0[0].entry(x, p),
            )
        &&& forall|r: int, x: int, p: int|
            1 <= r < NRM1 && 0 <= x < 256 && 0 <= p < 16 ==> inv_sub_xor_by(
                f,
                cfg.rounds.0[NRM1 - r],
                x as u8,
                rk.rounds.0[NRM1 - r].0[p],
                #[trigger] self.tboxes.0[r].entry(x, p),
            )
        &&& forall|x: int, p: int|
            0 <= x < 256 && 0 <= p < 16 ==> inv_sub_xor_by(
                f,
                cfg.rounds.0[0],
                x as u8,
                rk.rounds.0[0].0[p],
                #[trigger] self.last.entry(x, p),
            )
    }

    /// The T-boxes of encryption, or with `inv` of decryption, where every
    /// round substitutes with an S-box that `sbox_fn` returns for its own
    /// dual cipher.
    pub fn from_karroumi_round_keys<S: SBox + Copy, F: Fn(Dual) -> S>(
        sbox_fn: &F,
        round_keys: &RoundKeys<NRM1>,
        inv: bool,
        config: &KarroumiConfig<NRM1>,
    ) -> (r: Self)
        requires
            NRM1 >= 1,
            config.accepted_by(*sbox_fn),
        ensures
            !inv ==> r.karroumi_forward_spec(*sbox_fn, *round_keys, *config),
            inv ==> r.karroumi_inverse_spec(*sbox_fn, *round_keys, *config),
    {
        if inv {
            Self::from_karroumi_round_keys_inv(sbox_fn, round_keys, config)
        } else {
            Self::from_karroumi_round_keys_forward(sbox_fn, round_keys, config)
        }
    }

    fn from_karroumi_round_keys_forward<S: SBox + Copy, F: Fn(Dual) -> S>(
        sbox_fn: &F,
        round_keys: &RoundKeys<NRM1>,
        config: &KarroumiConfig<NRM1>,
    ) -> (r: Self)
        requires
            config.accepted_by(*sbox_fn),
        ensures
            r.karroumi_forward_spec(*sbox_fn, *round_keys, *config),
    {
        let mut tboxes: RIArr<Tbox, NRM1> = RIArr([Tbox::zero(); NRM1]);
        let mut r: usize = 0;
        while r < NRM1
            invariant
                r <= NRM1,
                config.accepted_by(*sbox_fn),
                forall|r2: int, x: int, p: int|
                    0 <= r2 < r && 0 <= x < 256 && 0 <= p < 16 ==> sub_by(
                        *sbox_fn,
                        config.rounds.0[r2],
                        x as u8 ^ round_keys.rounds.0[r2].0[shift_rows_src(p as nat) as int],
                        #[trigger] tboxes.0[r2].entry(x, p),
                    ),
            decreases NRM1 - r,
        {
            let d = config.rounds.0[r];
            let sbox = sbox_fn(d);
            let t = Self::tbox_shifted(sbox, &round_keys.rounds.0[r], false);
            let ghost before = tboxes;
            tboxes.0[r] = t;
            proof {
                assert forall|r2: int, x: int, p: int|
                    0 <= r2 < r + 1 && 0 <= x < 256 && 0 <= p < 16 implies sub_by(
                    *sbox_fn,
                    config.rounds.0[r2],
                    x as u8 ^ round_keys.rounds.0[r2].0[shift_rows_src(p as nat) as int],
                    #[trigger] tboxes.0[r2].entry(x, p),
                ) by {
                    if r2 == r {
                        assert(tboxes.0[r2] == t);
                        assert(call_ensures(*sbox_fn, (d,), sbox));
                    } else {
                        assert(tboxes.0[r2] == before.0[r2]);
                    }
                }
            }
            r += 1;
        }
        let (a, b) = round_keys.last;
        let d = config.last;
        let sbox = sbox_fn(d);
        let mut last = Self::tbox_shifted(sbox, &a, false);
        last.add_key(&b);
        proof {
            assert(call_ensures(*sbox_fn, (d,), sbox));
        }
        Tboxes::new(tboxes, last)
    }

    fn from_karroumi_round_keys_inv<S: SBox + Copy, F: Fn(Dual) -> S>(
        sbox_fn: &F,
        round_keys: &RoundKeys<NRM1>,
        config: &KarroumiConfig<NRM1>,
    ) -> (r: Self)
        requires
            NRM1 >= 1,
            config.accepted_by(*sbox_fn),
        ensures
            r.karroumi_inverse_spec(*sbox_fn, *round_keys, *config),
    {
        let mut tboxes: RIArr<Tbox, NRM1> = RIArr([Tbox::zero(); NRM1]);
        let (a, b) = round_keys.last;
        let d = config.last;
        let sbox = sbox_fn(d);
        let inv_sbox = PrecomputedSBox::inversed(&sbox);
        proof {
            assert(sbox_table(inv_sbox) =~= inverse_table(sbox_table(sbox)));
            assert(call_ensures(*sbox_fn, (d,), sbox));
        }
        let mut first = Self::tbox_shifted(inv_sbox, &b, true);
        first.add_key(&a);
        tboxes.0[0] = first;
        let mut i: usize = 1;
        while i < NRM1
            invariant
                1 <= i <= NRM1,
                config.accepted_by(*sbox_fn),
                forall|x: int, p: int|
                    0 <= x < 256 && 0 <= p < 16 ==> inv_sub_xor_by(
                        *sbox_fn,
                        config.last,
                        x as u8 ^ round_keys.last.1.0[inv_shift_rows_src(p as nat) as int],
                        round_keys.last.0.0[p],
                        #[trigger] tboxes.0[0].entry(x, p),
                    ),
                forall|r: int, x: int, p: int|
                    1 <= r < i && 0 <= x < 256 && 0 <= p < 16 ==> inv_sub_xor_by(
                        *sbox_fn,
                        config.rounds.0[NRM1 - r],
                        x as u8,
                        round_keys.rounds.0[NRM1 - r].0[p],
                        #[trigger] tboxes.0[r].entry(x, p),
                    ),
            decreases NRM1 - i,
        {
            let enc_round = NRM1 - i;
            let d = config.rounds.0[enc_round];
            let sbox = sbox_fn(d);
            let inv_sbox = PrecomputedSBox::inversed(&sbox);
            let t = Self::tbox_plain(inv_sbox, &round_keys.rounds.0[enc_round]);
            let ghost before = tboxes;
            tboxes.0[i] = t;
            proof {
                assert(sbox_table(inv_sbox) =~= inverse_table(sbox_table(sbox)));
                assert(call_ensures(*sbox_fn, (d,), sbox));
                assert(tboxes.0[0] == before.0[0]);
                assert forall|r: int, x: int, p: int|
                    1 <= r < i + 1 && 0 <= x < 256 && 0 <= p < 16 implies inv_sub_xor_by(
                    *sbox_fn,
                    config.rounds.0[NRM1 - r],
                    x as u8,
                    round_keys.rounds.0[NRM1 - r].0[p],
                    #[trigger] tboxes.0[r].entry(x, p),
                ) by {
                    if r == i {
                        assert(tboxes.0[r] == t);
                    } else {
                        assert(tboxes.0[r] == before.0[r]);
                    }
                }
            }
            i += 1;
        }
        let d = config.rounds.0[0];
        let sbox = sbox_fn(d);
        let inv_sbox = PrecomputedSBox::inversed(&sbox);
        let last = Self::tbox_plain(inv_sbox, &round_keys.rounds.0[0]);
        proof {
            assert(sbox_table(inv_sbox) =~= inverse_table(sbox_table(sbox)));
            assert(call_ensures(*sbox_fn, (d,), sbox));
        }
        Tboxes::new(tboxes, last)
    }
}

impl<const NRM1: usize> WorkRounds<NRM1> {
    /// The work tables combining the T-box of each round with the MixColumns
    /// tables of the round's own dual cipher.
    pub fn new_karroumi_tyi(tboxes: &Tboxes<NRM1>, ty: &KarroumiTy<NRM1>) -> (r: Self)
        ensures
            forall|rr: int, p: int, x: int|
                0 <= rr < NRM1 && 0 <= p < 16 && 0 <= x < 256 ==> #[trigger] r.0.0[rr].0[p].0[x].0 == ty.0.0[rr].0[p % 4][tboxes.tboxes.0[rr].entry(x, p) as int],
    {
        let mut rounds: RIArr<Work, NRM1> = RIArr([Work::zero(); NRM1]);
        let mut r: usize = 0;
        while r < NRM1
            invariant
                r <= NRM1,
                forall|rr: int, p: int, x: int|
                    0 <= rr < r && 0 <= p < 16 && 0 <= x < 256 ==> #[trigger] rounds.0[rr].0[p].0[x].0 == ty.0.0[rr].0[p % 4][tboxes.tboxes.0[rr].entry(x, p) as int],
            decreases NRM1 - r,
        {
            let round_ty = ty.get(RI(r));
            let mut w = Work::zero();
            let mut p: usize = 0;
            while p < 16
                invariant
                    r < NRM1,
                    p <= 16,
                    *round_ty == ty.0.0[r as int],
                    forall|p2: int, x: int|
                        0 <= p2 < p && 0 <= x < 256 ==> #[trigger] w.0[p2].0[x].0 == ty.0.0[r as int].0[p2 % 4][tboxes.tboxes.0[r as int].entry(x, p2) as int],
                decreases 16 - p,
            {
                let pos = SPos::from_index(p);
                let mut t = XArr([Row([0u8; 4]); 256]);
                let mut x: usize = 0;
                while x < 256
                    invariant
                        r < NRM1,
                        p < 16,
                        pos.idx() == p,
                        x <= 256,
                        *round_ty == ty.0.0[r as int],
                        forall|y: int| 0 <= y < x ==> #[trigger] t.0[y].0 == ty.0.0[r as int].0[(p % 4) as int][tboxes.tboxes.0[r as int].entry(y, p as int) as int],
                    decreases 256 - x,
                {
                    let tboxv = tboxes.get(RI(r), X(x as u8), pos);
                    t.0[x] = round_ty.get_row(tboxv, pos.row());
                    x += 1;
                }
                w.0[p] = t;
                p += 1;
            }
            rounds.0[r] = w;
            r += 1;
        }
        WorkRounds(rounds)
    }
}

/// The dual cipher in which round `r`'s work tables take their input: the
/// standard field, or `base` for decryption, before the first round, and
/// the previous round's dual cipher after it.
pub open spec fn ty_input_dual<const NRM1: usize>(cfg: KarroumiConfig<NRM1>, inv: bool, base: Dual, r: int) -> Dual {
    if r == 0 {
        if inv {
            base
        } else {
            standard_dual()
        }
    } else {
        ty_dual(cfg, inv, r - 1)
    }
}

/// The dual cipher of the last T-box.
pub open spec fn last_dual<const NRM1: usize>(cfg: KarroumiConfig<NRM1>, inv: bool) -> Dual {
    if inv {
        cfg.rounds.0[0]
    } else {
        cfg.last
    }
}

/// The representation of the output: `base` for encryption, the standard
/// field for decryption.
pub open spec fn output_dual(inv: bool, base: Dual) -> Dual {
    if inv {
        standard_dual()
    } else {
        base
    }
}

/// Every table entry for `x` is the old entry for the change of
/// representation of `x` from `from` to `to`.
pub open spec fn work_precomposed(w: Work, orig: Work, from: Dual, to: Dual) -> bool {
    forall|p: int, x: int| 0 <= p < 16 && 0 <= x < 256 ==> #[trigger] w.0[p].0[x] == orig.0[p].0[delta_image(from, to, x as u8) as int]
}

impl<const NRM1: usize> Tables<NRM1> {
    /// The tables are those of the T-boxes `tb` and the MixColumns tables
    /// `ty` of a cipher whose rounds each compute in their own dual cipher:
    /// each round first changes the representation of its input into its
    /// own, and the last T-box also changes its output into that of
    /// `output_dual`.
    pub open spec fn karroumi_built<S: SBox, F: Fn(Dual) -> S>(
        self,
        tb: Tboxes<NRM1>,
        ty: KarroumiTy<NRM1>,
        f: F,
        rk: RoundKeys<NRM1>,
        cfg: KarroumiConfig<NRM1>,
        base: Dual,
        inv: bool,
    ) -> bool {
        &&& if inv {
            tb.karroumi_inverse_spec(f, rk, cfg)
        } else {
            tb.karroumi_forward_spec(f, rk, cfg)
        }
        &&& forall|rr: int| 0 <= rr < NRM1 ==> (#[trigger] ty.0.0[rr]).matches(
            inv,
            dual_coeffs(ty_dual(cfg, inv, rr)),
            ty_dual(cfg, inv, rr).poly.0,
        )
        &&& forall|rr: int, p: int, x: int|
            0 <= rr < NRM1 && 0 <= p < 16 && 0 <= x < 256 ==> #[trigger] self.tyboxes.0.0[rr].0[p].0[x].0 == ty.0.0[rr].0[p % 4][tb.tboxes.0[rr].entry(
                delta_image(ty_input_dual(cfg, inv, base, rr), ty_dual(cfg, inv, rr), x as u8) as int,
                p,
            ) as int]
        &&& forall|x: int, p: int|
            0 <= x < 256 && 0 <= p < 16 ==> #[trigger] self.tboxes_last.entry(x, p) == delta_image(
                last_dual(cfg, inv),
                output_dual(inv, base),
                tb.last.entry(delta_image(ty_dual(cfg, inv, NRM1 - 1), last_dual(cfg, inv), x as u8) as int, p),
            )
    }

    /// The tables of a cipher in which every round computes in its own dual
    /// cipher of `config`, for encryption or, with `inv`, decryption; the
    /// ciphertext is in the representation of `base`.
    pub fn from_karroumi_round_keys<S: SBox + Copy, F: Fn(Dual) -> S>(
        sbox_fn: F,
        round_keys: &RoundKeys<NRM1>,
        inv: bool,
        base: Dual,
        config: &KarroumiConfig<NRM1>,
    ) -> (r: Self)
        requires
            NRM1 >= 1,
            inv ==> NRM1 >= 2,
            config.wf(),
            config.accepted_by(sbox_fn),
            base.wf(),
            inv ==> base.invertible(),
        ensures
            r.wf(),
            r.inv == inv,
            !r.uses_mbl && !r.uses_xor && !r.uses_xor_mbl,
            crate::security::unprotected(r),
            exists|tb: Tboxes<NRM1>, ty: KarroumiTy<NRM1>| #[trigger] r.karroumi_built(tb, ty, sbox_fn, *round_keys, *config, base, inv),
    {
        let tboxes = Tboxes::from_karroumi_round_keys(&sbox_fn, round_keys, inv, config);
        let ty = KarroumiTy::new(inv, config);
        let mut tyboxes = WorkRounds::new_karroumi_tyi(&tboxes, &ty);
        let ghost orig = tyboxes;
        let mut tboxes_last = tboxes.last;
        let standard_q = Q::for_dual(Dual::standard());
        let base_q = Q::for_dual(base);
        let last_q = Q::for_dual(config.last);
        let r0_q = Q::for_dual(config.rounds.0[0]);
        proof {
            crate::dual::lemma_standard_q_identity();
            crate::mat::lemma_identity_elim_ok(8, 0);
        }
        if inv {
            let mut w = tyboxes.0.0[0];
            w.apply_delta(base_q.delta(last_q));
            tyboxes.0.0[0] = w;
            let mut dec_idx: usize = 1;
            while dec_idx < NRM1
                invariant
                    1 <= dec_idx <= NRM1,
                    NRM1 >= 2,
                    config.wf(),
                    forall|rr: int| 0 <= rr < dec_idx ==> work_precomposed(
                        #[trigger] tyboxes.0.0[rr],
                        orig.0.0[rr],
                        ty_input_dual(*config, true, base, rr),
                        ty_dual(*config, true, rr),
                    ),
                    forall|rr: int| dec_idx <= rr < NRM1 ==> #[trigger] tyboxes.0.0[rr] == orig.0.0[rr],
                decreases NRM1 - dec_idx,
            {
                let prev_repr = if dec_idx == 1 {
                    config.last
                } else {
                    config.rounds.0[NRM1 - dec_idx + 1]
                };
                let mut w = tyboxes.0.0[dec_idx];
                w.apply_delta(prev_repr.delta(config.rounds.0[NRM1 - dec_idx]));
                tyboxes.0.0[dec_idx] = w;
                dec_idx += 1;
            }
            tboxes_last.apply_delta(Q::for_dual(config.rounds.0[1]).delta(r0_q));
            tboxes_last.apply_delta_inv(r0_q.delta(standard_q));
        } else {
            let mut w = tyboxes.0.0[0];
            w.apply_delta(standard_q.delta(r0_q));
            tyboxes.0.0[0] = w;
            let mut r: usize = 1;
            while r < NRM1
                invariant
                    1 <= r <= NRM1,
                    config.wf(),
                    forall|rr: int| 0 <= rr < r ==> work_precomposed(
                        #[trigger] tyboxes.0.0[rr],
                        orig.0.0[rr],
                        ty_input_dual(*config, false, base, rr),
                        ty_dual(*config, false, rr),
                    ),
                    forall|rr: int| r <= rr < NRM1 ==> #[trigger] tyboxes.0.0[rr] == orig.0.0[rr],
                decreases NRM1 - r,
            {
                let mut w = tyboxes.0.0[r];
                w.apply_delta(config.rounds.0[r - 1].delta(config.rounds.0[r]));
                tyboxes.0.0[r] = w;
                r += 1;
            }
            tboxes_last.apply_delta(Q::for_dual(config.rounds.0[NRM1 - 1]).delta(last_q));
            tboxes_last.apply_delta_inv(last_q.delta(base_q));
        }
        let r = Self::new_base(tyboxes, tboxes_last, inv);
        proof {
            assert(r.karroumi_built(tboxes, ty, sbox_fn, *round_keys, *config, base, inv));
        }
        r
    }
}

/// `t` is the substitution table of an S-box that `f` returns for `d`.
pub open spec fn table_by<S: SBox, F: Fn(Dual) -> S>(f: F, d: Dual, t: Seq<u8>) -> bool {
    exists|s: S| #[trigger] call_ensures(f, (d,), s) && sbox_table(s) == t
}

/// The dual cipher that word `i` of the key schedule is computed in: that
/// of the round that uses it as its input key, the first round's for the
/// first key.
pub open spec fn key_word_dual<const NRM1: usize>(cfg: KarroumiConfig<NRM1>, i: nat) -> Dual {
    let ri = i / 4;
    if ri == 0 {
        cfg.rounds.0[0]
    } else if ri <= NRM1 {
        cfg.round_spec(ri - 1)
    } else {
        cfg.last
    }
}

/// Word `i` of the key schedule expanded from the words `key`, where the
/// word `i` substitutes with `tables[i]` and takes its round constant in
/// the dual cipher of the word.
pub open spec fn karroumi_word<const NRM1: usize>(
    tables: Seq<Seq<u8>>,
    cfg: KarroumiConfig<NRM1>,
    key: Seq<Seq<u8>>,
    nk: nat,
    i: nat,
) -> Seq<u8>
    decreases i,
{
    if i < nk || nk == 0 {
        key[i as int]
    } else {
        let prev = karroumi_word(tables, cfg, key, nk, (i - 1) as nat);
        let back = karroumi_word(tables, cfg, key, nk, (i - nk) as nat);
        let table = tables[i as int];
        let t = if i % nk == 0 {
            xor_bytes(
                sub_word_spec(table, rot_word_spec(prev)),
                seq![rcon_spec(i / nk, key_word_dual(cfg, i)), 0u8, 0u8, 0u8],
            )
        } else if nk > 6 && i % nk == 4 {
            sub_word_spec(table, prev)
        } else {
            prev
        };
        xor_bytes(back, t)
    }
}

/// The schedule words up to `i` read the tables up to `i` alone.
proof fn lemma_karroumi_word_prefix<const NRM1: usize>(
    t1: Seq<Seq<u8>>,
    t2: Seq<Seq<u8>>,
    cfg: KarroumiConfig<NRM1>,
    key: Seq<Seq<u8>>,
    nk: nat,
    i: nat,
)
    requires
        forall|j: int| 0 <= j <= i ==> #[trigger] t1[j] == t2[j],
    ensures
        karroumi_word(t1, cfg, key, nk, i) == karroumi_word(t2, cfg, key, nk, i),
    decreases i,
{
    if !(i < nk || nk == 0) {
        lemma_karroumi_word_prefix(t1, t2, cfg, key, nk, (i - 1) as nat);
        lemma_karroumi_word_prefix(t1, t2, cfg, key, nk, (i - nk) as nat);
    }
}

impl<const NRM1: usize> RoundKeys<NRM1> {
    /// The round keys are the schedule expanded from `key`, mapped into the
    /// first round's dual cipher, where each word substitutes with an S-box
    /// that `f` returns for the dual cipher of the word.
    pub open spec fn karroumi_schedule<S: SBox, F: Fn(Dual) -> S>(self, f: F, key: Seq<Seq<u8>>, cfg: KarroumiConfig<NRM1>) -> bool {
        exists|tables: Seq<Seq<u8>>|
            {
                &&& tables.len() == 4 * (NRM1 + 2)
                &&& forall|i: int| key.len() <= i < 4 * (NRM1 + 2) ==> table_by(f, key_word_dual(cfg, i as nat), #[trigger] tables[i])
                &&& forall|i: int|
                    0 <= i < 4 * (NRM1 + 2) ==> #[trigger] self.schedule_word_spec(i) == karroumi_word(
                        tables,
                        cfg,
                        dual_key_words(key, cfg.rounds.0[0]),
                        key.len(),
                        i as nat,
                    )
            }
    }
}

/// The key schedule of a cipher whose rounds compute in the dual ciphers of
/// `config`: the key is mapped into the first round's dual cipher, and each
/// word is computed in the dual cipher of the round that uses it.
pub fn expand_karroumi_keys<S: SBox + Copy, F: Fn(Dual) -> S, const NK: usize, const NRM1: usize>(
    sbox_fn: &F,
    key: Key<NK>,
    config: &KarroumiConfig<NRM1>,
) -> (r: RoundKeys<NRM1>)
    requires
        NRM1 >= 1,
        config.wf(),
        config.accepted_by(*sbox_fn),
        0 < NK <= 4 * (NRM1 + 2),
        4 * (NRM1 + 2) <= usize::MAX,
    ensures
        r.karroumi_schedule(*sbox_fn, key.words(), *config),
{
    let nb: usize = 4;
    let mut out: RoundKeys<NRM1> = RoundKeys::new();
    let r0_q = Q::for_dual(config.rounds.0[0]);
    let ghost key0 = key.words();
    let mut transformed_key = key;
    transformed_key.apply_q(r0_q);
    let ghost dk = dual_key_words(key0, config.rounds.0[0]);
    proof {
        assert forall|j: int| 0 <= j < NK implies #[trigger] transformed_key.0[j].0@ == dk[j] by {
            assert forall|k: int| 0 <= k < 4 implies transformed_key.0[j].0[k] == dk[j][k] by {
                r0_q.0.lemma_image_rows(key0[j][k]);
            }
            assert(transformed_key.0[j].0@ =~= dk[j]);
        }
    }
    let total = nb * (NRM1 + 2);
    let ghost mut tables: Seq<Seq<u8>> = Seq::new(total as nat, |j: int| Seq::<u8>::empty());
    let mut i: usize = 0;
    while i < NK
        invariant
            i <= NK,
            0 < NK <= total,
            total == 4 * (NRM1 + 2),
            tables.len() == total,
            forall|j: int| 0 <= j < NK ==> #[trigger] transformed_key.0[j].0@ == dk[j],
            forall|j: int| 0 <= j < i ==> #[trigger] out.schedule_word_spec(j) == karroumi_word(tables, *config, dk, NK as nat, j as nat),
        decreases NK - i,
    {
        out.set_schedule_word(i, transformed_key.word(i));
        i += 1;
    }
    let mut rcon_idx: usize = 1;
    assert(1 == (NK + NK - 1) / (NK as int)) by (nonlinear_arith)
        requires
            NK > 0,
    ;
    while i < total
        invariant
            NK <= i <= total,
            total == 4 * (NRM1 + 2),
            nb == 4,
            0 < NK <= total,
            NRM1 >= 1,
            config.wf(),
            config.accepted_by(*sbox_fn),
            tables.len() == total,
            rcon_idx as int == (i + NK - 1) / (NK as int),
            forall|j: int| NK <= j < i ==> table_by(*sbox_fn, key_word_dual(*config, j as nat), #[trigger] tables[j]),
            forall|j: int| 0 <= j < i ==> #[trigger] out.schedule_word_spec(j) == karroumi_word(tables, *config, dk, NK as nat, j as nat),
        decreases total - i,
    {
        proof {
            let ii = i as int;
            let nk = NK as int;
            assert(if ii % nk == 0 {
                (ii + nk - 1) / nk == ii / nk && (ii + 1 + nk - 1) / nk == ii / nk + 1
            } else {
                (ii + 1 + nk - 1) / nk == (ii + nk - 1) / nk
            }) by (nonlinear_arith)
                requires
                    nk > 0,
                    ii >= nk,
            ;
        }
        let w_im1 = out.get_schedule_word(i - 1);
        let w_imn = out.get_schedule_word(i - NK);
        let round_idx = i / nb;
        let round_config = if round_idx == 0 {
            config.rounds.0[0]
        } else if round_idx <= NRM1 {
            config.round_config(RI(round_idx - 1))
        } else {
            config.last
        };
        assert(round_config == key_word_dual(*config, i as nat));
        let sbox = sbox_fn(round_config);
        let ghost old_tables = tables;
        proof {
            tables = tables.update(i as int, sbox_table(sbox));
            assert forall|j: int| 0 <= j < i implies #[trigger] out.schedule_word_spec(j) == karroumi_word(tables, *config, dk, NK as nat, j as nat) by {
                lemma_karroumi_word_prefix(tables, old_tables, *config, dk, NK as nat, j as nat);
            }
            assert(table_by(*sbox_fn, key_word_dual(*config, i as nat), tables[i as int])) by {
                assert(call_ensures(*sbox_fn, (round_config,), sbox));
            }
        }
        let ghost table = sbox_table(sbox);
        let ghost prev = karroumi_word(tables, *config, dk, NK as nat, (i - 1) as nat);
        let ghost expected_t = if i % NK == 0 {
            xor_bytes(sub_word_spec(table, rot_word_spec(prev)), seq![rcon_spec((i / NK) as nat, round_config), 0u8, 0u8, 0u8])
        } else if NK > 6 && i % NK == 4 {
            sub_word_spec(table, prev)
        } else {
            prev
        };
        let t = if i % NK == 0 {
            let rc = compute_rcon(rcon_idx, round_config);
            let rw = rot_word(w_im1);
            let sw = sub_word(sbox, rw);
            let r = sw.xor(Word::from_bytes([rc, 0, 0, 0]));
            proof {
                assert(rw.0@ =~= rot_word_spec(prev));
                assert(rcon_idx == i / NK);
                assert forall|k: int| 0 <= k < 4 implies r.0[k] == #[trigger] expected_t[k] by {
                    assert(seq![rcon_spec((i / NK) as nat, round_config), 0u8, 0u8, 0u8][k] == [rc, 0u8, 0u8, 0u8][k]);
                }
                assert(r.0@ =~= expected_t);
            }
            rcon_idx += 1;
            r
        } else if NK > 6 && i % NK == 4 {
            sub_word(sbox, w_im1)
        } else {
            w_im1
        };
        let w_i = w_imn.xor(t);
        proof {
            assert(t.0@ == expected_t);
            assert(w_imn.0@ == karroumi_word(tables, *config, dk, NK as nat, (i - NK) as nat));
            assert(w_i.0@ =~= karroumi_word(tables, *config, dk, NK as nat, i as nat));
        }
        out.set_schedule_word(i, w_i);
        i += 1;
    }
    proof {
        assert(dk.len() == NK);
        assert(out.karroumi_schedule(*sbox_fn, key0, *config));
    }
    out
}

impl<const NRM1: usize> Tables<NRM1> {
    /// The tables of a cipher in which every round computes in its own dual
    /// cipher of `config`, for the cipher key `key`.
    pub fn from_karroumi_key<S: SBox + Copy, F: Fn(Dual) -> S, const NK: usize>(
        sbox_fn: F,
        key: Key<NK>,
        inv: bool,
        base: Dual,
        config: &KarroumiConfig<NRM1>,
    ) -> (r: Self)
        requires
            NRM1 >= 1,
            inv ==> NRM1 >= 2,
            config.wf(),
            config.accepted_by(sbox_fn),
            base.wf(),
            inv ==> base.invertible(),
            0 < NK <= 4 * (NRM1 + 2),
            4 * (NRM1 + 2) <= usize::MAX,
        ensures
            r.wf(),
            r.inv == inv,
            !r.uses_mbl && !r.uses_xor && !r.uses_xor_mbl,
            crate::security::unprotected(r),
            exists|rk: RoundKeys<NRM1>, tb: Tboxes<NRM1>, ty: KarroumiTy<NRM1>|
                rk.karroumi_schedule(sbox_fn, key.words(), *config) && #[trigger] r.karroumi_built(tb, ty, sbox_fn, rk, *config, base, inv),
    {
        let round_keys = expand_karroumi_keys(&sbox_fn, key, config);
        Self::from_karroumi_round_keys(sbox_fn, &round_keys, inv, base, config)
    }
}

impl<const NRM1: usize> KarroumiConfig4<NRM1> {
    /// `f` may be called with the dual cipher of every column of the configuration.
    pub open spec fn accepted_by<S, F: Fn(Dual) -> S>(self, f: F) -> bool {
        &&& forall|r: int, k: int| 0 <= r < NRM1 && 0 <= k < 4 ==> call_requires(f, (#[trigger] self.rounds.0[r].0[k],))
        &&& forall|k: int| 0 <= k < 4 ==> call_requires(f, (#[trigger] self.last.0[k],))
    }
}

/// Byte `q` of the key mapped into the dual cipher of column `c`.
pub open spec fn key_col_image(d4: Dual4, k: [u8; 16], q: nat, c: int) -> u8 {
    rows_image(dual_q_rows(d4.0[c]), k[q as int])
}

/// The key with every byte mapped into the dual cipher of the column of
/// the state position that `tab` maps to the byte's position.
fn key_in_columns(k: &RoundKey, d4: &Dual4, tab: &ShiftRowsBijection) -> (r: RoundKey)
    requires
        d4.wf(),
        tab.wf(),
    ensures
        forall|q: int| 0 <= q < 16 ==> #[trigger] r.0[q] == key_col_image(*d4, k.0, q as nat, (tab.map_spec(q as nat) / 4) as int),
{
    let qs = [Q::for_dual(d4.0[0]), Q::for_dual(d4.0[1]), Q::for_dual(d4.0[2]), Q::for_dual(d4.0[3])];
    let mut out = RoundKey([0u8; 16]);
    let mut p: usize = 0;
    while p < 16
        invariant
            p <= 16,
            tab.wf(),
            forall|k2: int| 0 <= k2 < 4 ==> (#[trigger] qs[k2]).0.rows() == dual_q_rows(d4.0[k2]),
            forall|q: int| 0 <= q < p ==> #[trigger] out.0[q] == key_col_image(*d4, k.0, q as nat, (tab.map_spec(q as nat) / 4) as int),
        decreases 16 - p,
    {
        let state_pos = tab.map(SPos::from_index(p));
        let q = qs[state_pos.column().as_index()];
        out.0[p] = q.apply(X(k.0[p])).0;
        proof {
            q.0.lemma_image_rows(k.0[p as int]);
        }
        p += 1;
    }
    out
}

/// The S-boxes that `f` returns for the dual ciphers of the four columns.
fn column_sboxes<S: SBox + Copy, F: Fn(Dual) -> S>(f: &F, d4: &Dual4) -> (r: [S; 4])
    requires
        forall|k: int| 0 <= k < 4 ==> call_requires(*f, (#[trigger] d4.0[k],)),
    ensures
        forall|k: int| 0 <= k < 4 ==> call_ensures(*f, (#[trigger] d4.0[k],), r[k]),
{
    let s0 = f(d4.0[0]);
    let s1 = f(d4.0[1]);
    let s2 = f(d4.0[2]);
    let s3 = f(d4.0[3]);
    let r = [s0, s1, s2, s3];
    assert forall|k: int| 0 <= k < 4 implies call_ensures(*f, (#[trigger] d4.0[k],), r[k]) by {
        if k == 0 {
        } else if k == 1 {
        } else if k == 2 {
        } else {
        }
    }
    r
}

/// The inverse tables of the four S-boxes.
fn inverse_sboxes<S: SBox>(s: &[S; 4]) -> (r: [PrecomputedSBox; 4])
    ensures
        forall|k: int| 0 <= k < 4 ==> sbox_table(#[trigger] r[k]) == inverse_table(sbox_table(s[k])),
{
    let r = [
        PrecomputedSBox::inversed(&s[0]),
        PrecomputedSBox::inversed(&s[1]),
        PrecomputedSBox::inversed(&s[2]),
        PrecomputedSBox::inversed(&s[3]),
    ];
    assert forall|k: int| 0 <= k < 4 implies sbox_table(#[trigger] r[k]) == inverse_table(sbox_table(s[k])) by {
        assert(sbox_table(r[k]) =~= inverse_table(sbox_table(s[k])));
    }
    r
}

/// The T-box that adds `pre` to the state shifted by `tab`, substitutes
/// each position with the S-box of its column, and adds `post`.
fn tbox4<S: SBox + Copy>(sboxes: &[S; 4], pre: &RoundKey, tab: &ShiftRowsBijection, post: &RoundKey) -> (t: Tbox)
    requires
        tab.wf(),
    ensures
        forall|x: int, p: int| 0 <= x < 256 && 0 <= p < 16 ==> #[trigger] t.entry(x, p) == (sbox_table(sboxes[p / 4])[(x as u8
            ^ pre.0[tab.map_spec(p as nat) as int]) as int] ^ post.0[p]),
{
    let mut t = Tbox::zero();
    let mut x: usize = 0;
    while x < 256
        invariant
            x <= 256,
            tab.wf(),
            forall|y: int, p: int| 0 <= y < x && 0 <= p < 16 ==> #[trigger] t.entry(y, p) == (sbox_table(sboxes[p / 4])[(y as u8
                ^ pre.0[tab.map_spec(p as nat) as int]) as int] ^ post.0[p]),
        decreases 256 - x,
    {
        let mut state = State::from_x(X(x as u8));
        add_shifted_round_key(&mut state, pre, tab);
        let ghost st1 = state;
        let mut p: usize = 0;
        while p < 16
            invariant
                p <= 16,
                forall|q: int| 0 <= q < p ==> #[trigger] state.0[q] == sbox_table(sboxes[q / 4])[st1.0[q] as int],
                forall|q: int| p <= q < 16 ==> #[trigger] state.0[q] == st1.0[q],
            decreases 16 - p,
        {
            state.0[p] = sboxes[p / 4].sub_byte(X(state.0[p])).0;
            p += 1;
        }
        let ghost st2 = state;
        add_round_key(&mut state, post);
        let ghost before = t;
        t.0.0[x] = state;
        proof {
            assert forall|y: int, p: int| 0 <= y < x + 1 && 0 <= p < 16 implies #[trigger] t.entry(y, p) == (sbox_table(
                sboxes[p / 4],
            )[(y as u8 ^ pre.0[tab.map_spec(p as nat) as int]) as int] ^ post.0[p]) by {
                if y != x {
                    assert(t.0.0[y] == before.0.0[y]);
                    assert(t.entry(y, p) == before.entry(y, p));
                } else {
                    assert(t.0.0[y] == state);
                    assert(state.0[p] == st2.0[p] ^ post.0[p]);
                    assert(st1.0[p] == (x as u8) ^ pre.0[tab.map_spec(p as nat) as int]);
                }
            }
        }
        x += 1;
    }
    t
}

impl<const NRM1: usize> Tboxes<NRM1> {
    /// The T-boxes of encryption where every position of round `r`
    /// substitutes with an S-box that `f` returns for the dual cipher of its
    /// column, and every round key byte is mapped into the dual cipher of the
    /// column of the position it is added to.
    pub open spec fn karroumi4_forward_spec<S: SBox, F: Fn(Dual) -> S>(self, f: F, rk: RoundKeys<NRM1>, cfg: KarroumiConfig4<NRM1>) -> bool {
        &&& forall|r: int, x: int, p: int|
            0 <= r < NRM1 && 0 <= x < 256 && 0 <= p < 16 ==> sub_by(
                f,
                cfg.rounds.0[r].0[p / 4],
                x as u8 ^ key_col_image(cfg.rounds.0[r], rk.rounds.0[r].0, shift_rows_src(p as nat), p / 4),
                #[trigger] self.tboxes.0[r].entry(x, p),
            )
        &&& forall|x: int, p: int|
            0 <= x < 256 && 0 <= p < 16 ==> sub_xor_by(
                f,
                cfg.last.0[p / 4],
                x as u8 ^ key_col_image(cfg.last, rk.last.0.0, shift_rows_src(p as nat), p / 4),
                key_col_image(cfg.last, rk.last.1.0, p as nat, p / 4),
                #[trigger] self.last.entry(x, p),
            )
    }

    /// The T-boxes of decryption, in the order in which decryption uses the
    /// round keys, each position inverting an S-box that `f` returns for the
    /// dual cipher of its column in the round it undoes.
    pub open spec fn karroumi4_inverse_spec<S: SBox, F: Fn(Dual) -> S>(self, f: F, rk: RoundKeys<NRM1>, cfg: KarroumiConfig4<NRM1>) -> bool {
        &&& forall|x: int, p: int|
            0 <= x < 256 && 0 <= p < 16 ==> inv_sub_xor_by(
                f,
                cfg.last.0[p / 4],
                x as u8 ^ key_col_image(cfg.last, rk.last.1.0, inv_shift_rows_src(p as nat), p / 4),
                key_col_image(cfg.last, rk.last.0.0, p as nat, p / 4),
                #[trigger] self.tboxes.0[0].entry(x, p),
            )
        &&& forall|r: int, x: int, p: int|
            1 <= r < NRM1 && 0 <= x < 256 && 0 <= p < 16 ==> inv_sub_xor_by(
                f,
                cfg.rounds.0[NRM1 - r].0[p / 4],
                x as u8,
                key_col_image(cfg.rounds.0[NRM1 - r], rk.rounds.0[NRM1 - r].0, p as nat, p / 4),
                #[trigger] self.tboxes.0[r].entry(x, p),
            )
        &&& forall|x: int, p: int|
            0 <= x < 256 && 0 <= p < 16 ==> inv_sub_xor_by(
                f,
                cfg.rounds.0[0].0[p / 4],
                x as u8,
                key_col_image(cfg.rounds.0[0], rk.rounds.0[0].0, p as nat, p / 4),
                #[trigger] self.last.entry(x, p),
            )
    }

    /// The T-boxes of encryption, or with `inv` of decryption, where every
    /// column of every round computes in its own dual cipher.
    pub fn from_karroumi4_round_keys<S: SBox + Copy, F: Fn(Dual) -> S>(
        sbox_fn: &F,
        round_keys: &RoundKeys<NRM1>,
        inv: bool,
        config: &KarroumiConfig4<NRM1>,
    ) -> (r: Self)
        requires
            NRM1 >= 1,
            config.wf(),
            config.accepted_by(*sbox_fn),
        ensures
            !inv ==> r.karroumi4_forward_spec(*sbox_fn, *round_keys, *config),
            inv ==> r.karroumi4_inverse_spec(*sbox_fn, *round_keys, *config),
    {
        if inv {
            Self::from_karroumi4_round_keys_inv(sbox_fn, round_keys, config)
        } else {
            Self::from_karroumi4_round_keys_forward(sbox_fn, round_keys, config)
        }
    }

    fn from_karroumi4_round_keys_forward<S: SBox + Copy, F: Fn(Dual) -> S>(
        sbox_fn: &F,
        round_keys: &RoundKeys<NRM1>,
        config: &KarroumiConfig4<NRM1>,
    ) -> (r: Self)
        requires
            config.wf(),
            config.accepted_by(*sbox_fn),
        ensures
            r.karroumi4_forward_spec(*sbox_fn, *round_keys, *config),
    {
        let zero = RoundKey([0u8; 16]);
        let shift = shift_rows_tab();
        let ishift = inv_shift_rows_tab();
        let id = ShiftRowsBijection::identity();
        let mut tboxes: RIArr<Tbox, NRM1> = RIArr([Tbox::zero(); NRM1]);
        let mut r: usize = 0;
        while r < NRM1
            invariant
                r <= NRM1,
                config.wf(),
                config.accepted_by(*sbox_fn),
                zero.0@ == Seq::new(16, |i: int| 0u8),
                shift.wf(),
                ishift.wf(),
                forall|p: nat| p < 16 ==> shift.map_spec(p) == shift_rows_src(p),
                forall|p: nat| p < 16 ==> ishift.map_spec(p) == inv_shift_rows_src(p),
                forall|r2: int, x: int, p: int|
                    0 <= r2 < r && 0 <= x < 256 && 0 <= p < 16 ==> sub_by(
                        *sbox_fn,
                        config.rounds.0[r2].0[p / 4],
                        x as u8 ^ key_col_image(config.rounds.0[r2], round_keys.rounds.0[r2].0, shift_rows_src(p as nat), p / 4),
                        #[trigger] tboxes.0[r2].entry(x, p),
                    ),
            decreases NRM1 - r,
        {
            let d4 = config.rounds.0[r];
            let transformed_rk = key_in_columns(&round_keys.rounds.0[r], &d4, &ishift);
            let sboxes = column_sboxes(sbox_fn, &d4);
            let t = tbox4(&sboxes, &transformed_rk, &shift, &zero);
            let ghost before = tboxes;
            tboxes.0[r] = t;
            proof {
                assert forall|r2: int, x: int, p: int|
                    0 <= r2 < r + 1 && 0 <= x < 256 && 0 <= p < 16 implies sub_by(
                    *sbox_fn,
                    config.rounds.0[r2].0[p / 4],
                    x as u8 ^ key_col_image(config.rounds.0[r2], round_keys.rounds.0[r2].0, shift_rows_src(p as nat), p / 4),
                    #[trigger] tboxes.0[r2].entry(x, p),
                ) by {
                    if r2 == r {
                        assert(tboxes.0[r2] == t);
                        crate::consts::lemma_shift_rows_inverse(p as nat);
                        let y = (x as u8) ^ transformed_rk.0[shift_rows_src(p as nat) as int];
                        crate::lemma_xor_u8(sbox_table(sboxes[p / 4])[y as int], 0, 0);
                        assert(zero.0[p] == 0);
                        assert(call_ensures(*sbox_fn, (d4.0[p / 4],), sboxes[p / 4]));
                    } else {
                        assert(tboxes.0[r2] == before.0[r2]);
                    }
                }
            }
            r += 1;
        }
        let (a, b) = round_keys.last;
        let d4 = config.last;
        let transformed_a = key_in_columns(&a, &d4, &ishift);
        let transformed_b = key_in_columns(&b, &d4, &id);
        let sboxes = column_sboxes(sbox_fn, &d4);
        let last = tbox4(&sboxes, &transformed_a, &shift, &transformed_b);
        proof {
            assert forall|x: int, p: int| 0 <= x < 256 && 0 <= p < 16 implies sub_xor_by(
                *sbox_fn,
                config.last.0[p / 4],
                x as u8 ^ key_col_image(config.last, round_keys.last.0.0, shift_rows_src(p as nat), p / 4),
                key_col_image(config.last, round_keys.last.1.0, p as nat, p / 4),
                #[trigger] last.entry(x, p),
            ) by {
                crate::consts::lemma_shift_rows_inverse(p as nat);
                assert(call_ensures(*sbox_fn, (d4.0[p / 4],), sboxes[p / 4]));
            }
        }
        Tboxes::new(tboxes, last)
    }

    fn from_karroumi4_round_keys_inv<S: SBox + Copy, F: Fn(Dual) -> S>(
        sbox_fn: &F,
        round_keys: &RoundKeys<NRM1>,
        config: &KarroumiConfig4<NRM1>,
    ) -> (r: Self)
        requires
            NRM1 >= 1,
            config.wf(),
            config.accepted_by(*sbox_fn),
        ensures
            r.karroumi4_inverse_spec(*sbox_fn, *round_keys, *config),
    {
        let zero = RoundKey([0u8; 16]);
        let shift = shift_rows_tab();
        let ishift = inv_shift_rows_tab();
        let id = ShiftRowsBijection::identity();
        let mut tboxes: RIArr<Tbox, NRM1> = RIArr([Tbox::zero(); NRM1]);
        let (a, b) = round_keys.last;
        let d4 = config.last;
        let transformed_b = key_in_columns(&b, &d4, &shift);
        let transformed_a = key_in_columns(&a, &d4, &id);
        let sboxes = column_sboxes(sbox_fn, &d4);
        let inv_sboxes = inverse_sboxes(&sboxes);
        let first = tbox4(&inv_sboxes, &transformed_b, &ishift, &transformed_a);
        tboxes.0[0] = first;
        proof {
            assert forall|x: int, p: int| 0 <= x < 256 && 0 <= p < 16 implies inv_sub_xor_by(
                *sbox_fn,
                config.last.0[p / 4],
                x as u8 ^ key_col_image(config.last, round_keys.last.1.0, inv_shift_rows_src(p as nat), p / 4),
                key_col_image(config.last, round_keys.last.0.0, p as nat, p / 4),
                #[trigger] tboxes.0[0].entry(x, p),
            ) by {
                crate::consts::lemma_shift_rows_inverse(p as nat);
                assert(call_ensures(*sbox_fn, (d4.0[p / 4],), sboxes[p / 4]));
                assert(sbox_table(inv_sboxes[p / 4]) == inverse_table(sbox_table(sboxes[p / 4])));
            }
        }
        let mut dec_idx: usize = 1;
        while dec_idx < NRM1
            invariant
                1 <= dec_idx <= NRM1,
                config.wf(),
                config.accepted_by(*sbox_fn),
                zero.0@ == Seq::new(16, |i: int| 0u8),
                id.wf(),
                forall|p: nat| p < 16 ==> id.map_spec(p) == p,
                forall|x: int, p: int|
                    0 <= x < 256 && 0 <= p < 16 ==> inv_sub_xor_by(
                        *sbox_fn,
                        config.last.0[p / 4],
                        x as u8 ^ key_col_image(config.last, round_keys.last.1.0, inv_shift_rows_src(p as nat), p / 4),
                        key_col_image(config.last, round_keys.last.0.0, p as nat, p / 4),
                        #[trigger] tboxes.0[0].entry(x, p),
                    ),
                forall|r: int, x: int, p: int|
                    1 <= r < dec_idx && 0 <= x < 256 && 0 <= p < 16 ==> inv_sub_xor_by(
                        *sbox_fn,
                        config.rounds.0[NRM1 - r].0[p / 4],
                        x as u8,
                        key_col_image(config.rounds.0[NRM1 - r], round_keys.rounds.0[NRM1 - r].0, p as nat, p / 4),
                        #[trigger] tboxes.0[r].entry(x, p),
                    ),
            decreases NRM1 - dec_idx,
        {
            let enc_round = NRM1 - dec_idx;
            let round_cfg = config.rounds.0[enc_round];
            let transformed_rk = key_in_columns(&round_keys.rounds.0[enc_round], &round_cfg, &id);
            let sboxes = column_sboxes(sbox_fn, &round_cfg);
            let inv_sboxes = inverse_sboxes(&sboxes);
            let t = tbox4(&inv_sboxes, &zero, &id, &transformed_rk);
            let ghost before = tboxes;
            tboxes.0[dec_idx] = t;
            proof {
                assert(tboxes.0[0] == before.0[0]);
                assert forall|r: int, x: int, p: int|
                    1 <= r < dec_idx + 1 && 0 <= x < 256 && 0 <= p < 16 implies inv_sub_xor_by(
                    *sbox_fn,
                    config.rounds.0[NRM1 - r].0[p / 4],
                    x as u8,
                    key_col_image(config.rounds.0[NRM1 - r], round_keys.rounds.0[NRM1 - r].0, p as nat, p / 4),
                    #[trigger] tboxes.0[r].entry(x, p),
                ) by {
                    if r == dec_idx {
                        assert(tboxes.0[r] == t);
                        assert(zero.0[id.map_spec(p as nat) as int] == 0);
                        crate::lemma_xor_u8(x as u8, 0, 0);
                        assert(call_ensures(*sbox_fn, (round_cfg.0[p / 4],), sboxes[p / 4]));
                        assert(sbox_table(inv_sboxes[p / 4]) == inverse_table(sbox_table(sboxes[p / 4])));
                    } else {
                        assert(tboxes.0[r] == before.0[r]);
                    }
                }
            }
            dec_idx += 1;
        }
        let round_cfg = config.rounds.0[0];
        let transformed_rk = key_in_columns(&round_keys.rounds.0[0], &round_cfg, &id);
        let sboxes = column_sboxes(sbox_fn, &round_cfg);
        let inv_sboxes = inverse_sboxes(&sboxes);
        let last = tbox4(&inv_sboxes, &zero, &id, &transformed_rk);
        proof {
            assert forall|x: int, p: int| 0 <= x < 256 && 0 <= p < 16 implies inv_sub_xor_by(
                *sbox_fn,
                config.rounds.0[0].0[p / 4],
                x as u8,
                key_col_image(config.rounds.0[0], round_keys.rounds.0[0].0, p as nat, p / 4),
                #[trigger] last.entry(x, p),
            ) by {
                assert(zero.0[id.map_spec(p as nat) as int] == 0);
                crate::lemma_xor_u8(x as u8, 0, 0);
                assert(call_ensures(*sbox_fn, (round_cfg.0[p / 4],), sboxes[p / 4]));
                assert(sbox_table(inv_sboxes[p / 4]) == inverse_table(sbox_table(sboxes[p / 4])));
            }
        }
        Tboxes::new(tboxes, last)
    }
}

impl<const NRM1: usize> WorkRounds<NRM1> {
    /// The work tables combining the T-box of each round with the MixColumns
    /// tables of the dual cipher of each position's column.
    pub fn new_karruomi4_tyi(tboxes: &Tboxes<NRM1>, ty: &KarroumiTy4<NRM1>) -> (r: Self)
        ensures
            forall|rr: int, p: int, x: int|
                0 <= rr < NRM1 && 0 <= p < 16 && 0 <= x < 256 ==> #[trigger] r.0.0[rr].0[p].0[x].0 == ty.0.0[rr][p / 4].0[p % 4][tboxes.tboxes.0[rr].entry(x, p) as int],
    {
        let mut rounds: RIArr<Work, NRM1> = RIArr([Work::zero(); NRM1]);
        let mut r: usize = 0;
        while r < NRM1
            invariant
                r <= NRM1,
                forall|rr: int, p: int, x: int|
                    0 <= rr < r && 0 <= p < 16 && 0 <= x < 256 ==> #[trigger] rounds.0[rr].0[p].0[x].0 == ty.0.0[rr][p / 4].0[p % 4][tboxes.tboxes.0[rr].entry(x, p) as int],
            decreases NRM1 - r,
        {
            let mut w = Work::zero();
            let mut p: usize = 0;
            while p < 16
                invariant
                    r < NRM1,
                    p <= 16,
                    forall|p2: int, x: int|
                        0 <= p2 < p && 0 <= x < 256 ==> #[trigger] w.0[p2].0[x].0 == ty.0.0[r as int][p2 / 4].0[p2 % 4][tboxes.tboxes.0[r as int].entry(x, p2) as int],
                decreases 16 - p,
            {
                let pos = SPos::from_index(p);
                let column_ty = ty.get(RI(r), pos.column());
                let mut t = XArr([Row([0u8; 4]); 256]);
                let mut x: usize = 0;
                while x < 256
                    invariant
                        r < NRM1,
                        p < 16,
                        pos.idx() == p,
                        x <= 256,
                        *column_ty == ty.0.0[r as int][(p / 4) as int],
                        forall|y: int| 0 <= y < x ==> #[trigger] t.0[y].0 == ty.0.0[r as int][(p / 4) as int].0[(p % 4) as int][tboxes.tboxes.0[r as int].entry(y, p as int) as int],
                    decreases 256 - x,
                {
                    let tboxv = tboxes.get(RI(r), X(x as u8), pos);
                    t.0[x] = column_ty.get_row(tboxv, pos.row());
                    x += 1;
                }
                w.0[p] = t;
                p += 1;
            }
            rounds.0[r] = w;
            r += 1;
        }
        WorkRounds(rounds)
    }
}

/// The key schedule of a cipher whose columns compute in their own dual
/// ciphers: the standard AES schedule, mapped into the columns' dual
/// ciphers when the T-boxes are built.
fn expand_karroumi_keys_4<const NK: usize, const NRM1: usize>(key: Key<NK>) -> (r: RoundKeys<NRM1>)
    requires
        0 < NK <= 4 * (NRM1 + 2),
        4 * (NRM1 + 2) <= usize::MAX,
    ensures
        r.schedule_matches(key.words(), crate::sbox::standard_sbox_table(), standard_dual()),
{
    let sbox = PrecomputedSBox::aes_standard();
    assert(sbox_table(&sbox) =~= sbox_table(sbox));
    expand_nonstandard_keys(&sbox, key, Dual::standard())
}

/// The dual ciphers of the columns in which round `r`'s MixColumns computes.
pub open spec fn ty_dual4_of<const NRM1: usize>(cfg: KarroumiConfig4<NRM1>, inv: bool, r: int) -> Dual4 {
    if inv {
        if r == 0 {
            cfg.last
        } else {
            cfg.rounds.0[NRM1 - r]
        }
    } else {
        cfg.rounds.0[r]
    }
}

/// The standard field in every column.
pub open spec fn standard_dual4() -> Dual4 {
    Dual4([standard_dual(), standard_dual(), standard_dual(), standard_dual()])
}

/// The dual ciphers in which round `r`'s work tables take their input.
pub open spec fn ty4_input_dual<const NRM1: usize>(cfg: KarroumiConfig4<NRM1>, inv: bool, base: Dual4, r: int) -> Dual4 {
    if r == 0 {
        if inv {
            base
        } else {
            standard_dual4()
        }
    } else {
        ty_dual4_of(cfg, inv, r - 1)
    }
}

/// The position whose byte (Inv)ShiftRows moves to `p`.
pub open spec fn shift_src(inv: bool, p: nat) -> nat {
    if inv {
        inv_shift_rows_src(p)
    } else {
        shift_rows_src(p)
    }
}

/// Every table entry of position `p` for `x` is the old entry for the
/// change of representation of `x` from the dual cipher of the column that
/// (Inv)ShiftRows takes the byte from to that of the column of `p`.
pub open spec fn work_precomposed4(w: Work, orig: Work, from: Dual4, to: Dual4, inv: bool) -> bool {
    forall|p: int, x: int|
        0 <= p < 16 && 0 <= x < 256 ==> #[trigger] w.0[p].0[x] == orig.0[p].0[delta_image(
            from.0[(shift_src(inv, p as nat) / 4) as int],
            to.0[p / 4],
            x as u8,
        ) as int]
}

impl<const NRM1: usize> Tables<NRM1> {
    /// The tables are those of the T-boxes `tb` and the MixColumns tables
    /// `ty` of a cipher whose columns of every round each compute in their
    /// own dual cipher: each byte changes its representation from that of the
    /// column it comes from to that of the column it goes to.
    pub open spec fn karroumi4_built<S: SBox, F: Fn(Dual) -> S>(
        self,
        tb: Tboxes<NRM1>,
        ty: KarroumiTy4<NRM1>,
        f: F,
        rk: RoundKeys<NRM1>,
        cfg: KarroumiConfig4<NRM1>,
        base: Dual4,
        inv: bool,
    ) -> bool {
        let last4 = if inv {
            cfg.rounds.0[0]
        } else {
            cfg.last
        };
        let out4 = if inv {
            standard_dual4()
        } else {
            base
        };
        &&& if inv {
            tb.karroumi4_inverse_spec(f, rk, cfg)
        } else {
            tb.karroumi4_forward_spec(f, rk, cfg)
        }
        &&& forall|rr: int, k: int| 0 <= rr < NRM1 && 0 <= k < 4 ==> (#[trigger] ty.0.0[rr][k]).matches(
            inv,
            dual_coeffs(ty_dual4(cfg, inv, rr, k)),
            ty_dual4(cfg, inv, rr, k).poly.0,
        )
        &&& forall|rr: int, p: int, x: int|
            0 <= rr < NRM1 && 0 <= p < 16 && 0 <= x < 256 ==> #[trigger] self.tyboxes.0.0[rr].0[p].0[x].0 == ty.0.0[rr][p / 4].0[p
                % 4][tb.tboxes.0[rr].entry(
                delta_image(
                    ty4_input_dual(cfg, inv, base, rr).0[(shift_src(inv, p as nat) / 4) as int],
                    ty_dual4_of(cfg, inv, rr).0[p / 4],
                    x as u8,
                ) as int,
                p,
            ) as int]
        &&& forall|x: int, p: int|
            0 <= x < 256 && 0 <= p < 16 ==> #[trigger] self.tboxes_last.entry(x, p) == delta_image(
                last4.0[p / 4],
                out4.0[p / 4],
                tb.last.entry(
                    delta_image(ty_dual4_of(cfg, inv, NRM1 - 1).0[(shift_src(inv, p as nat) / 4) as int], last4.0[p / 4], x as u8) as int,
                    p,
                ),
            )
    }

    /// The tables of a cipher in which every column of every round computes in
    /// its own dual cipher of `config`, for encryption or, with `inv`,
    /// decryption; the ciphertext is in the representation of `base`.
    pub fn from_karroumi4_round_keys<S: SBox + Copy, F: Fn(Dual) -> S>(
        sbox_fn: F,
        round_keys: &RoundKeys<NRM1>,
        inv: bool,
        base: Dual4,
        config: &KarroumiConfig4<NRM1>,
    ) -> (r: Self)
        requires
            NRM1 >= 1,
            inv ==> NRM1 >= 2,
            config.wf(),
            config.accepted_by(sbox_fn),
            base.wf(),
        ensures
            r.wf(),
            r.inv == inv,
            !r.uses_mbl && !r.uses_xor && !r.uses_xor_mbl,
            crate::security::unprotected(r),
            exists|tb: Tboxes<NRM1>, ty: KarroumiTy4<NRM1>| #[trigger] r.karroumi4_built(tb, ty, sbox_fn, *round_keys, *config, base, inv),
    {
        let tboxes = Tboxes::from_karroumi4_round_keys(&sbox_fn, round_keys, inv, config);
        let ty = KarroumiTy4::new(inv, config);
        let mut tyboxes = WorkRounds::new_karruomi4_tyi(&tboxes, &ty);
        let ghost orig = tyboxes;
        let mut tboxes_last = tboxes.last;
        let standard_configs = Dual4::standard();
        if inv {
            let shift_rows = inv_shift_rows_tab();
            let mut w = tyboxes.0.0[0];
            w.apply_delta4(base.delta(config.last, &shift_rows));
            tyboxes.0.0[0] = w;
            let mut dec_idx: usize = 1;
            while dec_idx < NRM1
                invariant
                    1 <= dec_idx <= NRM1,
                    NRM1 >= 2,
                    config.wf(),
                    shift_rows.wf(),
                    forall|p: nat| p < 16 ==> shift_rows.map_spec(p) == inv_shift_rows_src(p),
                    forall|rr: int| 0 <= rr < dec_idx ==> work_precomposed4(
                        #[trigger] tyboxes.0.0[rr],
                        orig.0.0[rr],
                        ty4_input_dual(*config, true, base, rr),
                        ty_dual4_of(*config, true, rr),
                        true,
                    ),
                    forall|rr: int| dec_idx <= rr < NRM1 ==> #[trigger] tyboxes.0.0[rr] == orig.0.0[rr],
                decreases NRM1 - dec_idx,
            {
                let prev_repr = if dec_idx == 1 {
                    config.last
                } else {
                    config.rounds.0[NRM1 - dec_idx + 1]
                };
                let mut w = tyboxes.0.0[dec_idx];
                w.apply_delta4(prev_repr.delta(config.rounds.0[NRM1 - dec_idx], &shift_rows));
                tyboxes.0.0[dec_idx] = w;
                dec_idx += 1;
            }
            tboxes_last.apply_delta4(config.rounds.0[1].delta(config.rounds.0[0], &shift_rows));
            tboxes_last.apply_delta4_inv(config.rounds.0[0].delta_inv(standard_configs));
        } else {
            let shift_rows = shift_rows_tab();
            let mut w = tyboxes.0.0[0];
            w.apply_delta4(standard_configs.delta(config.rounds.0[0], &shift_rows));
            tyboxes.0.0[0] = w;
            let mut r: usize = 1;
            while r < NRM1
                invariant
                    1 <= r <= NRM1,
                    config.wf(),
                    shift_rows.wf(),
                    forall|p: nat| p < 16 ==> shift_rows.map_spec(p) == shift_rows_src(p),
                    forall|rr: int| 0 <= rr < r ==> work_precomposed4(
                        #[trigger] tyboxes.0.0[rr],
                        orig.0.0[rr],
                        ty4_input_dual(*config, false, base, rr),
                        ty_dual4_of(*config, false, rr),
                        false,
                    ),
                    forall|rr: int| r <= rr < NRM1 ==> #[trigger] tyboxes.0.0[rr] == orig.0.0[rr],
                decreases NRM1 - r,
            {
                let mut w = tyboxes.0.0[r];
                w.apply_delta4(config.rounds.0[r - 1].delta(config.rounds.0[r], &shift_rows));
                tyboxes.0.0[r] = w;
                r += 1;
            }
            tboxes_last.apply_delta4(config.rounds.0[NRM1 - 1].delta(config.last, &shift_rows));
            tboxes_last.apply_delta4_inv(config.last.delta_inv(base));
        }
        let r = Self::new_base(tyboxes, tboxes_last, inv);
        proof {
            assert(r.karroumi4_built(tboxes, ty, sbox_fn, *round_keys, *config, base, inv));
        }
        r
    }

    /// The tables of a cipher in which every column of every round computes in
    /// its own dual cipher of `config`, for the cipher key `key`, whose
    /// schedule is the standard one.
    pub fn from_karroumi4_key<S: SBox + Copy, F: Fn(Dual) -> S, const NK: usize>(
        sbox_fn: F,
        key: Key<NK>,
        inv: bool,
        base: Dual4,
        config: &KarroumiConfig4<NRM1>,
    ) -> (r: Self)
        requires
            NRM1 >= 1,
            inv ==> NRM1 >= 2,
            config.wf(),
            config.accepted_by(sbox_fn),
            base.wf(),
            0 < NK <= 4 * (NRM1 + 2),
            4 * (NRM1 + 2) <= usize::MAX,
        ensures
            r.wf(),
            r.inv == inv,
            !r.uses_mbl && !r.uses_xor && !r.uses_xor_mbl,
            crate::security::unprotected(r),
            exists|rk: RoundKeys<NRM1>, tb: Tboxes<NRM1>, ty: KarroumiTy4<NRM1>|
                rk.schedule_matches(key.words(), crate::sbox::standard_sbox_table(), standard_dual())
                    && #[trigger] r.karroumi4_built(tb, ty, sbox_fn, rk, *config, base, inv),
    {
        let round_keys = expand_karroumi_keys_4(key);
        Self::from_karroumi4_round_keys(sbox_fn, &round_keys, inv, base, config)
    }
}

} // verus!
