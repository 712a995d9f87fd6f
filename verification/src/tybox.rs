//! Work tables: for every state position and byte, the row of four bytes
//! that a round contributes to the output column.

use vstd::prelude::*;

use crate::dual::Q;
use crate::tbox::Tboxes;
use crate::ty::Ty;
use crate::{RIArr, Row, SPos, X, XArr, RI};

verus! {

/// For every state position, the row that each input byte contributes.
#[derive(Clone, Copy, Debug)]
pub struct Work(pub [XArr<Row>; 16]);

/// The work tables of all rounds but the last.
#[derive(Clone, Copy, Debug)]
pub struct WorkRounds<const NRM1: usize>(pub RIArr<Work, NRM1>);

impl Work {
    /// Byte `k` of the row for byte `x` at position `p`.
    pub open spec fn entry(self, p: int, x: int, k: int) -> u8 {
        self.0[p].0[x].0[k]
    }

    /// All entries zero.
    pub fn zero() -> (r: Self)
        ensures
            forall|p: int, x: int, k: int| 0 <= p < 16 && 0 <= x < 256 && 0 <= k < 4 ==> r.entry(p, x, k) == 0,
    {
        Work([XArr([Row([0u8; 4]); 256]); 16])
    }

    /// Precomposes every table with `q`: the row for `x` becomes the old row
    /// for `q(x)`.
    pub fn apply_q(&mut self, q: Q)
        ensures
            forall|p: int, x: int| 0 <= p < 16 && 0 <= x < 256 ==> #[trigger] final(self).0[p].0[x] == old(self).0[p].0[q.0.image(x as u8) as int],
    {
        let mut i: usize = 0;
        while i < 16
            invariant
                i <= 16,
                forall|p: int, x: int| 0 <= p < i && 0 <= x < 256 ==> #[trigger] self.0[p].0[x] == old(self).0[p].0[q.0.image(x as u8) as int],
                forall|p: int| i <= p < 16 ==> #[trigger] self.0[p] == old(self).0[p],
            decreases 16 - i,
        {
            let old_t = self.0[i];
            let mut t = old_t;
            let mut x: usize = 0;
            while x < 256
                invariant
                    x <= 256,
                    forall|y: int| 0 <= y < x ==> #[trigger] t.0[y] == old_t.0[q.0.image(y as u8) as int],
                decreases 256 - x,
            {
                let idx = q.apply(X(x as u8));
                t.0[x] = old_t.0[idx.0 as usize];
                x += 1;
            }
            self.0[i] = t;
            i += 1;
        }
    }
}

impl<const NRM1: usize> WorkRounds<NRM1> {
    /// The tables combining the T-box of each round with Ty: the row for `x`
    /// at position `p` is the Ty contribution of the T-box output at `p`.
    pub fn new_tyi(tboxes: &Tboxes<NRM1>, ty: &Ty) -> (r: Self)
        ensures
            forall|rr: int, p: int, x: int|
                0 <= rr < NRM1 && 0 <= p < 16 && 0 <= x < 256 ==> #[trigger] r.0.0[rr].0[p].0[x].0 == ty.0[p % 4][tboxes.tboxes.0[rr].entry(x, p) as int],
    {
        let mut rounds: RIArr<Work, NRM1> = RIArr([Work::zero(); NRM1]);
        let mut r: usize = 0;
        while r < NRM1
            invariant
                r <= NRM1,
                forall|rr: int, p: int, x: int|
                    0 <= rr < r && 0 <= p < 16 && 0 <= x < 256 ==> #[trigger] rounds.0[rr].0[p].0[x].0 == ty.0[p % 4][tboxes.tboxes.0[rr].entry(x, p) as int],
            decreases NRM1 - r,
        {
            let mut w = Work::zero();
            let mut p: usize = 0;
            while p < 16
                invariant
                    r < NRM1,
                    p <= 16,
                    forall|p2: int, x: int|
                        0 <= p2 < p && 0 <= x < 256 ==> #[trigger] w.0[p2].0[x].0 == ty.0[p2 % 4][tboxes.tboxes.0[r as int].entry(x, p2) as int],
                decreases 16 - p,
            {
                let pos = SPos::from_index(p);
                let mut t = XArr([Row([0u8; 4]); 256]);
                let mut x: usize = 0;
                while x < 256
                    invariant
                        r < NRM1,
                        p < 16,
                        pos.idx() == p,
                        x <= 256,
                        forall|y: int| 0 <= y < x ==> #[trigger] t.0[y].0 == ty.0[(p % 4) as int][tboxes.tboxes.0[r as int].entry(y, p as int) as int],
                    decreases 256 - x,
                {
                    let i = pos.row();
                    let tboxv = tboxes.get(RI(r), X(x as u8), pos);
                    t.0[x] = ty.get_row(tboxv, i);
                    x += 1;
                }
                w.0[p] = t;
                p += 1;
            }
            rounds.0[r] = w;
            r += 1;
        }
        WorkRounds(rounds)
    }

    /// The tables of the mixing step without mixing: position `p` places its
    /// byte in entry `p % 4` of the row.
    pub fn new_mbl() -> (r: Self)
        ensures
            forall|rr: int, p: int, x: int, k: int|
                0 <= rr < NRM1 && 0 <= p < 16 && 0 <= x < 256 && 0 <= k < 4 ==> #[trigger] r.0.0[rr].entry(p, x, k) == if k == p % 4 {
                    x as u8
                } else {
                    0u8
                },
    {
        let mut round = Work::zero();
        let mut p: usize = 0;
        while p < 16
            invariant
                p <= 16,
                forall|p2: int, x: int, k: int|
                    0 <= p2 < 16 && 0 <= x < 256 && 0 <= k < 4 ==> #[trigger] round.entry(p2, x, k) == if p2 < p && k == p2 % 4 {
                        x as u8
                    } else {
                        0u8
                    },
            decreases 16 - p,
        {
            let pos = SPos::from_index(p);
            let mut t = XArr([Row([0u8; 4]); 256]);
            let mut x: usize = 0;
            while x < 256
                invariant
                    p < 16,
                    pos.idx() == p,
                    x <= 256,
                    forall|y: int, k: int| 0 <= y < 256 && 0 <= k < 4 ==> #[trigger] t.0[y].0[k] == if y < x && k == p % 4 {
                        y as u8
                    } else {
                        0u8
                    },
                decreases 256 - x,
            {
                let mut mblv = Row([0u8; 4]);
                mblv.0[pos.row().as_index()] = x as u8;
                t.0[x] = mblv;
                x += 1;
            }
            let ghost before = round;
            round.0[p] = t;
            proof {
                assert forall|p2: int, x: int, k: int|
                    0 <= p2 < 16 && 0 <= x < 256 && 0 <= k < 4 implies #[trigger] round.entry(p2, x, k) == if p2 < p + 1 && k == p2 % 4 {
                    x as u8
                } else {
                    0u8
                } by {
                    if p2 != p {
                        assert(round.entry(p2, x, k) == before.entry(p2, x, k));
                    }
                }
            }
            p += 1;
        }
        WorkRounds(RIArr([round; NRM1]))
    }
}

} // verus!
