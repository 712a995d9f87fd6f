//! Permutations of nibbles and the XOR tables of the white-box rounds.

use vstd::prelude::*;

use crate::{HighLow, Purpose, RIArr, SColumn, SPos, U4, RI};

verus! {

/// A permutation of the 16 state positions.
#[derive(Clone, Copy)]
pub struct ShiftRowsBijection(pub Bijection4);

impl ShiftRowsBijection {
    pub open spec fn map_spec(self, p: nat) -> nat {
        self.0.map_spec(p)
    }

    pub open spec fn wf(self) -> bool {
        self.0.wf()
    }

    pub fn identity() -> (r: Self)
        ensures
            r.wf(),
            forall|p: nat| p < 16 ==> r.map_spec(p) == p,
    {
        ShiftRowsBijection(Bijection4::identity())
    }

    pub fn map(&self, pos: SPos) -> (r: SPos)
        requires
            self.wf(),
        ensures
            r.idx() == self.map_spec(pos.idx()),
    {
        SPos(self.0.map(pos.0))
    }
}

/// A permutation of the nibbles 0..16; entry `i` is the image of `i`.
#[derive(Clone, Copy, Debug)]
pub struct Bijection4(pub [u8; 16]);

impl Bijection4 {
    pub open spec fn map_spec(self, i: nat) -> nat {
        self.0[i as int] as nat
    }

    /// Every entry is a nibble and no two entries are equal.
    pub open spec fn wf(self) -> bool {
        &&& forall|i: int| 0 <= i < 16 ==> self.0[i] < 16
        &&& forall|i: int, j: int| 0 <= i < j < 16 ==> self.0[i] != self.0[j]
    }

    /// The entry `j` with `map(j) == v`.
    pub open spec fn unmap_spec(self, v: nat) -> nat {
        choose|j: nat| j < 16 && self.map_spec(j) == v
    }

    pub fn identity() -> (r: Self)
        ensures
            r.wf(),
            forall|i: nat| i < 16 ==> r.map_spec(i) == i,
    {
        Bijection4([0u8, 1, 2, 3, 4, 5, 6, 7, 8, 9, 10, 11, 12, 13, 14, 15])
    }

    /// The permutation `i -> v[i]`; the entries of `v` must be distinct.
    pub fn new(v: [U4; 16]) -> (r: Self)
        requires
            forall|i: int, j: int| 0 <= i < j < 16 ==> v[i] != v[j],
        ensures
            r.wf(),
            forall|i: nat| i < 16 ==> r.map_spec(i) == v[i as int].idx(),
    {
        let mut out = [0u8; 16];
        let mut i: usize = 0;
        while i < 16
            invariant
                i <= 16,
                forall|k: int| 0 <= k < i ==> out[k] == v[k].idx(),
                forall|k: int| 0 <= k < 16 ==> out[k] < 16,
            decreases 16 - i,
        {
            out[i] = v[i].as_index() as u8;
            i += 1;
        }
        proof {
            assert forall|a: int, b: int| 0 <= a < b < 16 implies out[a] != out[b] by {
                if out[a] == out[b] {
                    lemma_u4_idx_injective(v[a], v[b]);
                }
            }
        }
        Bijection4(out)
    }

    /// The permutation `i -> i ^ x`.
    pub fn xor_identity(x: U4) -> (r: Self)
        ensures
            r.wf(),
            forall|i: nat| i < 16 ==> r.map_spec(i) == (i as u8 ^ x.idx() as u8),
    {
        let mut out = [0u8; 16];
        let xv = x.as_index() as u8;
        let mut i: usize = 0;
        while i < 16
            invariant
                i <= 16,
                xv == x.idx(),
                xv < 16,
                forall|k: int| 0 <= k < i ==> out[k] == (k as u8 ^ xv),
                forall|k: int| 0 <= k < 16 ==> out[k] < 16,
            decreases 16 - i,
        {
            let iv = i as u8;
            proof {
                crate::lemma_xor_u8(iv, xv, 0);
            }
            out[i] = iv ^ xv;
            i += 1;
        }
        proof {
            assert forall|a: int, b: int| 0 <= a < b < 16 implies out[a] != out[b] by {
                let au = a as u8;
                let bu = b as u8;
                crate::lemma_xor_u8(xv, au, bu);
                assert((au ^ xv) == (xv ^ au) && (bu ^ xv) == (xv ^ bu)) by (bit_vector);
            }
        }
        Bijection4(out)
    }

    pub fn map(&self, i: U4) -> (r: U4)
        requires
            self.wf(),
        ensures
            r.idx() == self.map_spec(i.idx()),
    {
        U4::from_index(self.0[i.as_index()] as usize)
    }

    /// The preimage of `v`.
    pub fn unmap(&self, v: U4) -> (r: U4)
        requires
            self.wf(),
        ensures
            self.map_spec(r.idx()) == v.idx(),
            r.idx() == self.unmap_spec(v.idx()),
    {
        proof {
            self.lemma_surjective(v.idx());
        }
        let mut i: usize = 0;
        while i < 16
            invariant
                i <= 16,
                self.wf(),
                forall|k: int| 0 <= k < i ==> self.0[k] != v.idx(),
                exists|j: int| 0 <= j < 16 && self.0[j] == v.idx(),
            decreases 16 - i,
        {
            if self.0[i] as usize == v.as_index() {
                proof {
                    self.lemma_unmap_unique(v.idx(), i as nat);
                }
                return U4::from_index(i);
            }
            i += 1;
        }
        proof {
            assert(false);
        }
        U4::from_index(0)
    }

    /// `unmap` if `inv`, `map` otherwise.
    pub fn mapunmap(&self, v: U4, inv: bool) -> (r: U4)
        requires
            self.wf(),
        ensures
            r.idx() == (if inv {
                self.unmap_spec(v.idx())
            } else {
                self.map_spec(v.idx())
            }),
    {
        if inv {
            self.unmap(v)
        } else {
            self.map(v)
        }
    }

    /// The inverse permutation.
    pub fn invert(self) -> (r: Self)
        requires
            self.wf(),
        ensures
            r.wf(),
            forall|i: nat| i < 16 ==> r.map_spec(self.map_spec(i)) == i,
            forall|i: nat| i < 16 ==> self.map_spec(r.map_spec(i)) == i,
    {
        let mut out = [0u8; 16];
        let mut i: usize = 0;
        while i < 16
            invariant
                i <= 16,
                self.wf(),
                forall|k: int| 0 <= k < i ==> out[self.0[k] as int] == k,
                forall|k: int|
                    0 <= k < 16 ==> out[k] < 16 && (exists|j: int| 0 <= j < i && self.0[j] == k)
                        || out[k] == 0 && (forall|j: int| 0 <= j < i ==> self.0[j] != k),
            decreases 16 - i,
        {
            let ghost before = out;
            out[self.0[i] as usize] = i as u8;
            proof {
                assert forall|k: int| 0 <= k < i + 1 implies out[self.0[k] as int] == k by {
                    if k < i {
                        assert(self.0[k] != self.0[i as int]);
                    }
                }
                assert forall|k: int|
                    0 <= k < 16 implies out[k] < 16 && (exists|j: int| 0 <= j < i + 1 && self.0[j] == k)
                        || out[k] == 0 && (forall|j: int| 0 <= j < i + 1 ==> self.0[j] != k) by {
                    if k == self.0[i as int] {
                        assert(self.0[i as int] == k);
                    }
                }
            }
            i += 1;
        }
        proof {
            assert forall|k: int| 0 <= k < 16 implies out[k] < 16 by {
                self.lemma_surjective(k as nat);
            }
            assert forall|a: int, b: int| 0 <= a < b < 16 implies out[a] != out[b] by {
                self.lemma_surjective(a as nat);
                self.lemma_surjective(b as nat);
                let ja = choose|j: int| 0 <= j < 16 && self.0[j] == a;
                let jb = choose|j: int| 0 <= j < 16 && self.0[j] == b;
                assert(out[self.0[ja] as int] == ja);
                assert(out[self.0[jb] as int] == jb);
            }
            assert forall|i: nat| i < 16 implies self.map_spec(out[i as int] as nat) == i by {
                self.lemma_surjective(i);
                let j = choose|j: int| 0 <= j < 16 && self.0[j] == i;
                assert(out[self.0[j] as int] == j);
            }
        }
        Bijection4(out)
    }

    /// Every nibble has a preimage.
    pub proof fn lemma_surjective(self, v: nat)
        requires
            self.wf(),
            v < 16,
        ensures
            exists|j: int| 0 <= j < 16 && self.0[j] == v,
    {
        crate::lemma_pigeonhole_16(self.0, v);
    }

    proof fn lemma_unmap_unique(self, v: nat, i: nat)
        requires
            self.wf(),
            i < 16,
            self.0[i as int] == v,
        ensures
            self.unmap_spec(v) == i,
    {
        assert(i < 16 && self.map_spec(i) == v);
        let j = self.unmap_spec(v);
        assert(j < 16 && self.map_spec(j) == v);
        if j != i {
            if j < i {
                assert(self.0[j as int] != self.0[i as int]);
            } else {
                assert(self.0[i as int] != self.0[j as int]);
            }
        }
    }

    /// `unmap` undoes `map`.
    pub proof fn lemma_unmap_map(self, i: nat)
        requires
            self.wf(),
            i < 16,
        ensures
            self.unmap_spec(self.map_spec(i)) == i,
    {
        self.lemma_unmap_unique(self.map_spec(i), i);
    }

    /// `map` undoes `unmap`.
    pub proof fn lemma_map_unmap(self, v: nat)
        requires
            self.wf(),
            v < 16,
        ensures
            self.unmap_spec(v) < 16,
            self.map_spec(self.unmap_spec(v)) == v,
    {
        self.lemma_surjective(v);
        let j = choose|j: int| 0 <= j < 16 && self.0[j] == v;
        assert((j as nat) < 16 && self.map_spec(j as nat) == v);
    }
}

proof fn lemma_u4_idx_injective(a: U4, b: U4)
    requires
        a.idx() == b.idx(),
    ensures
        a == b,
{
}


/// The XOR tables of one output column: for every purpose (the two inputs
/// and the output of a cascade), byte column, nibble half and first operand,
/// the permutation of the second operand.
pub type XorColumn = [[[[Bijection4; 16]; 2]; 4]; 3];

/// Every permutation of the tables is well formed.
pub open spec fn xor_column_wf(t: XorColumn) -> bool {
    forall|p: int, v: int, h: int, a: int|
        0 <= p < 3 && 0 <= v < 4 && 0 <= h < 2 && 0 <= a < 16 ==> #[trigger] t[p][v][h][a].wf()
}

/// The XOR tables of one round, for each output column.
#[derive(Clone, Copy, Debug)]
pub struct XorRound(pub [XorColumn; 4]);

/// The XOR tables of all rounds but the last.
#[derive(Clone, Copy, Debug)]
pub struct Xor<const NRM1: usize>(pub RIArr<XorRound, NRM1>);

/// The tables of one output column of one round.
#[derive(Clone, Copy)]
pub struct XorPartial<'t>(pub &'t XorColumn);

impl XorRound {
    pub open spec fn wf(self) -> bool {
        forall|j: int| 0 <= j < 4 ==> #[trigger] xor_column_wf(self.0[j])
    }

    /// Tables that compute the plain XOR of their operands.
    pub open spec fn is_identity(self) -> bool {
        forall|j: int, p: int, v: int, h: int, a: int, b: nat|
            0 <= j < 4 && 0 <= p < 3 && 0 <= v < 4 && 0 <= h < 2 && 0 <= a < 16 && b < 16 ==> #[trigger] self.0[j][p][v][h][a].map_spec(b) == (b as u8 ^ a as u8)
    }

    pub fn identity() -> (r: Self)
        ensures
            r.wf(),
            r.is_identity(),
    {
        let mut nib = [Bijection4::identity(); 16];
        let mut a: usize = 0;
        while a < 16
            invariant
                a <= 16,
                forall|k: int| 0 <= k < 16 ==> #[trigger] nib[k].wf(),
                forall|k: int, b: nat| 0 <= k < a && b < 16 ==> #[trigger] nib[k].map_spec(b) == (b as u8 ^ k as u8),
            decreases 16 - a,
        {
            nib[a] = Bijection4::xor_identity(U4::from_index(a));
            a += 1;
        }
        let r = XorRound([[[[nib; 2]; 4]; 3]; 4]);
        assert forall|j: int| 0 <= j < 4 implies #[trigger] xor_column_wf(r.0[j]) by {
            assert forall|p: int, v: int, h: int, a: int|
                0 <= p < 3 && 0 <= v < 4 && 0 <= h < 2 && 0 <= a < 16 implies #[trigger] r.0[j][p][v][h][a].wf() by {
                assert(r.0[j][p][v][h][a] == nib[a]);
            }
        }
        assert forall|j: int, p: int, v: int, h: int, a: int, b: nat|
            0 <= j < 4 && 0 <= p < 3 && 0 <= v < 4 && 0 <= h < 2 && 0 <= a < 16 && b < 16 implies #[trigger] r.0[j][p][v][h][a].map_spec(b) == (b as u8 ^ a as u8) by {
            assert(r.0[j][p][v][h][a] == nib[a]);
        }
        r
    }
}

impl<const NRM1: usize> Xor<NRM1> {
    pub open spec fn wf(self) -> bool {
        forall|r: int| 0 <= r < NRM1 ==> #[trigger] self.0.0[r].wf()
    }

    /// The tables of output column `j` of round `r`.
    pub fn partial_map(&self, r: RI, j: SColumn) -> (p: XorPartial<'_>)
        requires
            r.0 < NRM1,
        ensures
            *p.0 == self.0.0[r.0 as int].0[j.0.idx() as int],
    {
        XorPartial(&self.0.0[r.0].0[j.as_index()])
    }

    /// Plain XOR tables for every round.
    pub fn identity() -> (r: Self)
        ensures
            r.wf(),
            forall|k: int| 0 <= k < NRM1 ==> #[trigger] r.0.0[k].is_identity(),
    {
        let round = XorRound::identity();
        Xor(RIArr([round; NRM1]))
    }
}

impl<'t> XorPartial<'t> {
    /// The second operand `b` mapped by the table of the first operand `a`.
    pub fn map(&self, purpose: Purpose, column: SColumn, high_low: HighLow, a: U4, b: U4) -> (r: U4)
        requires
            xor_column_wf(*self.0),
        ensures
            r.idx() == self.0[purpose.idx() as int][column.0.idx() as int][high_low.idx() as int][a.idx() as int].map_spec(b.idx()),
    {
        self.0[purpose.as_index()][column.as_index()][high_low.as_index()][a.as_index()].map(b)
    }
}
} // verus!
