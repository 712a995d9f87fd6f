//! Internal encodings: random nibble permutations applied to the outputs of
//! the tables and undone by the XOR tables that read them.

use vstd::prelude::*;

use crate::tbox::Tbox;
use crate::tybox::Work;
use crate::xor::{Bijection4, ShiftRowsBijection, XorRound, xor_column_wf};
use crate::{HighLow, Purpose, SPos, U4, X};

verus! {

/// A random permutation of the nibbles (the distribution of `Bijection4` values).
pub fn random_bijection4(rng: &mut rand::rngs::ThreadRng) -> (r: Bijection4)
    ensures
        r.wf(),
{
    let mut identity = [U4::from_index(0); 16];
    let mut i: usize = 0;
    while i < 16
        invariant
            i <= 16,
            forall|k: int| 0 <= k < i ==> #[trigger] identity[k].idx() == k,
        decreases 16 - i,
    {
        identity[i] = U4::from_index(i);
        i += 1;
    }
    let ghost before = identity@;
    assert(before.no_duplicates()) by {
        assert forall|a: int, b: int| 0 <= a < 16 && 0 <= b < 16 && a != b implies before[a] != before[b] by {
            assert(before[a].idx() == a);
            assert(before[b].idx() == b);
        }
    }
    crate::random::shuffle(&mut identity, rng);
    proof {
        before.lemma_multiset_has_no_duplicates();
        identity@.lemma_multiset_has_no_duplicates_conv();
    }
    Bijection4::new(identity)
}

/// A permutation of each nibble of each state position; entry `[c][r][h]`
/// is for column `c`, row `r` and nibble half `h`.
#[derive(Clone, Copy, Debug)]
pub struct XorEncodingSingle(pub [[[Bijection4; 2]; 4]; 4]);

impl XorEncodingSingle {
    pub open spec fn wf(self) -> bool {
        forall|c: int, r: int, h: int| 0 <= c < 4 && 0 <= r < 4 && 0 <= h < 2 ==> #[trigger] self.0[c][r][h].wf()
    }

    /// The permutation of nibble half `h` at position `p`.
    pub open spec fn nib_spec(self, p: int, h: int) -> Bijection4 {
        self.0[p / 4][p % 4][h]
    }

    /// The byte `x` at position `p` with both nibbles mapped, or with `inv` unmapped.
    pub open spec fn map_spec(self, p: int, x: u8, inv: bool) -> u8 {
        let hi = x / 16;
        let lo = x % 16;
        let a = if inv {
            self.nib_spec(p, 0).unmap_spec(hi as nat)
        } else {
            self.nib_spec(p, 0).map_spec(hi as nat)
        };
        let b = if inv {
            self.nib_spec(p, 1).unmap_spec(lo as nat)
        } else {
            self.nib_spec(p, 1).map_spec(lo as nat)
        };
        (a * 16 + b) as u8
    }

    pub fn identity() -> (r: Self)
        ensures
            r.wf(),
            forall|p: int, h: int, i: nat| 0 <= p < 16 && 0 <= h < 2 && i < 16 ==> #[trigger] r.nib_spec(p, h).map_spec(i) == i,
    {
        let id = Bijection4::identity();
        XorEncodingSingle([[[id; 2]; 4]; 4])
    }

    /// A random permutation for every nibble.
    pub fn random(rng: &mut rand::rngs::ThreadRng) -> (r: Self)
        ensures
            r.wf(),
    {
        let id = Bijection4::identity();
        let mut out = [[[id; 2]; 4]; 4];
        let mut c: usize = 0;
        while c < 4
            invariant
                c <= 4,
                forall|c2: int, r: int, h: int| 0 <= c2 < 4 && 0 <= r < 4 && 0 <= h < 2 ==> #[trigger] out[c2][r][h].wf(),
            decreases 4 - c,
        {
            let mut r: usize = 0;
            while r < 4
                invariant
                    c < 4,
                    r <= 4,
                    forall|c2: int, r2: int, h: int| 0 <= c2 < 4 && 0 <= r2 < 4 && 0 <= h < 2 ==> #[trigger] out[c2][r2][h].wf(),
                decreases 4 - r,
            {
                let a = random_bijection4(rng);
                let b = random_bijection4(rng);
                let mut col = out[c];
                col[r] = [a, b];
                out[c] = col;
                r += 1;
            }
            c += 1;
        }
        XorEncodingSingle(out)
    }

    pub fn nibble(&self, pos: SPos, hl: HighLow) -> (r: Bijection4)
        ensures
            r == self.nib_spec(pos.idx() as int, hl.idx() as int),
    {
        self.0[pos.column().as_index()][pos.row().as_index()][hl.as_index()]
    }

    /// The byte `x` at `pos` mapped, or with `inv` unmapped.
    pub fn mapunmap(&self, pos: SPos, x: X, inv: bool) -> (r: X)
        requires
            self.wf(),
        ensures
            r.0 == self.map_spec(pos.idx() as int, x.0, inv),
    {
        let (a, b) = x.as_nibs();
        let na = self.nibble(pos, HighLow::High);
        let nb = self.nibble(pos, HighLow::Low);
        assert(na.wf() && nb.wf());
        let a = na.mapunmap(a, inv);
        let b = nb.mapunmap(b, inv);
        proof {
            if inv {
                na.lemma_map_unmap((x.0 / 16) as nat);
                nb.lemma_map_unmap((x.0 % 16) as nat);
            }
        }
        X::nibs(a, b)
    }

    pub fn map(&self, pos: SPos, x: X) -> (r: X)
        requires
            self.wf(),
        ensures
            r.0 == self.map_spec(pos.idx() as int, x.0, false),
    {
        self.mapunmap(pos, x, false)
    }

    pub fn unmap(&self, pos: SPos, x: X) -> (r: X)
        requires
            self.wf(),
        ensures
            r.0 == self.map_spec(pos.idx() as int, x.0, true),
    {
        self.mapunmap(pos, x, true)
    }

    /// Unmapping undoes mapping.
    pub proof fn lemma_unmap_map(self, p: int, x: u8)
        requires
            self.wf(),
            0 <= p < 16,
        ensures
            self.map_spec(p, self.map_spec(p, x, false), true) == x,
    {
        let n0 = self.nib_spec(p, 0);
        let n1 = self.nib_spec(p, 1);
        assert(n0.wf() && n1.wf());
        let a = n0.map_spec((x / 16) as nat);
        let b = n1.map_spec((x % 16) as nat);
        assert(a < 16 && b < 16);
        let y = (a * 16 + b) as u8;
        assert(y / 16 == a && y % 16 == b);
        n0.lemma_unmap_map((x / 16) as nat);
        n1.lemma_unmap_map((x % 16) as nat);
    }
}

/// The encodings of the three XOR tables of a round: the inputs and output of
/// the tables combining the first two rows, the last two rows, and the two results.
pub struct XorEncoding {
    pub xor_high: [XorEncodingSingle; 3],
    pub xor_low: [XorEncodingSingle; 3],
    pub xor_output: [XorEncodingSingle; 3],
}

impl XorEncoding {
    pub open spec fn wf(self) -> bool {
        &&& forall|k: int| 0 <= k < 3 ==> #[trigger] self.xor_high[k].wf()
        &&& forall|k: int| 0 <= k < 3 ==> #[trigger] self.xor_low[k].wf()
        &&& forall|k: int| 0 <= k < 3 ==> #[trigger] self.xor_output[k].wf()
    }

    /// Encodings whose inputs are the output encodings of the four rows of
    /// the tyboxes, with fresh random encodings of the intermediate and final results.
    pub fn random_from_tyi(rng: &mut rand::rngs::ThreadRng, tyi_output_coding: [XorEncodingSingle; 4]) -> (r: Self)
        requires
            forall|k: int| 0 <= k < 4 ==> #[trigger] tyi_output_coding[k].wf(),
        ensures
            r.wf(),
            r.xor_high[0] == tyi_output_coding[0],
            r.xor_high[1] == tyi_output_coding[1],
            r.xor_low[0] == tyi_output_coding[2],
            r.xor_low[1] == tyi_output_coding[3],
            r.xor_output[0] == r.xor_high[2],
            r.xor_output[1] == r.xor_low[2],
    {
        let xor_high = [tyi_output_coding[0], tyi_output_coding[1], XorEncodingSingle::random(rng)];
        let xor_low = [tyi_output_coding[2], tyi_output_coding[3], XorEncodingSingle::random(rng)];
        let xor_output = [xor_high[2], xor_low[2], XorEncodingSingle::random(rng)];
        XorEncoding { xor_high, xor_low, xor_output }
    }
}

/// The table of the first operand `a` of an encoded XOR: the second operand
/// `b` goes to `out(in_a^-1(a) ^ in_b^-1(b))`.
pub open spec fn encoded_xor(in_a: Bijection4, in_b: Bijection4, out: Bijection4, a: nat, b: nat) -> nat {
    out.map_spec((in_a.unmap_spec(a) as u8 ^ in_b.unmap_spec(b) as u8) as nat)
}

impl XorRound {
    /// Encodes the three XOR tables of every output column with `encoding`;
    /// the encoding of the result is returned.
    pub fn encode(&mut self, encoding: XorEncoding) -> (r: XorEncodingSingle)
        requires
            old(self).wf(),
            encoding.wf(),
        ensures
            final(self).wf(),
            r == encoding.xor_output[2],
            final(self).encoded_with(Purpose::High, encoding.xor_high),
            final(self).encoded_with(Purpose::Low, encoding.xor_low),
            final(self).encoded_with(Purpose::Output, encoding.xor_output),
    {
        self.encode_single(Purpose::High, &encoding.xor_high);
        self.encode_single(Purpose::Low, &encoding.xor_low);
        self.encode_single(Purpose::Output, &encoding.xor_output);
        encoding.xor_output[2]
    }

    /// The tables of `purpose` are the encoded XOR of `encoding`.
    pub open spec fn encoded_with(self, purpose: Purpose, encoding: [XorEncodingSingle; 3]) -> bool {
        forall|i: int, h: int, j: int, a: int, b: nat|
            0 <= i < 4 && 0 <= h < 2 && 0 <= j < 4 && 0 <= a < 16 && b < 16 ==> #[trigger] self.0[i][purpose.idx() as int][j][h][a].map_spec(b) == encoded_xor(
                encoding[0].0[i][j][h],
                encoding[1].0[i][j][h],
                encoding[2].0[i][j][h],
                a as nat,
                b,
            )
    }

    /// Replaces the tables of `table_purpose` by the encoded XOR of `encoding`.
    pub fn encode_single(&mut self, table_purpose: Purpose, encoding: &[XorEncodingSingle; 3])
        requires
            old(self).wf(),
            forall|k: int| 0 <= k < 3 ==> #[trigger] encoding[k].wf(),
        ensures
            final(self).wf(),
            final(self).encoded_with(table_purpose, *encoding),
            forall|i: int, p: int| 0 <= i < 4 && 0 <= p < 3 && p != table_purpose.idx() ==> #[trigger] final(self).0[i][p] == old(self).0[i][p],
    {
        let pi = table_purpose.as_index();
        let mut i: usize = 0;
        while i < 4
            invariant
                i <= 4,
                pi == table_purpose.idx(),
                self.wf(),
                forall|k: int| 0 <= k < 3 ==> #[trigger] encoding[k].wf(),
                forall|i2: int, p: int| 0 <= i2 < 4 && 0 <= p < 3 && p != pi ==> #[trigger] self.0[i2][p] == old(self).0[i2][p],
                forall|i2: int, h: int, j: int, a: int, b: nat|
                    0 <= i2 < i && 0 <= h < 2 && 0 <= j < 4 && 0 <= a < 16 && b < 16 ==> #[trigger] self.0[i2][pi as int][j][h][a].map_spec(b) == encoded_xor(
                        encoding[0].0[i2][j][h],
                        encoding[1].0[i2][j][h],
                        encoding[2].0[i2][j][h],
                        a as nat,
                        b,
                    ),
            decreases 4 - i,
        {
            assert(xor_column_wf(self.0[i as int]));
            let mut tables = self.0[i][pi];
            let mut j: usize = 0;
            while j < 4
                invariant
                    i < 4,
                    j <= 4,
                    pi < 3,
                    forall|k: int| 0 <= k < 3 ==> #[trigger] encoding[k].wf(),
                    forall|j2: int, h: int, a: int| 0 <= j2 < 4 && 0 <= h < 2 && 0 <= a < 16 ==> #[trigger] tables[j2][h][a].wf(),
                    forall|j2: int, h: int, a: int, b: nat|
                        0 <= j2 < j && 0 <= h < 2 && 0 <= a < 16 && b < 16 ==> #[trigger] tables[j2][h][a].map_spec(b) == encoded_xor(
                            encoding[0].0[i as int][j2][h],
                            encoding[1].0[i as int][j2][h],
                            encoding[2].0[i as int][j2][h],
                            a as nat,
                            b,
                        ),
                decreases 4 - j,
            {
                let mut h: usize = 0;
                while h < 2
                    invariant
                        i < 4,
                        j < 4,
                        h <= 2,
                        forall|k: int| 0 <= k < 3 ==> #[trigger] encoding[k].wf(),
                        forall|j2: int, h2: int, a: int| 0 <= j2 < 4 && 0 <= h2 < 2 && 0 <= a < 16 ==> #[trigger] tables[j2][h2][a].wf(),
                        forall|j2: int, h2: int, a: int, b: nat|
                            (0 <= j2 < j || (j2 == j && 0 <= h2 < h)) && 0 <= h2 < 2 && 0 <= a < 16 && b < 16 ==> #[trigger] tables[j2][h2][a].map_spec(b) == encoded_xor(
                                encoding[0].0[i as int][j2][h2],
                                encoding[1].0[i as int][j2][h2],
                                encoding[2].0[i as int][j2][h2],
                                a as nat,
                                b,
                            ),
                    decreases 2 - h,
                {
                    assert(encoding[0].wf() && encoding[1].wf() && encoding[2].wf());
                    let perm1 = encoding[0].0[i][j][h];
                    let perm2 = encoding[1].0[i][j][h];
                    let perm3 = encoding[2].0[i][j][h];
                    assert(perm1.wf() && perm2.wf() && perm3.wf());
                    let mut row = tables[j][h];
                    let mut a: usize = 0;
                    while a < 16
                        invariant
                            a <= 16,
                            perm1.wf() && perm2.wf() && perm3.wf(),
                            forall|a2: int| 0 <= a2 < 16 ==> #[trigger] row[a2].wf(),
                            forall|a2: int, b: nat| 0 <= a2 < a && b < 16 ==> #[trigger] row[a2].map_spec(b) == encoded_xor(perm1, perm2, perm3, a2 as nat, b),
                        decreases 16 - a,
                    {
                        row[a] = Self::encoded_bijection(&perm1, &perm2, &perm3, U4::from_index(a));
                        a += 1;
                    }
                    let mut th = tables[j];
                    th[h] = row;
                    tables[j] = th;
                    h += 1;
                }
                j += 1;
            }
            let ghost before = *self;
            let mut ti = self.0[i];
            ti[pi] = tables;
            self.0[i] = ti;
            proof {
                assert forall|j: int| 0 <= j < 4 implies #[trigger] xor_column_wf(self.0[j]) by {
                    if j != i {
                        assert(self.0[j] == before.0[j]);
                        assert(xor_column_wf(before.0[j]));
                    } else {
                        assert forall|p: int, v: int, hh: int, a: int|
                            0 <= p < 3 && 0 <= v < 4 && 0 <= hh < 2 && 0 <= a < 16 implies #[trigger] self.0[j][p][v][hh][a].wf() by {
                            if p != pi {
                                assert(self.0[j][p] == before.0[j][p]);
                            }
                        }
                    }
                }
            }
            i += 1;
        }
    }

    fn encoded_bijection(perm1: &Bijection4, perm2: &Bijection4, perm3: &Bijection4, a: U4) -> (r: Bijection4)
        requires
            perm1.wf() && perm2.wf() && perm3.wf(),
        ensures
            r.wf(),
            forall|b: nat| b < 16 ==> #[trigger] r.map_spec(b) == encoded_xor(*perm1, *perm2, *perm3, a.idx(), b),
    {
        let ua = perm1.unmap(a);
        let mut v = [U4::from_index(0); 16];
        let mut b: usize = 0;
        while b < 16
            invariant
                b <= 16,
                perm1.wf() && perm2.wf() && perm3.wf(),
                ua.idx() == perm1.unmap_spec(a.idx()),
                forall|b2: int| 0 <= b2 < b ==> #[trigger] v[b2].idx() == encoded_xor(*perm1, *perm2, *perm3, a.idx(), b2 as nat),
            decreases 16 - b,
        {
            let ub = perm2.unmap(U4::from_index(b));
            v[b] = perm3.map(ua.xor(ub));
            b += 1;
        }
        proof {
            assert forall|x: int, y: int| 0 <= x < y < 16 implies v[x] != v[y] by {
                perm2.lemma_map_unmap(x as nat);
                perm2.lemma_map_unmap(y as nat);
                let ux = perm2.unmap_spec(x as nat);
                let uy = perm2.unmap_spec(y as nat);
                assert(ux != uy);
                let c = perm1.unmap_spec(a.idx());
                perm1.lemma_map_unmap(a.idx());
                let cu = c as u8;
                let xu = ux as u8;
                let yu = uy as u8;
                crate::lemma_xor_u8(cu, xu, yu);
                crate::lemma_xor_u8(cu, yu, 0);
                let px = (cu ^ xu) as nat;
                let py = (cu ^ yu) as nat;
                perm3.lemma_unmap_map(px);
                perm3.lemma_unmap_map(py);
                assert(v[x].idx() == perm3.map_spec(px));
                assert(v[y].idx() == perm3.map_spec(py));
                if v[x] == v[y] {
                    assert(perm3.unmap_spec(perm3.map_spec(px)) == perm3.unmap_spec(perm3.map_spec(py)));
                    assert(false);
                }
            }
        }
        Bijection4::new(v)
    }
}

/// The byte `v` with both nibbles of column `c` of a row mapped by `enc`.
pub open spec fn encode_row_byte(enc: XorEncodingSingle, p: int, c: int, v: u8) -> u8 {
    let hi = enc.0[p / 4][c][0].map_spec((v / 16) as nat);
    let lo = enc.0[p / 4][c][1].map_spec((v % 16) as nat);
    (hi * 16 + lo) as u8
}

impl Work {
    /// Decodes the input of every table with `input_encoding` (at the
    /// position ShiftRows takes the byte from) and encodes every output nibble
    /// with the encoding of the row in `output_encoding`.
    pub fn encode(
        &mut self,
        input_encoding: &Option<XorEncodingSingle>,
        output_encoding: &Option<[XorEncodingSingle; 4]>,
        shift: &ShiftRowsBijection,
    )
        requires
            shift.wf(),
            match input_encoding {
                Some(e) => e.wf(),
                None => true,
            },
            match output_encoding {
                Some(o) => forall|k: int| 0 <= k < 4 ==> #[trigger] o[k].wf(),
                None => true,
            },
        ensures
            forall|p: int, x: int, c: int|
                0 <= p < 16 && 0 <= x < 256 && 0 <= c < 4 ==> #[trigger] final(self).0[p].0[x].0[c] == ({
                    let temp = match input_encoding {
                        Some(e) => e.map_spec(shift.map_spec(p as nat) as int, x as u8, true),
                        None => x as u8,
                    };
                    let v = old(self).0[p].0[temp as int].0[c];
                    match output_encoding {
                        Some(o) => encode_row_byte(o[p % 4], p, c, v),
                        None => v,
                    }
                }),
    {
        let mut i: usize = 0;
        while i < 16
            invariant
                i <= 16,
                shift.wf(),
                match input_encoding {
                    Some(e) => e.wf(),
                    None => true,
                },
                match output_encoding {
                    Some(o) => forall|k: int| 0 <= k < 4 ==> #[trigger] o[k].wf(),
                    None => true,
                },
                forall|p: int| i <= p < 16 ==> #[trigger] self.0[p] == old(self).0[p],
                forall|p: int, x: int, c: int|
                    0 <= p < i && 0 <= x < 256 && 0 <= c < 4 ==> #[trigger] self.0[p].0[x].0[c] == ({
                        let temp = match input_encoding {
                            Some(e) => e.map_spec(shift.map_spec(p as nat) as int, x as u8, true),
                            None => x as u8,
                        };
                        let v = old(self).0[p].0[temp as int].0[c];
                        match output_encoding {
                            Some(o) => encode_row_byte(o[p % 4], p, c, v),
                            None => v,
                        }
                    }),
            decreases 16 - i,
        {
            let pos = SPos::from_index(i);
            let tybox_copy = self.0[i];
            let mut t = tybox_copy;
            let mut x: usize = 0;
            while x < 256
                invariant
                    x <= 256,
                    i < 16,
                    pos.idx() == i,
                    shift.wf(),
                    tybox_copy == old(self).0[i as int],
                    match input_encoding {
                        Some(e) => e.wf(),
                        None => true,
                    },
                    match output_encoding {
                        Some(o) => forall|k: int| 0 <= k < 4 ==> #[trigger] o[k].wf(),
                        None => true,
                    },
                    forall|y: int, c: int|
                        0 <= y < x && 0 <= c < 4 ==> #[trigger] t.0[y].0[c] == ({
                            let temp = match input_encoding {
                                Some(e) => e.map_spec(shift.map_spec(i as nat) as int, y as u8, true),
                                None => y as u8,
                            };
                            let v = tybox_copy.0[temp as int].0[c];
                            match output_encoding {
                                Some(o) => encode_row_byte(o[(i % 4) as int], i as int, c, v),
                                None => v,
                            }
                        }),
                decreases 256 - x,
            {
                let shifted_index = shift.map(pos);
                let mut temp = X(x as u8);
                match input_encoding {
                    Some(e) => {
                        temp = e.unmap(shifted_index, temp);
                    },
                    None => {},
                }
                let mut res = tybox_copy.0[temp.0 as usize];
                let ghost v0 = res;
                match output_encoding {
                    Some(o) => {
                        let enc = o[pos.row().as_index()];
                        assert(enc.wf());
                        let mut c: usize = 0;
                        while c < 4
                            invariant
                                c <= 4,
                                i < 16,
                                pos.idx() == i,
                                enc.wf(),
                                enc == o[(i % 4) as int],
                                forall|c2: int| 0 <= c2 < c ==> #[trigger] res.0[c2] == encode_row_byte(enc, i as int, c2, v0.0[c2]),
                                forall|c2: int| c <= c2 < 4 ==> #[trigger] res.0[c2] == v0.0[c2],
                            decreases 4 - c,
                        {
                            let b = res.0[c];
                            let nh = enc.0[pos.column().as_index()][c][0];
                            let nl = enc.0[pos.column().as_index()][c][1];
                            assert(nh.wf() && nl.wf());
                            assert(nh == enc.0[(i / 4) as int][c as int][0]);
                            let hi = nh.map(U4::from_index((b / 16) as usize));
                            let lo = nl.map(U4::from_index((b % 16) as usize));
                            let nb = X::nibs(hi, lo).0;
                            assert(nb == encode_row_byte(enc, i as int, c as int, v0.0[c as int]));
                            res.0[c] = nb;
                            c += 1;
                        }
                    },
                    None => {},
                }
                t.0[x] = res;
                x += 1;
            }
            self.0[i] = t;
            i += 1;
        }
    }
}

impl Tbox {
    /// Decodes the input of every position with `input_encoding`, at the
    /// position ShiftRows takes the byte from.
    pub fn encode(&mut self, input_encoding: &XorEncodingSingle, shift_tables: &ShiftRowsBijection)
        requires
            input_encoding.wf(),
            shift_tables.wf(),
        ensures
            forall|x: int, p: int| 0 <= x < 256 && 0 <= p < 16 ==> #[trigger] final(self).entry(x, p) == old(self).entry(
                input_encoding.map_spec(shift_tables.map_spec(p as nat) as int, x as u8, true) as int,
                p,
            ),
    {
        let copy = self.0;
        let mut x: usize = 0;
        while x < 256
            invariant
                x <= 256,
                input_encoding.wf(),
                shift_tables.wf(),
                copy == old(self).0,
                forall|y: int, p: int| 0 <= y < x && 0 <= p < 16 ==> #[trigger] self.entry(y, p) == old(self).entry(
                    input_encoding.map_spec(shift_tables.map_spec(p as nat) as int, y as u8, true) as int,
                    p,
                ),
            decreases 256 - x,
        {
            let mut out = self.0.0[x];
            let mut i: usize = 0;
            while i < 16
                invariant
                    i <= 16,
                    x < 256,
                    input_encoding.wf(),
                    shift_tables.wf(),
                    copy == old(self).0,
                    forall|p: int| 0 <= p < i ==> #[trigger] out.0[p] == old(self).entry(
                        input_encoding.map_spec(shift_tables.map_spec(p as nat) as int, x as u8, true) as int,
                        p,
                    ),
                decreases 16 - i,
            {
                let pos = SPos::from_index(i);
                let shifted_index = shift_tables.map(pos);
                let temp = input_encoding.unmap(shifted_index, X(x as u8));
                out.0[i] = copy.0[temp.0 as usize].0[i];
                i += 1;
            }
            let ghost before = *self;
            self.0.0[x] = out;
            proof {
                assert forall|y: int, p: int| 0 <= y < x + 1 && 0 <= p < 16 implies #[trigger] self.entry(y, p) == old(self).entry(
                    input_encoding.map_spec(shift_tables.map_spec(p as nat) as int, y as u8, true) as int,
                    p,
                ) by {
                    if y < x {
                        assert(self.entry(y, p) == before.entry(y, p));
                    }
                }
            }
            x += 1;
        }
    }
}

} // verus!
