//! Mixing bijections: random invertible linear maps folded into the tables,
//! on bytes (L) and on rows of four bytes (MB).

use vstd::prelude::*;

use crate::mat::{elim_ok, MatGF2};
use crate::tbox::Tbox;
use crate::tybox::Work;
use crate::xor::ShiftRowsBijection;
use crate::{SColumn, SPos, SRow};

verus! {

/// An invertible 8-bit linear map for every state position: entry `[c][k]`
/// is the map of the byte in column `c` and row `k`.
pub struct L(pub [[MatGF2<8>; 4]; 4]);

/// An invertible 32-bit linear map for every state column.
pub struct MB(pub [MatGF2<32>; 4]);

impl L {
    /// The matrix of position `q`: column `q / 4`, row `q % 4`.
    pub open spec fn at(self, q: nat) -> MatGF2<8> {
        self.0[(q / 4) as int][(q % 4) as int]
    }

    pub open spec fn wf(self) -> bool {
        forall|r: int, c: int| 0 <= r < 4 && 0 <= c < 4 ==> #[trigger] elim_ok(self.0[r][c].rows(), 0, 8)
    }

    pub fn random(rng: &mut rand::rngs::ThreadRng) -> (r: Self)
        ensures
            r.wf(),
    {
        let mut out = [[MatGF2::<8>::new(); 4]; 4];
        let mut r: usize = 0;
        while r < 4
            invariant
                r <= 4,
                forall|r2: int, c: int| 0 <= r2 < r && 0 <= c < 4 ==> #[trigger] elim_ok(out[r2][c].rows(), 0, 8),
            decreases 4 - r,
        {
            let mut row = [MatGF2::<8>::new(); 4];
            let mut c: usize = 0;
            while c < 4
                invariant
                    r < 4,
                    c <= 4,
                    forall|c2: int| 0 <= c2 < c ==> #[trigger] elim_ok(row[c2].rows(), 0, 8),
                decreases 4 - c,
            {
                row[c] = MatGF2::random_invertible(rng);
                c += 1;
            }
            out[r] = row;
            r += 1;
        }
        L(out)
    }
}

impl MB {
    pub open spec fn wf(self) -> bool {
        forall|r: int| 0 <= r < 4 ==> #[trigger] elim_ok(self.0[r].rows(), 0, 32)
    }

    pub fn random(rng: &mut rand::rngs::ThreadRng) -> (r: Self)
        ensures
            r.wf(),
    {
        let mut out = [MatGF2::<32>::new(); 4];
        let mut r: usize = 0;
        while r < 4
            invariant
                r <= 4,
                forall|r2: int| 0 <= r2 < r ==> #[trigger] elim_ok(out[r2].rows(), 0, 32),
            decreases 4 - r,
        {
            out[r] = MatGF2::random_invertible(rng);
            r += 1;
        }
        MB(out)
    }
}

impl Work {
    /// Precomposes the table of every position with the inverse of the L
    /// matrix of the position that ShiftRows moves to it.
    pub fn apply_l_inv(&mut self, l: &L, shift_rows: &ShiftRowsBijection)
        requires
            l.wf(),
            shift_rows.wf(),
        ensures
            forall|p: int, x: int| 0 <= p < 16 && 0 <= x < 256 ==> #[trigger] final(self).0[p].0[x] == old(self).0[p].0[l.at(shift_rows.map_spec(p as nat)).preimage(x as u8) as int],
            forall|p: int, y: u8| 0 <= p < 16 ==> #[trigger] final(self).0[p].0[l.at(shift_rows.map_spec(p as nat)).image(y) as int] == old(self).0[p].0[y as int],
    {
        let mut i: usize = 0;
        while i < 16
            invariant
                i <= 16,
                l.wf(),
                shift_rows.wf(),
                forall|p: int, x: int| 0 <= p < i && 0 <= x < 256 ==> #[trigger] self.0[p].0[x] == old(self).0[p].0[l.at(shift_rows.map_spec(p as nat)).preimage(x as u8) as int],
                forall|p: int, y: u8| 0 <= p < i ==> #[trigger] self.0[p].0[l.at(shift_rows.map_spec(p as nat)).image(y) as int] == old(self).0[p].0[y as int],
                forall|p: int| i <= p < 16 ==> #[trigger] self.0[p] == old(self).0[p],
            decreases 16 - i,
        {
            let pos = SPos::from_index(i);
            let sp = shift_rows.map(pos);
            let lv = l.0[sp.column().as_index()][sp.row().as_index()];
            assert(lv == l.at(shift_rows.map_spec(i as nat)));
            let old_t = self.0[i];
            let mut t = old_t;
            let mut x: usize = 0;
            while x < 256
                invariant
                    x <= 256,
                    elim_ok(lv.rows(), 0, 8),
                    forall|y: int| 0 <= y < x ==> #[trigger] t.0[y] == old_t.0[lv.preimage(y as u8) as int],
                    forall|y: u8| (lv.image(y) as int) < x ==> #[trigger] lv.preimage(lv.image(y)) == y,
                decreases 256 - x,
            {
                let idx = lv.apply_inverse(x as u8);
                t.0[x] = old_t.0[idx as usize];
                x += 1;
            }
            self.0[i] = t;
            proof {
                assert forall|p: int, y: u8| 0 <= p < i + 1 implies #[trigger] self.0[p].0[l.at(shift_rows.map_spec(p as nat)).image(y) as int] == old(
                    self,
                ).0[p].0[y as int] by {
                    if p == i {
                        assert(lv.preimage(lv.image(y)) == y);
                    }
                }
            }
            i += 1;
        }
    }

    /// Postcomposes every row with the block-diagonal matrix of the L
    /// matrices of the output column of its position: byte `k` of a row of
    /// column `c` is mapped by the matrix of column `c`, row `k`.
    pub fn apply_l(&mut self, l: &L)
        ensures
            forall|p: int, x: int| 0 <= p < 16 && 0 <= x < 256 ==> #[trigger] final(self).0[p].0[x].0@ == MatGF2::<32>::l_concat(l.0[p / 4]).word_image(old(self).0[p].0[x].0@),
            forall|p: int, x: int, k: int|
                0 <= p < 16 && 0 <= x < 256 && 0 <= k < 4 ==> #[trigger] final(self).0[p].0[x].0[k] == l.0[p / 4][k].image(old(self).0[p].0[x].0[k]),
    {
        let mut row: usize = 0;
        while row < 4
            invariant
                row <= 4,
                forall|p: int, x: int| 0 <= p < 16 && 0 <= x < 256 && p / 4 < row ==> #[trigger] self.0[p].0[x].0@ == MatGF2::<32>::l_concat(l.0[p / 4]).word_image(old(self).0[p].0[x].0@),
                forall|p: int, x: int, k: int|
                    0 <= p < 16 && 0 <= x < 256 && 0 <= k < 4 && p / 4 < row ==> #[trigger] self.0[p].0[x].0[k] == l.0[p / 4][k].image(old(self).0[p].0[x].0[k]),
                forall|p: int| 0 <= p < 16 && p / 4 >= row ==> #[trigger] self.0[p] == old(self).0[p],
            decreases 4 - row,
        {
            let concat = MatGF2::<32>::concat(l.0[row]);
            let mut column: usize = 0;
            while column < 4
                invariant
                    row < 4,
                    column <= 4,
                    concat.is_l_concat(l.0[row as int]),
                    forall|p: int, x: int| 0 <= p < 16 && 0 <= x < 256 && p / 4 < row ==> #[trigger] self.0[p].0[x].0@ == MatGF2::<32>::l_concat(l.0[p / 4]).word_image(old(self).0[p].0[x].0@),
                    forall|p: int, x: int| 0 <= p < 16 && 0 <= x < 256 && p / 4 == row && p % 4 < column ==> #[trigger] self.0[p].0[x].0@ == concat.word_image(old(self).0[p].0[x].0@),
                    forall|p: int, x: int, k: int|
                        0 <= p < 16 && 0 <= x < 256 && 0 <= k < 4 && p / 4 < row ==> #[trigger] self.0[p].0[x].0[k] == l.0[p / 4][k].image(old(self).0[p].0[x].0[k]),
                    forall|p: int| 0 <= p < 16 && (p / 4 > row || (p / 4 == row && p % 4 >= column)) ==> #[trigger] self.0[p] == old(self).0[p],
                decreases 4 - column,
            {
                let pos = SPos::column_row(SColumn::from_index(row), SRow::from_index(column));
                let p = pos.as_index();
                let old_t = self.0[p];
                let mut t = old_t;
                let mut x: usize = 0;
                while x < 256
                    invariant
                        x <= 256,
                        forall|y: int| 0 <= y < x ==> #[trigger] t.0[y].0@ == concat.word_image(old_t.0[y].0@),
                    decreases 256 - x,
                {
                    t.0[x] = concat.apply_column(old_t.0[x]);
                    x += 1;
                }
                self.0[p] = t;
                column += 1;
            }
            proof {
                assert forall|p: int, x: int| 0 <= p < 16 && 0 <= x < 256 && p / 4 < row + 1 implies #[trigger] self.0[p].0[x].0@ == MatGF2::<32>::l_concat(l.0[p / 4]).word_image(old(self).0[p].0[x].0@) by {
                    if p / 4 == row {
                        concat.lemma_l_concat_word_image(l.0[row as int], old(self).0[p].0[x].0@);
                    }
                }
                assert forall|p: int, x: int, k: int|
                    0 <= p < 16 && 0 <= x < 256 && 0 <= k < 4 && p / 4 < row + 1 implies #[trigger] self.0[p].0[x].0[k] == l.0[p / 4][k].image(old(self).0[p].0[x].0[k]) by {
                    if p / 4 == row {
                        assert(self.0[p].0[x].0@ == concat.word_image(old(self).0[p].0[x].0@));
                        concat.lemma_l_concat_bytes(l.0[row as int], old(self).0[p].0[x].0@, k);
                    }
                }
            }
            row += 1;
        }
    }

    /// Postcomposes every row with the MB matrix of the column of its position.
    pub fn apply_mb(&mut self, mb: &MB)
        ensures
            forall|p: int, x: int| 0 <= p < 16 && 0 <= x < 256 ==> #[trigger] final(self).0[p].0[x].0@ == mb.0[p / 4].word_image(old(self).0[p].0[x].0@),
    {
        let mut i: usize = 0;
        while i < 16
            invariant
                i <= 16,
                forall|p: int, x: int| 0 <= p < i && 0 <= x < 256 ==> #[trigger] self.0[p].0[x].0@ == mb.0[p / 4].word_image(old(self).0[p].0[x].0@),
                forall|p: int| i <= p < 16 ==> #[trigger] self.0[p] == old(self).0[p],
            decreases 16 - i,
        {
            let pos = SPos::from_index(i);
            let mat = &mb.0[pos.column().as_index()];
            let old_t = self.0[i];
            let mut t = old_t;
            let mut x: usize = 0;
            while x < 256
                invariant
                    x <= 256,
                    i < 16,
                    *mat == mb.0[(i / 4) as int],
                    forall|y: int| 0 <= y < x ==> #[trigger] t.0[y].0@ == mat.word_image(old_t.0[y].0@),
                decreases 256 - x,
            {
                t.0[x] = mat.apply_column(old_t.0[x]);
                x += 1;
            }
            self.0[i] = t;
            i += 1;
        }
    }

    /// Postcomposes every row with the inverse of the MB matrix of the column
    /// of its position: one left inverse of the column's matrix maps every
    /// row of the column.
    pub fn apply_mb_inv(&mut self, mb: &MB)
        requires
            mb.wf(),
        ensures
            forall|c: int| 0 <= c < 4 ==> #[trigger] inverts_column(*final(self), *old(self), mb.0[c], c),
    {
        let mut c: usize = 0;
        while c < 4
            invariant
                c <= 4,
                mb.wf(),
                forall|c2: int| 0 <= c2 < c ==> #[trigger] inverts_column(*self, *old(self), mb.0[c2], c2),
                forall|p: int| 4 * c <= p < 16 ==> #[trigger] self.0[p] == old(self).0[p],
            decreases 4 - c,
        {
            let mat = &mb.0[c];
            assert(elim_ok(mat.rows(), 0, 32));
            let b = mat.inverse().unwrap();
            let ghost s0 = *self;
            let mut k: usize = 0;
            while k < 4
                invariant
                    c < 4,
                    k <= 4,
                    b.is_left_inverse_of(*mat),
                    forall|c2: int| 0 <= c2 < c ==> #[trigger] inverts_column(s0, *old(self), mb.0[c2], c2),
                    forall|p: int, x: int|
                        4 * c <= p < 4 * c + k && 0 <= x < 256 ==> #[trigger] self.0[p].0[x].0@ == b.word_image(old(self).0[p].0[x].0@),
                    forall|p: int| 0 <= p < 16 && (p < 4 * c || p >= 4 * c + k) ==> #[trigger] self.0[p] == s0.0[p],
                    forall|p: int| 4 * c <= p < 16 ==> #[trigger] s0.0[p] == old(self).0[p],
                decreases 4 - k,
            {
                let i = 4 * c + k;
                let old_t = self.0[i];
                let mut t = old_t;
                let mut x: usize = 0;
                while x < 256
                    invariant
                        x <= 256,
                        forall|y: int| 0 <= y < x ==> #[trigger] t.0[y].0@ == b.word_image(old_t.0[y].0@),
                    decreases 256 - x,
                {
                    t.0[x] = b.apply_column(old_t.0[x]);
                    x += 1;
                }
                self.0[i] = t;
                k += 1;
            }
            proof {
                assert forall|c2: int| 0 <= c2 < c + 1 implies #[trigger] inverts_column(*self, *old(self), mb.0[c2], c2) by {
                    if c2 < c {
                        assert(inverts_column(s0, *old(self), mb.0[c2], c2));
                        let b2 = choose|b2: MatGF2<32>|
                            b2.is_left_inverse_of(mb.0[c2]) && forall|p: int, x: int|
                                0 <= p < 16 && p / 4 == c2 && 0 <= x < 256 ==> #[trigger] s0.0[p].0[x].0@ == b2.word_image(old(self).0[p].0[x].0@);
                        assert forall|p: int, x: int| 0 <= p < 16 && p / 4 == c2 && 0 <= x < 256 implies #[trigger] self.0[p].0[x].0@ == b2.word_image(
                            old(self).0[p].0[x].0@,
                        ) by {
                            assert(self.0[p] == s0.0[p]);
                            assert(s0.0[p].0[x].0@ == b2.word_image(old(self).0[p].0[x].0@));
                        }
                    } else {
                        assert forall|p: int, x: int| 0 <= p < 16 && p / 4 == c2 && 0 <= x < 256 implies #[trigger] self.0[p].0[x].0@ == b.word_image(
                            old(self).0[p].0[x].0@,
                        ) by {}
                    }
                }
            }
            c += 1;
        }
    }
}

/// One left inverse of `m` maps every row of column `c` of `w1` to the row of `w2`.
pub open spec fn inverts_column(w2: Work, w1: Work, m: MatGF2<32>, c: int) -> bool {
    exists|b: MatGF2<32>|
        b.is_left_inverse_of(m) && forall|p: int, x: int|
            0 <= p < 16 && p / 4 == c && 0 <= x < 256 ==> #[trigger] w2.0[p].0[x].0@ == b.word_image(w1.0[p].0[x].0@)
}

impl Tbox {
    /// Precomposes the table of every position with the inverse of the L
    /// matrix of the position that ShiftRows moves to it.
    pub fn apply_l_inv(&mut self, l: &L, shift_rows: &ShiftRowsBijection)
        requires
            l.wf(),
            shift_rows.wf(),
        ensures
            forall|x: int, p: int| 0 <= x < 256 && 0 <= p < 16 ==> #[trigger] final(self).entry(x, p) == old(self).entry(l.at(shift_rows.map_spec(p as nat)).preimage(x as u8) as int, p),
            forall|y: u8, p: int| 0 <= p < 16 ==> #[trigger] final(self).entry(l.at(shift_rows.map_spec(p as nat)).image(y) as int, p) == old(self).entry(y as int, p),
    {
        let mut i: usize = 0;
        while i < 16
            invariant
                i <= 16,
                l.wf(),
                shift_rows.wf(),
                forall|x: int, p: int| 0 <= x < 256 && 0 <= p < i ==> #[trigger] self.entry(x, p) == old(self).entry(l.at(shift_rows.map_spec(p as nat)).preimage(x as u8) as int, p),
                forall|y: u8, p: int| 0 <= p < i ==> #[trigger] l.at(shift_rows.map_spec(p as nat)).preimage(l.at(shift_rows.map_spec(p as nat)).image(y)) == y,
                forall|x: int, p: int| 0 <= x < 256 && i <= p < 16 ==> #[trigger] self.entry(x, p) == old(self).entry(x, p),
            decreases 16 - i,
        {
            let pos = SPos::from_index(i);
            let sp = shift_rows.map(pos);
            let lv = l.0[sp.column().as_index()][sp.row().as_index()];
            assert(lv == l.at(shift_rows.map_spec(i as nat)));
            let mut column = [0u8; 256];
            let mut x: usize = 0;
            while x < 256
                invariant
                    x <= 256,
                    i < 16,
                    forall|y: int| 0 <= y < x ==> #[trigger] column[y] == self.entry(y, i as int),
                decreases 256 - x,
            {
                column[x] = self.0.0[x].0[i];
                x += 1;
            }
            let ghost before = *self;
            let mut x: usize = 0;
            while x < 256
                invariant
                    x <= 256,
                    i < 16,
                    elim_ok(lv.rows(), 0, 8),
                    forall|y: int| 0 <= y < 256 ==> #[trigger] column[y] == before.entry(y, i as int),
                    forall|y: int| 0 <= y < x ==> #[trigger] self.entry(y, i as int) == column[lv.preimage(y as u8) as int],
                    forall|y: u8| (lv.image(y) as int) < x ==> #[trigger] lv.preimage(lv.image(y)) == y,
                    forall|y: int, p: int| 0 <= y < 256 && 0 <= p < 16 && (p != i || y >= x) ==> #[trigger] self.entry(y, p) == before.entry(y, p),
                decreases 256 - x,
            {
                let idx = lv.apply_inverse(x as u8);
                let mut st = self.0.0[x];
                st.0[i] = column[idx as usize];
                let ghost b2 = *self;
                self.0.0[x] = st;
                proof {
                    assert forall|y: int, p: int| 0 <= y < 256 && 0 <= p < 16 && (p != i || y >= x + 1) implies #[trigger] self.entry(y, p) == before.entry(y, p) by {
                        assert(self.entry(y, p) == b2.entry(y, p));
                    }
                    assert forall|y: int| 0 <= y < x + 1 implies #[trigger] self.entry(y, i as int) == column[lv.preimage(y as u8) as int] by {
                        if y < x {
                            assert(self.entry(y, i as int) == b2.entry(y, i as int));
                        }
                    }
                }
                x += 1;
            }
            proof {
                assert forall|x: int, p: int| 0 <= x < 256 && 0 <= p < i + 1 implies #[trigger] self.entry(x, p) == old(self).entry(l.at(shift_rows.map_spec(p as nat)).preimage(x as u8) as int, p) by {
                    if p < i {
                        assert(self.entry(x, p) == before.entry(x, p));
                    } else {
                        assert(before.entry(lv.preimage(x as u8) as int, p) == old(self).entry(lv.preimage(x as u8) as int, p));
                    }
                }
            }
            i += 1;
        }
    }
}

} // verus!
