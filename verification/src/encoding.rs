//! External encodings: byte permutations applied to the input or output of
//! the tables, and their serialization.

use vstd::prelude::*;

use crate::consts::{inv_shift_rows_src, inv_shift_rows_tab, shift_rows_src, shift_rows_tab};
use crate::mat::{bits_byte, bits_value, byte_bits, elim_ok, lemma_bits_value_bound, lemma_byte_bits_value, MatGF2, VecGF2, GF2};
use crate::tables::{col_rows, step_spec, Tables};
use crate::{SPos, State, X, XArr};

verus! {

/// A permutation of the bytes; entry `x` is the image of `x`.
#[derive(Clone, Copy, Debug)]
pub struct Bijection8(pub XArr<X>);

impl Bijection8 {
    pub open spec fn map_spec(self, x: int) -> u8 {
        self.0.0[x].0
    }

    /// No two entries are equal.
    pub open spec fn wf(self) -> bool {
        forall|i: int, j: int| 0 <= i < j < 256 ==> self.0.0[i].0 != self.0.0[j].0
    }

    /// The byte that is mapped to `v`.
    pub open spec fn unmap_spec(self, v: u8) -> u8 {
        choose|x: u8| self.map_spec(x as int) == v
    }

    /// Every byte is the image of exactly one byte.
    pub proof fn lemma_unmap(self, v: u8)
        requires
            self.wf(),
        ensures
            self.map_spec(self.unmap_spec(v) as int) == v,
            forall|x: u8| self.map_spec(x as int) == v ==> x == self.unmap_spec(v),
    {
        let s = Seq::new(256, |i: int| self.0.0[i].0);
        crate::lemma_pigeonhole(s, v as nat);
        let j = choose|j: int| 0 <= j < s.len() && s[j] == v;
        assert(self.map_spec((j as u8) as int) == v);
        let u = self.unmap_spec(v);
        assert forall|x: u8| self.map_spec(x as int) == v implies x == u by {
            if x < u {
                assert(self.0.0[x as int].0 != self.0.0[u as int].0);
            } else if u < x {
                assert(self.0.0[u as int].0 != self.0.0[x as int].0);
            }
        }
    }

    /// Unmapping undoes mapping.
    pub proof fn lemma_unmap_map(self, x: u8)
        requires
            self.wf(),
        ensures
            self.unmap_spec(self.map_spec(x as int)) == x,
    {
        self.lemma_unmap(self.map_spec(x as int));
    }

    pub fn identity() -> (r: Self)
        ensures
            r.wf(),
            forall|x: int| 0 <= x < 256 ==> #[trigger] r.map_spec(x) == x,
    {
        let mut out = [X(0); 256];
        let mut i: usize = 0;
        while i < 256
            invariant
                i <= 256,
                forall|k: int| 0 <= k < i ==> #[trigger] out[k].0 == k,
            decreases 256 - i,
        {
            out[i] = X(i as u8);
            i += 1;
        }
        Bijection8(XArr(out))
    }

    /// A uniformly random permutation.
    pub fn random(rng: &mut rand::rngs::ThreadRng) -> (r: Self)
        ensures
            r.wf(),
    {
        let id = Self::identity();
        let mut table = id.0.0;
        let ghost before = table@;
        assert(before.no_duplicates()) by {
            assert forall|a: int, b: int| 0 <= a < 256 && 0 <= b < 256 && a != b implies before[a] != before[b] by {
                assert(id.map_spec(a) == a);
                assert(id.map_spec(b) == b);
            }
        }
        crate::random::shuffle(&mut table, rng);
        proof {
            before.lemma_multiset_has_no_duplicates();
            table@.lemma_multiset_has_no_duplicates_conv();
            assert forall|i: int, j: int| 0 <= i < j < 256 implies table[i].0 != table[j].0 by {
                assert(table@[i] != table@[j]);
            }
        }
        Bijection8(XArr(table))
    }

    pub fn map(&self, v: X) -> (r: X)
        ensures
            r.0 == self.map_spec(v.0 as int),
    {
        self.0.0[v.0 as usize]
    }

    pub fn unmap(&self, v: X) -> (r: X)
        requires
            self.wf(),
        ensures
            r.0 == self.unmap_spec(v.0),
    {
        proof {
            self.lemma_unmap(v.0);
        }
        let mut x: usize = 0;
        while x < 256
            invariant
                x <= 256,
                self.wf(),
                self.map_spec(self.unmap_spec(v.0) as int) == v.0,
                forall|y: u8| self.map_spec(y as int) == v.0 ==> y == self.unmap_spec(v.0),
                forall|y: int| 0 <= y < x ==> #[trigger] self.map_spec(y) != v.0,
            decreases 256 - x,
        {
            if self.0.0[x].0 == v.0 {
                assert(self.map_spec((x as u8) as int) == v.0);
                return X(x as u8);
            }
            x += 1;
        }
        proof {
            assert(self.map_spec(self.unmap_spec(v.0) as int) != v.0);
        }
        X(0)
    }

    /// `unmap` if `inv`, `map` otherwise.
    pub fn mapunmap(&self, v: X, inv: bool) -> (r: X)
        requires
            inv ==> self.wf(),
        ensures
            r.0 == if inv {
                self.unmap_spec(v.0)
            } else {
                self.map_spec(v.0 as int)
            },
    {
        if inv {
            self.unmap(v)
        } else {
            self.map(v)
        }
    }

    /// Whether no two entries are equal.
    pub fn is_valid(&self) -> (r: bool)
        ensures
            r == self.wf(),
    {
        let mut seen = [false; 256];
        let mut i: usize = 0;
        while i < 256
            invariant
                i <= 256,
                forall|v: int| 0 <= v < 256 ==> (#[trigger] seen[v] <==> exists|j: int| 0 <= j < i && self.0.0[j].0 == v),
                forall|a: int, b: int| 0 <= a < b < i ==> self.0.0[a].0 != self.0.0[b].0,
            decreases 256 - i,
        {
            let v = self.0.0[i].0;
            if seen[v as usize] {
                return false;
            }
            seen[v as usize] = true;
            i += 1;
        }
        true
    }

    /// Appends the 256 entries to `out`.
    pub fn write_to(&self, out: &mut Vec<u8>)
        ensures
            final(out)@ == old(out)@ + Seq::new(256, |i: int| self.map_spec(i)),
    {
        let ghost start = out@;
        let mut i: usize = 0;
        while i < 256
            invariant
                i <= 256,
                out@ == start + Seq::new(i as nat, |k: int| self.map_spec(k)),
            decreases 256 - i,
        {
            out.push(self.0.0[i].0);
            assert(out@ =~= start + Seq::new((i + 1) as nat, |k: int| self.map_spec(k)));
            i += 1;
        }
    }

    /// Reads the 256 entries from the start of `input`; `None` when it is shorter.
    pub fn read_from(input: &[u8]) -> (r: Option<Self>)
        ensures
            r is Some <==> input@.len() >= 256,
            r is Some ==> forall|i: int| 0 <= i < 256 ==> #[trigger] r->0.map_spec(i) == input@[i],
    {
        if input.len() < 256 {
            return None;
        }
        let mut out = [X(0); 256];
        let mut i: usize = 0;
        while i < 256
            invariant
                i <= 256,
                input@.len() >= 256,
                forall|k: int| 0 <= k < i ==> #[trigger] out[k].0 == input@[k],
            decreases 256 - i,
        {
            out[i] = X(input[i]);
            i += 1;
        }
        Some(Bijection8(XArr(out)))
    }
}

/// A byte permutation for every state position.
#[derive(Clone, Copy, Debug)]
pub struct ExternalEncoding(pub [Bijection8; 16]);

impl ExternalEncoding {
    pub open spec fn wf(self) -> bool {
        forall|p: int| 0 <= p < 16 ==> #[trigger] self.0[p].wf()
    }

    /// The byte `x` at position `p` mapped, or with `inv` unmapped.
    pub open spec fn apply_spec(self, p: int, x: u8, inv: bool) -> u8 {
        if inv {
            self.0[p].unmap_spec(x)
        } else {
            self.0[p].map_spec(x as int)
        }
    }

    pub fn identity() -> (r: Self)
        ensures
            r.wf(),
            forall|p: int, x: int| 0 <= p < 16 && 0 <= x < 256 ==> #[trigger] r.0[p].map_spec(x) == x,
    {
        ExternalEncoding([Bijection8::identity(); 16])
    }

    /// A uniformly random permutation for every position.
    pub fn random(rng: &mut rand::rngs::ThreadRng) -> (r: Self)
        ensures
            r.wf(),
    {
        let mut out = [Bijection8::identity(); 16];
        let mut p: usize = 0;
        while p < 16
            invariant
                p <= 16,
                forall|k: int| 0 <= k < 16 ==> #[trigger] out[k].wf(),
            decreases 16 - p,
        {
            out[p] = Bijection8::random(rng);
            p += 1;
        }
        ExternalEncoding(out)
    }

    /// Whether every position holds a permutation of the bytes.
    pub fn is_valid(&self) -> (r: bool)
        ensures
            r == self.wf(),
    {
        let mut p: usize = 0;
        while p < 16
            invariant
                p <= 16,
                forall|q: int| 0 <= q < p ==> #[trigger] self.0[q].wf(),
            decreases 16 - p,
        {
            if !self.0[p].is_valid() {
                return false;
            }
            p += 1;
        }
        true
    }

    /// Appends the permutations of the 16 positions to `out`.
    pub fn write_to(&self, out: &mut Vec<u8>)
        ensures
            final(out)@ == old(out)@ + Seq::new(4096, |i: int| self.0[i / 256].map_spec(i % 256)),
    {
        let ghost start = out@;
        let mut p: usize = 0;
        while p < 16
            invariant
                p <= 16,
                out@ == start + Seq::new((256 * p) as nat, |i: int| self.0[i / 256].map_spec(i % 256)),
            decreases 16 - p,
        {
            let ghost mid = out@;
            self.0[p].write_to(out);
            assert(out@ =~= start + Seq::new((256 * (p + 1)) as nat, |i: int| self.0[i / 256].map_spec(i % 256))) by {
                assert forall|i: int| 256 * p <= i < 256 * (p + 1) implies #[trigger] (i / 256) == p && i % 256 == i - 256 * p by {
                }
            }
            p += 1;
        }
    }

    /// Reads the permutations of the 16 positions from the start of `input`;
    /// `None` when it is shorter than 4096 bytes.
    pub fn read_from(input: &[u8]) -> (r: Option<Self>)
        ensures
            r is Some <==> input@.len() >= 4096,
            r is Some ==> forall|p: int, x: int| 0 <= p < 16 && 0 <= x < 256 ==> #[trigger] (r->0).0[p].map_spec(x) == input@[256 * p + x],
    {
        if input.len() < 4096 {
            return None;
        }
        let mut out = [Bijection8::identity(); 16];
        let mut p: usize = 0;
        while p < 16
            invariant
                p <= 16,
                input@.len() >= 4096,
                forall|k: int, x: int| 0 <= k < p && 0 <= x < 256 ==> #[trigger] out[k].map_spec(x) == input@[256 * k + x],
            decreases 16 - p,
        {
            let mut t = [X(0); 256];
            let mut x: usize = 0;
            while x < 256
                invariant
                    x <= 256,
                    p < 16,
                    input@.len() >= 4096,
                    forall|y: int| 0 <= y < x ==> #[trigger] t[y].0 == input@[256 * p + y],
                decreases 256 - x,
            {
                t[x] = X(input[256 * p + x]);
                x += 1;
            }
            out[p] = Bijection8(XArr(t));
            p += 1;
        }
        Some(ExternalEncoding(out))
    }
}

/// Maps every byte of the state by the permutation of its position, or with
/// `inv` by its inverse.
/// Reading back the bytes that `write_to` appends for an external encoding
/// gives that encoding.
pub proof fn lemma_external_encoding_roundtrip(e: ExternalEncoding, read: ExternalEncoding)
    requires
        forall|p: int, x: int|
            0 <= p < 16 && 0 <= x < 256 ==> #[trigger] read.0[p].map_spec(x) == Seq::new(4096, |i: int| e.0[i / 256].map_spec(i % 256))[256 * p + x],
    ensures
        read == e,
{
    assert forall|p: int| 0 <= p < 16 implies read.0[p] == e.0[p] by {
        assert forall|x: int| 0 <= x < 256 implies read.0[p].0.0[x] == e.0[p].0.0[x] by {
            let i = 256 * p + x;
            assert(i / 256 == p && i % 256 == x) by (nonlinear_arith)
                requires
                    i == 256 * p + x,
                    0 <= x < 256,
            ;
            assert(0 <= i < 4096) by (nonlinear_arith)
                requires
                    i == 256 * p + x,
                    0 <= x < 256,
                    0 <= p < 16,
            ;
            assert(read.0[p].map_spec(x) == e.0[p].map_spec(x));
        }
        assert(read.0[p].0.0 =~= e.0[p].0.0);
    }
    assert(read.0 =~= e.0);
}

pub fn apply_encoding(state: &mut State, encoding: &ExternalEncoding, inv: bool)
    requires
        inv ==> encoding.wf(),
    ensures
        forall|p: int| 0 <= p < 16 ==> #[trigger] final(state).0[p] == encoding.apply_spec(p, old(state).0[p], inv),
{
    let mut i: usize = 0;
    while i < 16
        invariant
            i <= 16,
            inv ==> encoding.wf(),
            forall|p: int| 0 <= p < i ==> #[trigger] state.0[p] == encoding.apply_spec(p, old(state).0[p], inv),
            forall|p: int| i <= p < 16 ==> state.0[p] == old(state).0[p],
        decreases 16 - i,
    {
        let original_value = X(state.0[i]);
        state.0[i] = encoding.0[i].mapunmap(original_value, inv).0;
        i += 1;
    }
}

/// Decoding undoes encoding.
pub proof fn lemma_apply_encoding_roundtrip(encoding: ExternalEncoding, p: int, x: u8)
    requires
        encoding.wf(),
        0 <= p < 16,
    ensures
        encoding.apply_spec(p, encoding.apply_spec(p, x, false), true) == x,
        encoding.apply_spec(p, encoding.apply_spec(p, x, true), false) == x,
{
    assert(encoding.0[p].wf());
    encoding.0[p].lemma_unmap_map(x);
    encoding.0[p].lemma_unmap(x);
}

impl<const NRM1: usize> Tables<NRM1> {
    /// Folds the input encoding `e` (or with `inv` its inverse) into the first
    /// tables, at the positions from which ShiftRows takes each byte.
    pub fn input_encoding(&mut self, e: &ExternalEncoding, inv: bool)
        requires
            NRM1 >= 1,
            inv ==> e.wf(),
        ensures
            final(self).wf() == old(self).wf(),
            final(self).inv == old(self).inv,
            final(self).uses_mbl == old(self).uses_mbl,
            final(self).uses_xor == old(self).uses_xor,
            final(self).uses_xor_mbl == old(self).uses_xor_mbl,
            final(self).tboxes_last == old(self).tboxes_last,
            forall|p: int, x: int| 0 <= p < 16 && 0 <= x < 256 ==> #[trigger] final(self).tyboxes.0.0[0].0[p].0[x] == old(self).tyboxes.0.0[0].0[p].0[e.apply_spec(
                (if old(self).inv { inv_shift_rows_src(p as nat) } else { shift_rows_src(p as nat) }) as int,
                x as u8,
                inv,
            ) as int],
            forall|r: int| 1 <= r < NRM1 ==> #[trigger] final(self).tyboxes.0.0[r] == old(self).tyboxes.0.0[r],
            final(self).mbl == old(self).mbl,
            final(self).xor == old(self).xor,
            final(self).xor_mbl == old(self).xor_mbl,
            forall|data: Seq<u8>|
                data.len() == 16 ==> #[trigger] final(self).cipher_spec(data) == old(self).cipher_spec(encoded_state(*e, data, inv)),
    {
        let shift_tab = if self.inv {
            inv_shift_rows_tab()
        } else {
            shift_rows_tab()
        };
        let mut tybox = self.tyboxes.0.0[0];
        let ghost start = tybox;
        let mut i: usize = 0;
        while i < 16
            invariant
                i <= 16,
                inv ==> e.wf(),
                shift_tab.wf(),
                forall|q: nat| q < 16 ==> shift_tab.map_spec(q) == if self.inv {
                    inv_shift_rows_src(q)
                } else {
                    shift_rows_src(q)
                },
                forall|p: int| i <= p < 16 ==> #[trigger] tybox.0[p] == start.0[p],
                forall|p: int, x: int| 0 <= p < i && 0 <= x < 256 ==> #[trigger] tybox.0[p].0[x] == start.0[p].0[e.apply_spec(
                    shift_tab.map_spec(p as nat) as int,
                    x as u8,
                    inv,
                ) as int],
            decreases 16 - i,
        {
            let pos = SPos::from_index(i);
            let table_copy = tybox.0[i];
            let mut table = table_copy;
            let original_pos = shift_tab.map(pos);
            let mut encoded_x: usize = 0;
            while encoded_x < 256
                invariant
                    encoded_x <= 256,
                    i < 16,
                    inv ==> e.wf(),
                    original_pos.idx() < 16,
                    forall|y: int| 0 <= y < encoded_x ==> #[trigger] table.0[y] == table_copy.0[e.apply_spec(original_pos.idx() as int, y as u8, inv) as int],
                decreases 256 - encoded_x,
            {
                assert(inv ==> e.0[original_pos.idx() as int].wf());
                let x = e.0[original_pos.as_index()].mapunmap(X(encoded_x as u8), inv);
                table.0[encoded_x] = table_copy.0[x.0 as usize];
                encoded_x += 1;
            }
            tybox.0[i] = table;
            i += 1;
        }
        let ghost before = self.tyboxes;
        self.tyboxes.0.0[0] = tybox;
        assert forall|r: int| 1 <= r < NRM1 implies #[trigger] self.tyboxes.0.0[r] == before.0.0[r] by {}
        proof {
            assert forall|data: Seq<u8>| data.len() == 16 implies #[trigger] self.cipher_spec(data) == old(self).cipher_spec(
                encoded_state(*e, data, inv),
            ) by {
                let dec = encoded_state(*e, data, inv);
                assert forall|p: int| 0 <= p < 16 implies #[trigger] self.tyboxes.0.0[0].0[p].0[self.shift_spec(data)[p] as int] == old(
                    self,
                ).tyboxes.0.0[0].0[p].0[old(self).shift_spec(dec)[p] as int] by {
                    crate::consts::lemma_shift_rows_inverse(p as nat);
                }
                lemma_first_round_reads(*self, *old(self), data, dec);
            }
        }
    }

    /// Folds the output encoding `e` (or with `inv` its inverse) into the last table.
    pub fn output_encoding(&mut self, e: &ExternalEncoding, inv: bool)
        requires
            inv ==> e.wf(),
        ensures
            final(self).wf() == old(self).wf(),
            final(self).inv == old(self).inv,
            final(self).uses_mbl == old(self).uses_mbl,
            final(self).uses_xor == old(self).uses_xor,
            final(self).uses_xor_mbl == old(self).uses_xor_mbl,
            final(self).tyboxes == old(self).tyboxes,
            forall|x: int, p: int| 0 <= x < 256 && 0 <= p < 16 ==> #[trigger] final(self).tboxes_last.entry(x, p) == e.apply_spec(
                p,
                old(self).tboxes_last.entry(x, p),
                inv,
            ),
            final(self).mbl == old(self).mbl,
            final(self).xor == old(self).xor,
            final(self).xor_mbl == old(self).xor_mbl,
            forall|data: Seq<u8>|
                data.len() == 16 ==> #[trigger] final(self).cipher_spec(data) == encoded_state(*e, old(self).cipher_spec(data), inv),
    {
        let mut tbox = self.tboxes_last;
        let ghost start = tbox;
        let mut x: usize = 0;
        while x < 256
            invariant
                x <= 256,
                inv ==> e.wf(),
                forall|y: int, p: int| x <= y < 256 && 0 <= p < 16 ==> #[trigger] tbox.entry(y, p) == start.entry(y, p),
                forall|y: int, p: int| 0 <= y < x && 0 <= p < 16 ==> #[trigger] tbox.entry(y, p) == e.apply_spec(p, start.entry(y, p), inv),
            decreases 256 - x,
        {
            let st0 = tbox.0.0[x];
            let mut st = st0;
            apply_encoding(&mut st, e, inv);
            let ghost before = tbox;
            tbox.0.0[x] = st;
            proof {
                assert forall|p: int| 0 <= p < 16 implies #[trigger] tbox.entry(x as int, p) == e.apply_spec(p, start.entry(x as int, p), inv) by {
                    assert(tbox.0.0[x as int] == st);
                    assert(st0.0[p] == before.entry(x as int, p));
                }
                assert forall|y: int, p: int| 0 <= y < 256 && 0 <= p < 16 && y != x implies #[trigger] tbox.entry(y, p) == before.entry(y, p) by {
                    assert(tbox.0.0[y] == before.0.0[y]);
                }
            }
            x += 1;
        }
        self.tboxes_last = tbox;
        proof {
            assert forall|data: Seq<u8>| data.len() == 16 implies #[trigger] self.cipher_spec(data) == encoded_state(
                *e,
                old(self).cipher_spec(data),
                inv,
            ) by {
                assert(self.rounds_spec(data, NRM1 as nat) == old(self).rounds_spec(data, NRM1 as nat)) by {
                    lemma_same_rounds(*self, *old(self), data, NRM1 as nat);
                }
                assert(self.cipher_spec(data) =~= encoded_state(*e, old(self).cipher_spec(data), inv));
            }
        }
    }
}

/// Every byte of the state mapped by the encoding of its position, or with
/// `inv` unmapped.
pub open spec fn encoded_state(e: ExternalEncoding, s: Seq<u8>, inv: bool) -> Seq<u8> {
    Seq::new(16, |p: int| e.apply_spec(p, s[p], inv))
}

/// Mapping every byte and unmapping it again, in either order, gives the
/// state back.
pub proof fn lemma_encoded_state_roundtrip(e: ExternalEncoding, s: Seq<u8>, inv: bool)
    requires
        e.wf(),
        s.len() == 16,
    ensures
        encoded_state(e, encoded_state(e, s, !inv), inv) == s,
{
    assert forall|p: int| 0 <= p < 16 implies encoded_state(e, encoded_state(e, s, !inv), inv)[p] == s[p] by {
        lemma_apply_encoding_roundtrip(e, p, s[p]);
    }
    assert(encoded_state(e, encoded_state(e, s, !inv), inv) =~= s);
}

/// Tables that differ in the last table alone run the same rounds.
proof fn lemma_same_rounds<const NRM1: usize>(a: Tables<NRM1>, b: Tables<NRM1>, data: Seq<u8>, r: nat)
    requires
        a.inv == b.inv,
        a.uses_mbl == b.uses_mbl,
        a.uses_xor == b.uses_xor,
        a.uses_xor_mbl == b.uses_xor_mbl,
        a.tyboxes == b.tyboxes,
        a.mbl == b.mbl,
        a.xor == b.xor,
        a.xor_mbl == b.xor_mbl,
    ensures
        a.rounds_spec(data, r) == b.rounds_spec(data, r),
    decreases r,
{
    if r > 0 {
        lemma_same_rounds(a, b, data, (r - 1) as nat);
    }
}

/// Tables whose first tyboxes read `data` as those of `b` read `dec`, and
/// that agree otherwise, compute on `data` what `b` computes on `dec`.
proof fn lemma_first_round_reads<const NRM1: usize>(a: Tables<NRM1>, b: Tables<NRM1>, data: Seq<u8>, dec: Seq<u8>)
    requires
        NRM1 >= 1,
        data.len() == 16,
        dec.len() == 16,
        a.inv == b.inv,
        a.uses_mbl == b.uses_mbl,
        a.uses_xor == b.uses_xor,
        a.uses_xor_mbl == b.uses_xor_mbl,
        a.mbl == b.mbl,
        a.xor == b.xor,
        a.xor_mbl == b.xor_mbl,
        a.tboxes_last == b.tboxes_last,
        forall|r: int| 1 <= r < NRM1 ==> #[trigger] a.tyboxes.0.0[r] == b.tyboxes.0.0[r],
        forall|p: int|
            0 <= p < 16 ==> #[trigger] a.tyboxes.0.0[0].0[p].0[a.shift_spec(data)[p] as int] == b.tyboxes.0.0[0].0[p].0[b.shift_spec(dec)[p] as int],
    ensures
        a.cipher_spec(data) == b.cipher_spec(dec),
{
    let xa = if a.uses_xor {
        Some(a.xor.0.0[0])
    } else {
        None
    };
    let s1 = step_spec(a.tyboxes.0.0[0], xa, a.shift_spec(data));
    let s2 = step_spec(b.tyboxes.0.0[0], xa, b.shift_spec(dec));
    assert forall|p: int| 0 <= p < 16 implies s1[p] == s2[p] by {
        let c = p / 4;
        assert(col_rows(a.tyboxes.0.0[0], a.shift_spec(data), c) =~= col_rows(b.tyboxes.0.0[0], b.shift_spec(dec), c)) by {
            assert forall|k: int| 0 <= k < 4 implies col_rows(a.tyboxes.0.0[0], a.shift_spec(data), c)[k] == col_rows(
                b.tyboxes.0.0[0],
                b.shift_spec(dec),
                c,
            )[k] by {
                let q = 4 * c + k;
                assert(a.tyboxes.0.0[0].0[q].0[a.shift_spec(data)[q] as int] == b.tyboxes.0.0[0].0[q].0[b.shift_spec(dec)[q] as int]);
            }
        }
    }
    assert(s1 =~= s2);
    assert(a.round_spec(0, data) == b.round_spec(0, dec));
    assert(a.rounds_spec(data, 0) == data);
    assert(b.rounds_spec(dec, 0) == dec);
    assert(a.rounds_spec(data, 1) == a.round_spec(0, a.rounds_spec(data, 0)));
    assert(b.rounds_spec(dec, 1) == b.round_spec(0, b.rounds_spec(dec, 0)));
    lemma_later_rounds(a, b, data, dec, NRM1 as nat);
}

/// Tables that agree from the second round on continue alike from equal states.
proof fn lemma_later_rounds<const NRM1: usize>(a: Tables<NRM1>, b: Tables<NRM1>, data: Seq<u8>, dec: Seq<u8>, r: nat)
    requires
        1 <= r <= NRM1,
        a.rounds_spec(data, 1) == b.rounds_spec(dec, 1),
        a.inv == b.inv,
        a.uses_mbl == b.uses_mbl,
        a.uses_xor == b.uses_xor,
        a.uses_xor_mbl == b.uses_xor_mbl,
        a.mbl == b.mbl,
        a.xor == b.xor,
        a.xor_mbl == b.xor_mbl,
        forall|k: int| 1 <= k < NRM1 ==> #[trigger] a.tyboxes.0.0[k] == b.tyboxes.0.0[k],
    ensures
        a.rounds_spec(data, r) == b.rounds_spec(dec, r),
    decreases r,
{
    if r > 1 {
        lemma_later_rounds(a, b, data, dec, (r - 1) as nat);
        assert(a.tyboxes.0.0[r - 1] == b.tyboxes.0.0[r - 1]);
    }
}

/// The bits of the 16 bytes of a state, most significant bit of each byte first.
pub open spec fn state_bits(s: Seq<u8>) -> Seq<bool> {
    Seq::new(128, |k: int| byte_bits(s[k / 8])[k % 8])
}

/// The state whose bytes are the 16 bytes of the 128 bits.
pub open spec fn bits_state(v: Seq<bool>) -> Seq<u8> {
    Seq::new(16, |i: int| bits_byte(v, i))
}

/// The state `s` as a vector: the matrix applied to its bits.
pub open spec fn linear_image(m: MatGF2<128>, s: Seq<u8>) -> Seq<u8> {
    bits_state(m.mat_vec(state_bits(s)))
}

/// Byte `b` of row `i` of the matrix, as `write_to` stores it.
pub open spec fn matrix_row_byte(m: MatGF2<128>, i: int, b: int) -> u8 {
    bits_byte(m.row_of(i), b)
}

/// 128 bits read as bytes and back give the same bits.
proof fn lemma_bits_state_bits(v: Seq<bool>)
    requires
        v.len() == 128,
    ensures
        state_bits(bits_state(v)) == v,
{
    assert forall|k: int| 0 <= k < 128 implies #[trigger] state_bits(bits_state(v))[k] == v[k] by {
        let i = k / 8;
        lemma_byte_bits_value(v.subrange(8 * i, 8 * i + 8));
    }
    assert(state_bits(bits_state(v)) =~= v);
}

/// A state's bits read back as bytes give the same state.
proof fn lemma_state_bits_state(s: Seq<u8>)
    requires
        s.len() == 16,
    ensures
        bits_state(state_bits(s)) == s,
{
    assert forall|i: int| 0 <= i < 16 implies #[trigger] bits_state(state_bits(s))[i] == s[i] by {
        assert(state_bits(s).subrange(8 * i, 8 * i + 8) =~= byte_bits(s[i]));
        crate::mat::lemma_bits_value_byte(s[i]);
    }
    assert(bits_state(state_bits(s)) =~= s);
}

/// Decoding with a left inverse of the matrix undoes the encoding: the
/// linear encoding followed by its inverse gives back every state.
pub proof fn lemma_linear_encoding_roundtrip(m: MatGF2<128>, b: MatGF2<128>, s: Seq<u8>)
    requires
        b.is_left_inverse_of(m),
        s.len() == 16,
    ensures
        linear_image(b, linear_image(m, s)) == s,
{
    let mv = m.mat_vec(state_bits(s));
    lemma_bits_state_bits(mv);
    b.lemma_left_inverse_mat_vec(m, state_bits(s));
    lemma_state_bits_state(s);
}

/// A left inverse also undoes the encoding from the other side: encoding
/// what it decoded gives the block back.
pub proof fn lemma_linear_encoding_roundtrip_right(m: MatGF2<128>, b: MatGF2<128>, s: Seq<u8>)
    requires
        b.is_left_inverse_of(m),
        s.len() == 16,
    ensures
        linear_image(m, linear_image(b, s)) == s,
{
    let bv = b.mat_vec(state_bits(s));
    lemma_bits_state_bits(bv);
    b.lemma_left_inverse_is_right_inverse_vec(m, state_bits(s));
    lemma_state_bits_state(s);
}

/// Every bit of every row that `write_to` stores is read back by `read_from`.
pub proof fn lemma_matrix_row_bytes(m: MatGF2<128>, i: int, j: int)
    requires
        0 <= i < 128,
        0 <= j < 128,
    ensures
        byte_bits(matrix_row_byte(m, i, j / 8))[j % 8] == m.entry(i, j),
{
    lemma_byte_bits_value(m.row_of(i).subrange(8 * (j / 8), 8 * (j / 8) + 8));
}

/// Writing an encoding read from `bytes` gives back the first 2048 bytes.
pub proof fn lemma_linear_encoding_write_read(e: LinearExternalEncoding, bytes: Seq<u8>)
    requires
        bytes.len() >= 2048,
        forall|i: int, j: int|
            0 <= i < 128 && 0 <= j < 128 ==> #[trigger] e.0.entry(i, j) == byte_bits(bytes[16 * i + j / 8])[j % 8],
    ensures
        Seq::new(2048, |k: int| matrix_row_byte(e.0, k / 16, k % 16)) == bytes.subrange(0, 2048),
{
    assert forall|k: int| 0 <= k < 2048 implies #[trigger] matrix_row_byte(e.0, k / 16, k % 16) == bytes[k] by {
        let i = k / 16;
        let b = k % 16;
        assert(0 <= i < 128 && 0 <= b < 16 && k == 16 * i + b);
        let sub = e.0.row_of(i).subrange(8 * b, 8 * b + 8);
        assert forall|t: int| 0 <= t < 8 implies sub[t] == byte_bits(bytes[k])[t] by {
            let j = 8 * b + t;
            assert(j / 8 == b && j % 8 == t) by (nonlinear_arith)
                requires
                    j == 8 * b + t,
                    0 <= t < 8,
            ;
            assert(e.0.entry(i, j) == byte_bits(bytes[16 * i + j / 8])[j % 8]);
        }
        assert(sub =~= byte_bits(bytes[k]));
        crate::mat::lemma_bits_value_byte(bytes[k]);
    }
    assert(Seq::new(2048, |k: int| matrix_row_byte(e.0, k / 16, k % 16)) =~= bytes.subrange(0, 2048));
}

/// Reading back the bytes that `write_to` appends for a linear encoding
/// gives that encoding.
pub proof fn lemma_linear_encoding_bytes_roundtrip(e: LinearExternalEncoding, read: LinearExternalEncoding)
    requires
        forall|i: int, j: int|
            0 <= i < 128 && 0 <= j < 128 ==> #[trigger] read.0.entry(i, j) == byte_bits(
                Seq::new(2048, |k: int| matrix_row_byte(e.0, k / 16, k % 16))[16 * i + j / 8],
            )[j % 8],
    ensures
        read == e,
{
    let bytes = Seq::new(2048, |k: int| matrix_row_byte(e.0, k / 16, k % 16));
    assert forall|i: int| 0 <= i < 128 implies read.0.data[i] == e.0.data[i] by {
        assert forall|j: int| 0 <= j < 128 implies read.0.data[i][j] == e.0.data[i][j] by {
            let k = 16 * i + j / 8;
            assert(k / 16 == i && k % 16 == j / 8 && 0 <= k < 2048) by (nonlinear_arith)
                requires
                    k == 16 * i + j / 8,
                    0 <= j < 128,
                    0 <= i < 128,
            ;
            lemma_matrix_row_bytes(e.0, i, j);
            assert(read.0.entry(i, j) == e.0.entry(i, j));
        }
        assert(read.0.data[i] =~= e.0.data[i]);
    }
    assert(read.0.data =~= e.0.data);
}

/// An encoding of the whole state by an invertible 128x128 matrix over GF(2).
#[derive(Clone, Copy)]
pub struct LinearExternalEncoding(pub MatGF2<128>);

impl LinearExternalEncoding {
    /// The matrix is invertible.
    pub open spec fn wf(self) -> bool {
        elim_ok(self.0.rows(), 0, 128)
    }

    pub fn identity() -> (r: Self)
        ensures
            r.0.is_identity(),
            r.wf(),
    {
        let m = MatGF2::<128>::identity_n();
        proof {
            crate::mat::lemma_identity_elim_ok(128, 0);
        }
        Self(m)
    }

    /// A random invertible encoding.
    pub fn random(rng: &mut rand::rngs::ThreadRng) -> (r: Self)
        ensures
            r.wf(),
    {
        Self(MatGF2::<128>::random_invertible(rng))
    }

    /// The matrix, or with `inv` its inverse.
    fn matrix(&self, inv: bool) -> (r: MatGF2<128>)
        requires
            inv ==> self.wf(),
        ensures
            !inv ==> r == self.0,
            inv ==> r.is_left_inverse_of(self.0),
    {
        if inv {
            self.0.inverse().unwrap()
        } else {
            self.0
        }
    }

    /// Appends the matrix, row after row, each row as 16 bytes, the first
    /// column in the most significant bit of the first byte.
    pub fn write_to(&self, out: &mut Vec<u8>)
        ensures
            final(out)@ == old(out)@ + Seq::new(2048, |k: int| matrix_row_byte(self.0, k / 16, k % 16)),
    {
        let ghost start = out@;
        let mut i: usize = 0;
        while i < 128
            invariant
                i <= 128,
                out@ == start + Seq::new((16 * i) as nat, |k: int| matrix_row_byte(self.0, k / 16, k % 16)),
            decreases 128 - i,
        {
            let mut b: usize = 0;
            while b < 16
                invariant
                    i < 128,
                    b <= 16,
                    out@ == start + Seq::new((16 * i + b) as nat, |k: int| matrix_row_byte(self.0, k / 16, k % 16)),
                decreases 16 - b,
            {
                let ghost sub = self.0.row_of(i as int).subrange(8 * b, 8 * b + 8);
                let mut v: u16 = 0;
                let mut t: usize = 0;
                while t < 8
                    invariant
                        i < 128,
                        b < 16,
                        t <= 8,
                        sub == self.0.row_of(i as int).subrange(8 * b, 8 * b + 8),
                        v as nat == bits_value(sub, t as nat),
                        v < 256,
                    decreases 8 - t,
                {
                    let bit = self.0.get(i, 8 * b + t);
                    proof {
                        assert(sub[t as int] == bit.0);
                        lemma_bits_value_bound(sub, (t + 1) as nat);
                        vstd::arithmetic::power2::lemma2_to64();
                        vstd::arithmetic::power2::lemma_pow2_unfold((t + 1) as nat);
                    }
                    v = v * 2 + if bit.0 {
                        1
                    } else {
                        0
                    };
                    t += 1;
                }
                out.push(v as u8);
                proof {
                    let n = (16 * i + b) as nat;
                    assert(n / 16 == i && n % 16 == b) by (nonlinear_arith)
                        requires
                            n == 16 * i + b,
                            b < 16,
                    ;
                    assert(out@ =~= start + Seq::new((n + 1) as nat, |k: int| matrix_row_byte(self.0, k / 16, k % 16)));
                }
                b += 1;
            }
            i += 1;
        }
    }

    /// Reads the matrix as `write_to` stores it from the start of `input`;
    /// `None` when it is shorter.
    pub fn read_from(input: &[u8]) -> (r: Option<Self>)
        ensures
            r is Some <==> input@.len() >= 2048,
            r is Some ==> forall|i: int, j: int|
                0 <= i < 128 && 0 <= j < 128 ==> #[trigger] (r->0).0.entry(i, j) == byte_bits(input@[16 * i + j / 8])[j % 8],
    {
        if input.len() < 2048 {
            return None;
        }
        let mut m = MatGF2::<128>::new();
        let mut i: usize = 0;
        while i < 128
            invariant
                i <= 128,
                input@.len() >= 2048,
                forall|i2: int, j: int|
                    0 <= i2 < 128 && 0 <= j < 128 ==> #[trigger] m.entry(i2, j) == (i2 < i && byte_bits(input@[16 * i2 + j / 8])[j % 8]),
            decreases 128 - i,
        {
            let mut j: usize = 0;
            while j < 128
                invariant
                    i < 128,
                    j <= 128,
                    input@.len() >= 2048,
                    forall|i2: int, j2: int|
                        0 <= i2 < 128 && 0 <= j2 < 128 ==> #[trigger] m.entry(i2, j2) == ((i2 < i || (i2 == i && j2 < j)) && byte_bits(
                            input@[16 * i2 + j2 / 8],
                        )[j2 % 8]),
                decreases 128 - j,
            {
                let byte = input[16 * i + j / 8];
                let shift = (7 - j % 8) as u8;
                if (byte >> shift) & 1 == 1 {
                    m.set(i, j, GF2(true));
                } else {
                    m.set(i, j, GF2(false));
                }
                j += 1;
            }
            i += 1;
        }
        Some(Self(m))
    }
}

impl Default for LinearExternalEncoding {
    fn default() -> (r: Self)
        ensures
            r.0.is_identity(),
    {
        Self::identity()
    }
}

/// The bits of the state as a vector.
fn state_to_vec(state: &State) -> (r: VecGF2<128>)
    ensures
        r.view_bits() == state_bits(state.0@),
{
    let mut v = VecGF2::<128>::new();
    let mut idx: usize = 0;
    while idx < 16
        invariant
            idx <= 16,
            forall|k: int| 0 <= k < 8 * idx ==> #[trigger] v.data[k].0 == byte_bits(state.0[k / 8])[k % 8],
        decreases 16 - idx,
    {
        let b = state.0[idx];
        let mut bit: usize = 0;
        while bit < 8
            invariant
                idx < 16,
                bit <= 8,
                b == state.0[idx as int],
                forall|k: int| 0 <= k < 8 * idx + bit ==> #[trigger] v.data[k].0 == byte_bits(state.0[k / 8])[k % 8],
            decreases 8 - bit,
        {
            let shift = (7 - bit) as u8;
            v.set(idx * 8 + bit, GF2((b >> shift) & 1 == 1));
            proof {
                let n = (8 * idx + bit) as int;
                assert(n / 8 == idx && n % 8 == bit) by (nonlinear_arith)
                    requires
                        n == 8 * idx + bit,
                        bit < 8,
                ;
            }
            bit += 1;
        }
        idx += 1;
    }
    assert(v.view_bits() =~= state_bits(state.0@));
    v
}

/// The state whose bytes are the bits of the vector.
fn vec_to_state(v: &VecGF2<128>) -> (r: State)
    ensures
        r.0@ == bits_state(v.view_bits()),
{
    let mut out = [0u8; 16];
    let mut idx: usize = 0;
    while idx < 16
        invariant
            idx <= 16,
            forall|i: int| 0 <= i < idx ==> #[trigger] out[i] == bits_byte(v.view_bits(), i),
        decreases 16 - idx,
    {
        let ghost sub = v.view_bits().subrange(8 * idx, 8 * idx + 8);
        let mut b: u16 = 0;
        let mut bit: usize = 0;
        while bit < 8
            invariant
                idx < 16,
                bit <= 8,
                sub == v.view_bits().subrange(8 * idx, 8 * idx + 8),
                b as nat == bits_value(sub, bit as nat),
                b < 256,
            decreases 8 - bit,
        {
            let g = v.get(idx * 8 + bit);
            proof {
                assert(sub[bit as int] == g.0);
                lemma_bits_value_bound(sub, (bit + 1) as nat);
                vstd::arithmetic::power2::lemma2_to64();
                vstd::arithmetic::power2::lemma_pow2_unfold((bit + 1) as nat);
            }
            b = b * 2 + if g.0 {
                1
            } else {
                0
            };
            bit += 1;
        }
        out[idx] = b as u8;
        idx += 1;
    }
    let r = State(out);
    assert(r.0@ =~= bits_state(v.view_bits()));
    r
}

/// The output bytes of the linear network mapped by a table of each position.
#[derive(Debug)]
pub struct LinearNetworkOutput(pub [XArr<X>; 16]);

impl LinearNetworkOutput {
    /// Replaces the byte of every position by its table's entry.
    pub fn apply(&self, state: &mut State)
        ensures
            forall|q: int| 0 <= q < 16 ==> #[trigger] final(state).0[q] == self.0[q].0[old(state).0[q] as int].0,
    {
        let input = *state;
        let mut q: usize = 0;
        while q < 16
            invariant
                q <= 16,
                input == *old(state),
                forall|k: int| 0 <= k < q ==> #[trigger] state.0[k] == self.0[k].0[input.0[k] as int].0,
            decreases 16 - q,
        {
            state.0[q] = self.0[q].0[input.0[q] as usize].0;
            q += 1;
        }
    }
}

/// Applies the linear encoding, or with `inv` its inverse, to the state.
pub fn apply_linear_encoding(state: &mut State, encoding: &LinearExternalEncoding, inv: bool)
    requires
        inv ==> encoding.wf(),
    ensures
        !inv ==> final(state).0@ == linear_image(encoding.0, old(state).0@),
        inv ==> exists|b: MatGF2<128>| b.is_left_inverse_of(encoding.0) && final(state).0@ == linear_image(b, old(state).0@),
{
    let m = encoding.matrix(inv);
    let v = m.mul_vec(&state_to_vec(state));
    *state = vec_to_state(&v);
}

} // verus!
