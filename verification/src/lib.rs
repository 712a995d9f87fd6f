//! White-box AES table generation: GF(2^8) arithmetic, AES and its dual
//! ciphers, and the lookup tables of the Chow and Karroumi white-box schemes.

use vstd::prelude::*;

pub mod aes;
pub mod consts;
pub mod dual;
pub mod emit;
pub mod generator;
pub mod encoding;
pub mod equiv;
pub mod internal;
pub mod karroumi;
pub mod key;
pub mod mat;
pub mod mb;
pub mod printed;
pub mod random;
pub mod render;
pub mod sbox;
pub mod security;
pub mod tables;
pub mod tbox;
pub mod ty;
pub mod tybox;
pub mod vm;
pub mod xor;

pub use tables::Tables;
pub use aes::{add_round_key, decrypt, decrypt_nonstandard, encrypt, encrypt_nonstandard, mix_columns, mix_columns_inv};

verus! {

/// State byte, an element of GF(2^8) in the representation of the field in use.
#[derive(Clone, Copy, PartialEq, Eq, Structural, Debug)]
pub struct X(pub u8);

impl X {
    pub fn as_index(&self) -> (r: usize)
        ensures
            r == self.0,
    {
        self.0 as usize
    }

    pub fn from_index(i: usize) -> (r: X)
        requires
            i < 256,
        ensures
            r.0 == i,
    {
        X(i as u8)
    }

    /// The byte whose high nibble is `a` and whose low nibble is `b`.
    pub fn nibs(a: U4, b: U4) -> (r: X)
        ensures
            r.0 == a.idx() * 16 + b.idx(),
    {
        X((a.as_index() * 16 + b.as_index()) as u8)
    }

    /// The high and the low nibble of the byte.
    pub fn as_nibs(self) -> (r: (U4, U4))
        ensures
            r.0.idx() == self.0 / 16,
            r.1.idx() == self.0 % 16,
    {
        (U4::from_index((self.0 / 16) as usize), U4::from_index((self.0 % 16) as usize))
    }

    pub fn xor(self, rhs: X) -> (r: X)
        ensures
            r.0 == self.0 ^ rhs.0,
    {
        X(self.0 ^ rhs.0)
    }
}

/// The 16 bytes of the AES state, column by column.
#[derive(Clone, Copy, Debug)]
pub struct State(pub [u8; 16]);

impl PartialEq for State {
    fn eq(&self, other: &Self) -> (r: bool) {
        let mut i: usize = 0;
        while i < 16
            invariant
                i <= 16,
                forall|k: int| 0 <= k < i ==> self.0[k] == other.0[k],
            decreases 16 - i,
        {
            if self.0[i] != other.0[i] {
                return false;
            }
            i += 1;
        }
        assert(self.0@ =~= other.0@);
        true
    }
}

impl vstd::std_specs::cmp::PartialEqSpecImpl for State {
    open spec fn obeys_eq_spec() -> bool {
        true
    }

    open spec fn eq_spec(&self, other: &Self) -> bool {
        self.0@ == other.0@
    }
}

impl State {
    pub fn from_bytes(data: [u8; 16]) -> (r: State)
        ensures
            r.0 == data,
    {
        State(data)
    }

    pub fn to_bytes(&self) -> (r: [u8; 16])
        ensures
            r == self.0,
    {
        self.0
    }

    /// The plaintext "Two One Nine Two" of the worked AES-128 example.
    pub fn two_one_nine_two_test_vector() -> (r: State)
        ensures
            r.0@ == seq![0x54u8, 0x77, 0x6f, 0x20, 0x4f, 0x6e, 0x65, 0x20, 0x4e, 0x69, 0x6e, 0x65, 0x20, 0x54, 0x77, 0x6f],
    {
        let r = State([0x54u8, 0x77, 0x6f, 0x20, 0x4f, 0x6e, 0x65, 0x20, 0x4e, 0x69, 0x6e, 0x65, 0x20, 0x54, 0x77, 0x6f]);
        assert(r.0@ =~= seq![0x54u8, 0x77, 0x6f, 0x20, 0x4f, 0x6e, 0x65, 0x20, 0x4e, 0x69, 0x6e, 0x65, 0x20, 0x54, 0x77, 0x6f]);
        r
    }

    /// Its AES-128 encryption under the key "Thats my Kung Fu".
    pub fn two_one_nine_two_aes128_kung_fu_test_vector() -> (r: State)
        ensures
            r.0@ == seq![0x29u8, 0xc3, 0x50, 0x5f, 0x57, 0x14, 0x20, 0xf6, 0x40, 0x22, 0x99, 0xb3, 0x1a, 0x02, 0xd7, 0x3a],
    {
        let r = State([0x29u8, 0xc3, 0x50, 0x5f, 0x57, 0x14, 0x20, 0xf6, 0x40, 0x22, 0x99, 0xb3, 0x1a, 0x02, 0xd7, 0x3a]);
        assert(r.0@ =~= seq![0x29u8, 0xc3, 0x50, 0x5f, 0x57, 0x14, 0x20, 0xf6, 0x40, 0x22, 0x99, 0xb3, 0x1a, 0x02, 0xd7, 0x3a]);
        r
    }

    /// The AES-256 encryption of the zero block under the key `80 00 .. 00`.
    pub fn two_one_nine_two_aes256_kung_fu_test_vector() -> (r: State)
        ensures
            r.0@ == seq![0xe3u8, 0x5a, 0x6d, 0xcb, 0x19, 0xb2, 0x01, 0xa0, 0x1e, 0xbc, 0xfa, 0x8a, 0xa2, 0x2b, 0x57, 0x59],
    {
        let r = State([0xe3u8, 0x5a, 0x6d, 0xcb, 0x19, 0xb2, 0x01, 0xa0, 0x1e, 0xbc, 0xfa, 0x8a, 0xa2, 0x2b, 0x57, 0x59]);
        assert(r.0@ =~= seq![0xe3u8, 0x5a, 0x6d, 0xcb, 0x19, 0xb2, 0x01, 0xa0, 0x1e, 0xbc, 0xfa, 0x8a, 0xa2, 0x2b, 0x57, 0x59]);
        r
    }

    /// The state with every byte equal to `x`.
    pub fn from_x(x: X) -> (r: State)
        ensures
            forall|p: int| 0 <= p < 16 ==> r.0[p] == x.0,
    {
        State([x.0; 16])
    }

    pub fn get(&self, pos: SPos) -> (r: X)
        ensures
            r.0 == self.0[pos.idx() as int],
    {
        X(self.0[pos.as_index()])
    }

    pub fn set(&mut self, pos: SPos, v: X)
        ensures
            final(self).0@ == old(self).0@.update(pos.idx() as int, v.0),
    {
        self.0[pos.as_index()] = v.0;
    }

    /// Column `c`: the bytes at positions `4c .. 4c + 4`.
    pub fn get_column(&self, c: SColumn) -> (r: Column)
        ensures
            forall|k: int| 0 <= k < 4 ==> r.0[k] == self.0[4 * c.0.idx() + k],
    {
        let b = c.as_index() * 4;
        Column([self.0[b], self.0[b + 1], self.0[b + 2], self.0[b + 3]])
    }

    pub fn set_column(&mut self, c: SColumn, v: Column)
        ensures
            forall|p: int|
                0 <= p < 16 ==> final(self).0[p] == (if p / 4 == c.0.idx() {
                    v.0[p % 4]
                } else {
                    old(self).0[p]
                }),
    {
        let b = c.as_index() * 4;
        self.0[b] = v.0[0];
        self.0[b + 1] = v.0[1];
        self.0[b + 2] = v.0[2];
        self.0[b + 3] = v.0[3];
    }
}

/// Four bytes of one row of the state, indexed by column.
#[derive(Clone, Copy, PartialEq, Eq, Debug)]
pub struct Row(pub [u8; 4]);

/// Four bytes of one column of the state, indexed by row.
#[derive(Clone, Copy, PartialEq, Eq, Debug)]
pub struct Column(pub [u8; 4]);

impl Row {
    pub fn get(&self, c: SColumn) -> (r: X)
        ensures
            r.0 == self.0[c.0.idx() as int],
    {
        X(self.0[c.as_index()])
    }

    pub fn set(&mut self, c: SColumn, v: X)
        ensures
            final(self).0@ == old(self).0@.update(c.0.idx() as int, v.0),
    {
        self.0[c.as_index()] = v.0;
    }

    /// The high or the low nibble of the byte in column `column`.
    pub fn column_nibble(&self, column: SColumn, high_low: HighLow) -> (r: U4)
        ensures
            r.idx() == (match high_low {
                HighLow::High => self.0[column.0.idx() as int] / 16,
                HighLow::Low => self.0[column.0.idx() as int] % 16,
            }),
    {
        let v = self.get(column);
        let (high, low) = v.as_nibs();
        match high_low {
            HighLow::High => high,
            HighLow::Low => low,
        }
    }

    /// Replaces one nibble of the byte in column `column`.
    pub fn set_column_nibble(&mut self, column: SColumn, high_low: HighLow, to: U4)
        ensures
            final(self).0@ == old(self).0@.update(
                column.0.idx() as int,
                (match high_low {
                    HighLow::High => to.idx() * 16 + old(self).0[column.0.idx() as int] % 16,
                    HighLow::Low => (old(self).0[column.0.idx() as int] / 16) * 16 + to.idx(),
                }) as u8,
            ),
    {
        let v = self.get(column);
        let (mut high, mut low) = v.as_nibs();
        match high_low {
            HighLow::High => high = to,
            HighLow::Low => low = to,
        };
        self.set(column, X::nibs(high, low))
    }

    pub fn as_bytes(&self) -> (r: [u8; 4])
        ensures
            r == self.0,
    {
        self.0
    }

    pub fn from_bytes(v: [u8; 4]) -> (r: Row)
        ensures
            r.0 == v,
    {
        Row(v)
    }
}

impl Column {
    pub fn get(&self, r: SRow) -> (x: X)
        ensures
            x.0 == self.0[r.0.idx() as int],
    {
        X(self.0[r.as_index()])
    }

    pub fn as_bytes(&self) -> (r: [u8; 4])
        ensures
            r == self.0,
    {
        self.0
    }

    pub fn from_bytes(v: [u8; 4]) -> (r: Column)
        ensures
            r.0 == v,
    {
        Column(v)
    }
}

/// A word of the key schedule.
#[derive(Clone, Copy, PartialEq, Eq, Debug)]
pub struct Word(pub [u8; 4]);

impl Word {
    pub fn from_bytes(b: [u8; 4]) -> (r: Word)
        ensures
            r.0 == b,
    {
        Word(b)
    }

    pub fn to_bytes(self) -> (r: [u8; 4])
        ensures
            r == self.0,
    {
        self.0
    }

    /// Bytewise sum.
    pub fn xor(self, rhs: Word) -> (r: Word)
        ensures
            forall|k: int| 0 <= k < 4 ==> r.0[k] == self.0[k] ^ rhs.0[k],
    {
        Word([self.0[0] ^ rhs.0[0], self.0[1] ^ rhs.0[1], self.0[2] ^ rhs.0[2], self.0[3] ^ rhs.0[3]])
    }
}

/// Rotates the word one byte to the left.
pub fn rot_word(word: Word) -> (r: Word)
    ensures
        r.0@ == seq![word.0[1], word.0[2], word.0[3], word.0[0]],
{
    let r = Word([word.0[1], word.0[2], word.0[3], word.0[0]]);
    assert(r.0@ =~= seq![word.0[1], word.0[2], word.0[3], word.0[0]]);
    r
}

/// The substitution of the four bytes of a word.
pub fn sub_word<S: sbox::SBox>(sbox: S, word: Word) -> (r: Word)
    ensures
        r.0@ == key::sub_word_spec(sbox::sbox_table(sbox), word.0@),
{
    let b = word.to_bytes();
    let r = Word::from_bytes([sbox.sub_byte(X(b[0])).0, sbox.sub_byte(X(b[1])).0, sbox.sub_byte(X(b[2])).0, sbox.sub_byte(X(b[3])).0]);
    assert(r.0@ =~= key::sub_word_spec(sbox::sbox_table(sbox), word.0@));
    r
}

/// A round key: 16 bytes laid out like the state.
#[derive(Clone, Copy, PartialEq, Eq, Debug)]
pub struct RoundKey(pub [u8; 16]);

/// Reading back the bytes that `write_to` appends for a round key gives
/// that round key.
pub proof fn lemma_round_key_roundtrip(k: RoundKey, read: RoundKey)
    requires
        read.0@ == k.0@.subrange(0, 16),
    ensures
        read == k,
{
    assert(k.0@.subrange(0, 16) =~= k.0@);
    assert(read.0 =~= k.0);
}

impl RoundKey {
    /// Word `j`: the bytes at positions `4j .. 4j + 4`.
    pub fn get_word(&self, j: U2) -> (r: Word)
        ensures
            forall|k: int| 0 <= k < 4 ==> r.0[k] == self.0[4 * j.idx() + k],
    {
        let b = j.as_index() * 4;
        Word([self.0[b], self.0[b + 1], self.0[b + 2], self.0[b + 3]])
    }

    pub fn set_word(&mut self, i: U2, v: Word)
        ensures
            forall|p: int|
                0 <= p < 16 ==> final(self).0[p] == (if p / 4 == i.idx() {
                    v.0[p % 4]
                } else {
                    old(self).0[p]
                }),
    {
        let b = i.as_index() * 4;
        self.0[b] = v.0[0];
        self.0[b + 1] = v.0[1];
        self.0[b + 2] = v.0[2];
        self.0[b + 3] = v.0[3];
    }

    /// Appends the 16 bytes of the key.
    pub fn write_to(&self, out: &mut Vec<u8>)
        ensures
            final(out)@ == old(out)@ + self.0@,
    {
        let ghost start = out@;
        let mut i: usize = 0;
        while i < 16
            invariant
                i <= 16,
                out@ == start + self.0@.subrange(0, i as int),
            decreases 16 - i,
        {
            out.push(self.0[i]);
            assert(out@ =~= start + self.0@.subrange(0, i + 1));
            i += 1;
        }
        assert(self.0@.subrange(0, 16) =~= self.0@);
    }

    /// Reads a key from the first 16 bytes of `input`; `None` when it is shorter.
    pub fn read_from(input: &[u8]) -> (r: Option<RoundKey>)
        ensures
            r is Some <==> input@.len() >= 16,
            r is Some ==> (r->0).0@ == input@.subrange(0, 16),
    {
        if input.len() < 16 {
            return None;
        }
        let mut out = [0u8; 16];
        let mut i: usize = 0;
        while i < 16
            invariant
                i <= 16,
                input@.len() >= 16,
                forall|k: int| 0 <= k < i ==> #[trigger] out[k] == input@[k],
            decreases 16 - i,
        {
            out[i] = input[i];
            i += 1;
        }
        assert(out@ =~= input@.subrange(0, 16));
        Some(RoundKey(out))
    }

    /// A key of random bytes.
    pub fn random(rng: &mut rand::rngs::ThreadRng) -> RoundKey {
        let mut out = [0u8; 16];
        let mut i: usize = 0;
        while i < 16
            invariant
                i <= 16,
            decreases 16 - i,
        {
            out[i] = crate::random::random_byte(rng);
            i += 1;
        }
        RoundKey(out)
    }
}

impl Default for RoundKey {
    fn default() -> (r: Self)
        ensures
            r.0@ == Seq::new(16, |i: int| 0u8),
    {
        let r = RoundKey([0u8; 16]);
        assert(r.0@ =~= Seq::new(16, |i: int| 0u8));
        r
    }
}

/// Round index.

#[derive(Clone, Copy, PartialEq, Eq, Debug)]
pub struct RI(pub usize);

/// Which of the three XOR tables of a cascade: the two inputs or the output.
#[derive(Clone, Copy, PartialEq, Eq, Structural, Debug)]
pub enum Purpose {
    High,
    Low,
    Output,
}

impl Purpose {
    pub open spec fn idx(self) -> nat {
        match self {
            Purpose::High => 0,
            Purpose::Low => 1,
            Purpose::Output => 2,
        }
    }

    pub fn as_index(self) -> (r: usize)
        ensures
            r == self.idx(),
    {
        match self {
            Purpose::High => 0,
            Purpose::Low => 1,
            Purpose::Output => 2,
        }
    }

    pub fn from_index(i: usize) -> (r: Purpose)
        requires
            i < 3,
        ensures
            r.idx() == i,
    {
        if i == 0 {
            Purpose::High
        } else if i == 1 {
            Purpose::Low
        } else {
            Purpose::Output
        }
    }
}

/// The high or the low nibble of a byte.
#[derive(Clone, Copy, PartialEq, Eq, Structural, Debug)]
pub enum HighLow {
    High,
    Low,
}

impl HighLow {
    pub open spec fn idx(self) -> nat {
        match self {
            HighLow::High => 0,
            HighLow::Low => 1,
        }
    }

    pub fn as_index(self) -> (r: usize)
        ensures
            r == self.idx(),
    {
        match self {
            HighLow::High => 0,
            HighLow::Low => 1,
        }
    }

    /// Entry `i` of the iteration order, low nibble first.
    pub fn from_index(i: usize) -> (r: HighLow)
        requires
            i < 2,
        ensures
            r.idx() == 1 - i,
    {
        if i == 0 {
            HighLow::Low
        } else {
            HighLow::High
        }
    }
}

/// Which protections `Tables::apply_security` adds to the tables.
#[derive(Debug, Clone, Copy)]
pub struct Security {
    /// 32-bit mixing bijections.
    pub mb: bool,
    /// 8-bit mixing bijections.
    pub l: bool,
    /// Always use the MB + L tables, even without mixing bijections.
    pub force_mbl: bool,
    /// Always use the XOR tables for the MB + L tables.
    pub force_mbl_xor: bool,
    /// Always use the XOR tables for the tyboxes.
    pub force_xor: bool,
    /// Internal encodings tying rounds together through the XOR tables.
    pub internal_encodings: bool,
}

impl Security {
    pub fn full() -> (r: Self)
        ensures
            r.mb && r.l && r.internal_encodings && !r.force_mbl && !r.force_xor && !r.force_mbl_xor,
    {
        Security {
            mb: true,
            l: true,
            internal_encodings: true,
            force_mbl: false,
            force_xor: false,
            force_mbl_xor: false,
        }
    }
}

/// Initialization vector of the CFB mode.
#[derive(Clone, Copy, Debug)]
pub struct IV(pub [u8; 16]);

impl IV {
    pub fn new(v: [u8; 16]) -> (r: Self)
        ensures
            r.0 == v,
    {
        IV(v)
    }
}

/// An array indexed by the 256 bytes.
#[derive(Clone, Copy, Debug)]
pub struct XArr<T>(pub [T; 256]);

impl XArr<X> {
    /// The table of `map` over all bytes; the entries are computed one after
    /// another.
    pub fn from_fn_par<F: Fn(X) -> X>(map: F) -> (r: XArr<X>)
        requires
            forall|x: X| #[trigger] map.requires((x,)),
        ensures
            forall|i: int| 0 <= i < 256 ==> map.ensures((X(i as u8),), #[trigger] r.0[i]),
    {
        let mut out = [X(0); 256];
        let mut i: usize = 0;
        while i < 256
            invariant
                i <= 256,
                forall|x: X| #[trigger] map.requires((x,)),
                forall|k: int| 0 <= k < i ==> map.ensures((X(k as u8),), #[trigger] out[k]),
            decreases 256 - i,
        {
            out[i] = map(X(i as u8));
            i += 1;
        }
        XArr(out)
    }
}

/// Array with one element per round but the last.
#[derive(Clone, Copy, Debug)]
pub struct RIArr<T, const NRM1: usize>(pub [T; NRM1]);

/// `f` returned some value for round `j`.
pub open spec fn returned_ok<T, E, F: Fn(RI) -> Result<T, E>>(f: F, j: int) -> bool {
    exists|v: T| #[trigger] call_ensures(f, (RI(j as usize),), Ok::<T, E>(v))
}

impl<T: Copy + Default, const NRM1: usize> RIArr<T, NRM1> {
    /// The array of `f`'s results for every round, or the first error that
    /// `f` returns.
    pub fn try_from_fn<E, F: Fn(RI) -> Result<T, E>>(f: F) -> (r: Result<Self, E>)
        requires
            forall|i: usize| i < NRM1 ==> #[trigger] call_requires(f, (RI(i),)),
        ensures
            r is Ok ==> forall|i: int| 0 <= i < NRM1 ==> call_ensures(f, (RI(i as usize),), Ok::<T, E>(#[trigger] r->Ok_0.0[i])),
            r is Err ==> exists|i: int|
                0 <= i < NRM1 && #[trigger] call_ensures(f, (RI(i as usize),), Err::<T, E>(r->Err_0)) && forall|j: int|
                    0 <= j < i ==> #[trigger] returned_ok(f, j),
    {
        let mut out = [T::default(); NRM1];
        let mut i: usize = 0;
        while i < NRM1
            invariant
                i <= NRM1,
                forall|k: usize| k < NRM1 ==> #[trigger] call_requires(f, (RI(k),)),
                forall|k: int| 0 <= k < i ==> call_ensures(f, (RI(k as usize),), Ok::<T, E>(#[trigger] out[k])),
            decreases NRM1 - i,
        {
            match f(RI(i)) {
                Ok(v) => {
                    let ghost before = out;
                    out[i] = v;
                    assert forall|k: int| 0 <= k < i + 1 implies call_ensures(f, (RI(k as usize),), Ok::<T, E>(#[trigger] out[k])) by {
                        if k < i {
                            assert(out[k] == before[k]);
                        }
                    }
                },
                Err(e) => {
                    assert forall|j: int| 0 <= j < i implies #[trigger] returned_ok(f, j) by {
                        assert(call_ensures(f, (RI(j as usize),), Ok::<T, E>(out[j])));
                    }
                    let r: Result<Self, E> = Err(e);
                    proof {
                        let k: int = i as int;
                        assert(RI(k as usize) == RI(i));
                        assert(call_ensures(f, (RI(k as usize),), Err::<T, E>(r->Err_0)));
                        assert(0 <= k < NRM1 && call_ensures(f, (RI(k as usize),), Err::<T, E>(r->Err_0)) && forall|j: int|
                            0 <= j < k ==> #[trigger] returned_ok(f, j));
                    }
                    return r;
                },
            }
            i += 1;
        }
        Ok(RIArr(out))
    }
}

/// A value in 0..4.
#[derive(Clone, Copy, PartialEq, Eq, Structural, Debug)]
pub enum U2 {
    _0,
    _1,
    _2,
    _3,
}

impl U2 {
    pub open spec fn idx(self) -> nat {
        match self {
            U2::_0 => 0,
            U2::_1 => 1,
            U2::_2 => 2,
            U2::_3 => 3,
        }
    }

    pub fn as_index(self) -> (r: usize)
        ensures
            r == self.idx(),
    {
        match self {
            U2::_0 => 0,
            U2::_1 => 1,
            U2::_2 => 2,
            U2::_3 => 3,
        }
    }

    pub fn from_index(index: usize) -> (r: U2)
        requires
            index < 4,
        ensures
            r.idx() == index,
    {
        if index == 0 {
            U2::_0
        } else if index == 1 {
            U2::_1
        } else if index == 2 {
            U2::_2
        } else {
            U2::_3
        }
    }

    pub fn xor(self, rhs: U2) -> (r: U2)
        ensures
            r.idx() == (self.idx() as u8 ^ rhs.idx() as u8),
    {
        let a = self.as_index() as u8;
        let b = rhs.as_index() as u8;
        proof {
            lemma_xor_u8(a, b, 0);
        }
        U2::from_index((a ^ b) as usize)
    }
}

/// A value in 0..16: a nibble, or a position in the 4x4 state.
#[derive(Clone, Copy, PartialEq, Eq, Structural, Debug)]
pub enum U4 {
    _0,
    _1,
    _2,
    _3,
    _4,
    _5,
    _6,
    _7,
    _8,
    _9,
    _10,
    _11,
    _12,
    _13,
    _14,
    _15,
}

impl U4 {
    pub open spec fn idx(self) -> nat {
        match self {
            U4::_0 => 0,
            U4::_1 => 1,
            U4::_2 => 2,
            U4::_3 => 3,
            U4::_4 => 4,
            U4::_5 => 5,
            U4::_6 => 6,
            U4::_7 => 7,
            U4::_8 => 8,
            U4::_9 => 9,
            U4::_10 => 10,
            U4::_11 => 11,
            U4::_12 => 12,
            U4::_13 => 13,
            U4::_14 => 14,
            U4::_15 => 15,
        }
    }

    pub fn as_index(self) -> (r: usize)
        ensures
            r == self.idx(),
    {
        match self {
            U4::_0 => 0,
            U4::_1 => 1,
            U4::_2 => 2,
            U4::_3 => 3,
            U4::_4 => 4,
            U4::_5 => 5,
            U4::_6 => 6,
            U4::_7 => 7,
            U4::_8 => 8,
            U4::_9 => 9,
            U4::_10 => 10,
            U4::_11 => 11,
            U4::_12 => 12,
            U4::_13 => 13,
            U4::_14 => 14,
            U4::_15 => 15,
        }
    }

    pub fn from_index(v: usize) -> (r: U4)
        requires
            v < 16,
        ensures
            r.idx() == v,
    {
        if v < 8 {
            if v < 4 {
                if v == 0 {
                    U4::_0
                } else if v == 1 {
                    U4::_1
                } else if v == 2 {
                    U4::_2
                } else {
                    U4::_3
                }
            } else {
                if v == 4 {
                    U4::_4
                } else if v == 5 {
                    U4::_5
                } else if v == 6 {
                    U4::_6
                } else {
                    U4::_7
                }
            }
        } else {
            if v < 12 {
                if v == 8 {
                    U4::_8
                } else if v == 9 {
                    U4::_9
                } else if v == 10 {
                    U4::_10
                } else {
                    U4::_11
                }
            } else {
                if v == 12 {
                    U4::_12
                } else if v == 13 {
                    U4::_13
                } else if v == 14 {
                    U4::_14
                } else {
                    U4::_15
                }
            }
        }
    }

    /// The position `4 * j + i`.
    pub fn ji(j: U2, i: U2) -> (r: U4)
        ensures
            r.idx() == j.idx() * 4 + i.idx(),
    {
        U4::from_index(j.as_index() * 4 + i.as_index())
    }

    /// `self / 4`
    pub fn j(self) -> (r: U2)
        ensures
            r.idx() == self.idx() / 4,
    {
        U2::from_index(self.as_index() / 4)
    }

    /// `self % 4`
    pub fn i(self) -> (r: U2)
        ensures
            r.idx() == self.idx() % 4,
    {
        U2::from_index(self.as_index() % 4)
    }

    pub fn xor(self, rhs: U4) -> (r: U4)
        ensures
            r.idx() == (self.idx() as u8 ^ rhs.idx() as u8),
    {
        let a = self.as_index() as u8;
        let b = rhs.as_index() as u8;
        proof {
            lemma_xor_u8(a, b, 0);
        }
        U4::from_index((a ^ b) as usize)
    }
}

/// Column index of the state.
#[derive(Clone, Copy, PartialEq, Eq, Structural, Debug)]
pub struct SColumn(pub U2);

/// Row index of the state.
#[derive(Clone, Copy, PartialEq, Eq, Structural, Debug)]
pub struct SRow(pub U2);

impl SColumn {
    pub fn as_index(&self) -> (r: usize)
        ensures
            r == self.0.idx(),
    {
        self.0.as_index()
    }

    pub fn from_index(i: usize) -> (r: SColumn)
        requires
            i < 4,
        ensures
            r.0.idx() == i,
    {
        SColumn(U2::from_index(i))
    }
}

impl SRow {
    pub fn as_index(&self) -> (r: usize)
        ensures
            r == self.0.idx(),
    {
        self.0.as_index()
    }

    pub fn from_index(i: usize) -> (r: SRow)
        requires
            i < 4,
        ensures
            r.0.idx() == i,
    {
        SRow(U2::from_index(i))
    }
}

/// Position in the state; the state is stored column by column, so position
/// `p` is in column `p / 4` and row `p % 4`.
#[derive(Clone, Copy, PartialEq, Eq, Structural, Debug)]
pub struct SPos(pub U4);

impl SPos {
    pub open spec fn idx(self) -> nat {
        self.0.idx()
    }

    pub fn column_row(column: SColumn, row: SRow) -> (r: SPos)
        ensures
            r.idx() == column.0.idx() * 4 + row.0.idx(),
    {
        SPos(U4::ji(column.0, row.0))
    }

    pub fn row(&self) -> (r: SRow)
        ensures
            r.0.idx() == self.idx() % 4,
    {
        SRow(self.0.i())
    }

    pub fn column(&self) -> (r: SColumn)
        ensures
            r.0.idx() == self.idx() / 4,
    {
        SColumn(self.0.j())
    }

    pub fn as_index(&self) -> (r: usize)
        ensures
            r == self.idx(),
    {
        self.0.as_index()
    }

    pub fn from_index(v: usize) -> (r: SPos)
        requires
            v < 16,
        ensures
            r.idx() == v,
    {
        SPos(U4::from_index(v))
    }
}

/// XOR on bytes: it cancels, keeps nibbles and two-bit values in range, and
/// is injective in each argument.
pub proof fn lemma_xor_u8(a: u8, b: u8, c: u8)
    by (bit_vector)
    ensures
        (a ^ b) ^ b == a,
        a ^ (a ^ b) == b,
        a < 16 && b < 16 ==> a ^ b < 16,
        a < 4 && b < 4 ==> a ^ b < 4,
        b != c ==> (a ^ b) != (a ^ c),
        a ^ 0u8 == a,
        0u8 ^ a == a,
        a ^ b == b ^ a,
{
}

/// A sequence of `n` distinct values below `n` takes every value below `n`.
pub proof fn lemma_pigeonhole(s: Seq<u8>, v: nat)
    requires
        v < s.len(),
        forall|i: int| 0 <= i < s.len() ==> s[i] < s.len(),
        forall|i: int, j: int| 0 <= i < j < s.len() ==> s[i] != s[j],
    ensures
        exists|j: int| 0 <= j < s.len() && s[j] == v,
{
    let n = s.len();
    let t = s.map(|i: int, x: u8| x as int);
    assert(t.no_duplicates()) by {
        assert forall|i: int, j: int| 0 <= i < t.len() && 0 <= j < t.len() && i != j implies t[i] != t[j] by {
            if i < j {
                assert(s[i] != s[j]);
            } else {
                assert(s[j] != s[i]);
            }
        }
    }
    t.unique_seq_to_set();
    vstd::set_lib::lemma_int_range(0, n as int);
    let range = vstd::set_lib::set_int_range(0, n as int);
    assert(t.to_set().subset_of(range)) by {
        assert forall|x: int| t.to_set().contains(x) implies range.contains(x) by {
            let k = choose|k: int| 0 <= k < t.len() && t[k] == x;
            assert(s[k] < n);
        }
    }
    vstd::set_lib::lemma_len_subset(t.to_set(), range);
    vstd::set_lib::lemma_subset_equality(t.to_set(), range);
    assert(range.contains(v as int));
    assert(t.to_set().contains(v as int));
    let k = choose|k: int| 0 <= k < t.len() && t[k] == v as int;
    assert(s[k] == v);
}

/// Sixteen distinct nibbles take every nibble value.
pub proof fn lemma_pigeonhole_16(a: [u8; 16], v: nat)
    requires
        v < 16,
        forall|i: int| 0 <= i < 16 ==> a[i] < 16,
        forall|i: int, j: int| 0 <= i < j < 16 ==> a[i] != a[j],
    ensures
        exists|j: int| 0 <= j < 16 && a[j] == v,
{
    lemma_pigeonhole(a@, v);
    let j = choose|j: int| 0 <= j < 16 && a@[j] == v;
    assert(a[j] == v);
}

} // verus!
