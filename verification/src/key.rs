//! AES keys and the key schedule, for standard AES and its dual ciphers.

use vstd::prelude::*;

use crate::dual::{dual_q_rows, rcon_spec, compute_rcon, Dual, Q};
use crate::mat::rows_image;
use crate::sbox::SBox;
use crate::{rot_word, sub_word, RIArr, RoundKey, Word, RI, U2};

verus! {

/// A cipher key of `NK` words.
#[derive(Clone, Copy, Debug)]
pub struct Key<const NK: usize>(pub [Word; NK]);

/// A key of standard AES-128.
pub type Aes128Key = Key<4>;

/// A key of standard AES-192.
pub type Aes192Key = Key<6>;

/// A key of standard AES-256.
pub type Aes256Key = Key<8>;

/// The words of a key given as bytes: word `i` holds bytes `4i .. 4i + 4`.
pub open spec fn key_words_of(bytes: Seq<u8>, nk: nat) -> Seq<Seq<u8>> {
    Seq::new(nk, |i: int| bytes.subrange(4 * i, 4 * i + 4))
}

fn key_from_bytes<const NK: usize>(v: &[u8]) -> (r: Key<NK>)
    requires
        v.len() == 4 * NK,
    ensures
        r.words() == key_words_of(v@, NK as nat),
{
    let mut out = [Word([0u8; 4]); NK];
    let mut i: usize = 0;
    while i < NK
        invariant
            i <= NK,
            v.len() == 4 * NK,
            forall|k: int| 0 <= k < i ==> #[trigger] out[k].0@ == v@.subrange(4 * k, 4 * k + 4),
        decreases NK - i,
    {
        let b = 4 * i;
        out[i] = Word([v[b], v[b + 1], v[b + 2], v[b + 3]]);
        assert(out[i as int].0@ =~= v@.subrange(4 * i as int, 4 * i as int + 4));
        i += 1;
    }
    let r = Key(out);
    assert(r.words() =~= key_words_of(v@, NK as nat));
    r
}

impl<const NK: usize> Key<NK> {
    /// The words of the key.
    pub open spec fn words(self) -> Seq<Seq<u8>> {
        Seq::new(NK as nat, |i: int| self.0[i].0@)
    }

    pub fn word(&self, round: usize) -> (r: Word)
        requires
            round < NK,
        ensures
            r == self.0[round as int],
    {
        self.0[round]
    }

    /// Maps every byte of the key by `q`.
    pub fn apply_q(&mut self, q: Q)
        ensures
            forall|i: int, k: int|
                0 <= i < NK && 0 <= k < 4 ==> #[trigger] final(self).0[i].0[k] == q.0.image(old(self).0[i].0[k]),
    {
        let mut out = [Word([0u8; 4]); NK];
        let mut i: usize = 0;
        while i < NK
            invariant
                i <= NK,
                *self == *old(self),
                forall|j: int, k: int|
                    0 <= j < i && 0 <= k < 4 ==> #[trigger] out[j].0[k] == q.0.image(self.0[j].0[k]),
            decreases NK - i,
        {
            let b = self.0[i].to_bytes();
            let t = [q.0.apply(b[0]), q.0.apply(b[1]), q.0.apply(b[2]), q.0.apply(b[3])];
            out[i] = Word::from_bytes(t);
            i += 1;
        }
        self.0 = out;
    }

    /// Appends the bytes of the key, word after word.
    pub fn write_to(&self, out: &mut Vec<u8>)
        ensures
            final(out)@ == old(out)@ + Seq::new((4 * NK) as nat, |k: int| self.0[k / 4].0[k % 4]),
    {
        let ghost start = out@;
        let mut i: usize = 0;
        while i < NK
            invariant
                i <= NK,
                out@ == start + Seq::new((4 * i) as nat, |k: int| self.0[k / 4].0[k % 4]),
            decreases NK - i,
        {
            let mut k: usize = 0;
            while k < 4
                invariant
                    i < NK,
                    k <= 4,
                    out@ == start + Seq::new((4 * i + k) as nat, |j: int| self.0[j / 4].0[j % 4]),
                decreases 4 - k,
            {
                out.push(self.0[i].0[k]);
                proof {
                    let n = (4 * i + k) as int;
                    assert(n / 4 == i && n % 4 == k) by (nonlinear_arith)
                        requires
                            n == 4 * i + k,
                            k < 4,
                    ;
                    assert(out@ =~= start + Seq::new((n + 1) as nat, |j: int| self.0[j / 4].0[j % 4]));
                }
                k += 1;
            }
            i += 1;
        }
    }

    /// Reads a key from the first `4 * NK` bytes of `input`; `None` when it
    /// is shorter.
    pub fn read_from(input: &[u8]) -> (r: Option<Self>)
        requires
            4 * NK <= usize::MAX,
        ensures
            r is Some <==> input@.len() >= 4 * NK,
            r is Some ==> (r->0).words() == key_words_of(input@, NK as nat),
    {
        if input.len() < 4 * NK {
            return None;
        }
        let v = vstd::slice::slice_subrange(input, 0, 4 * NK);
        let r = key_from_bytes(v);
        proof {
            assert forall|i: int| 0 <= i < NK implies #[trigger] key_words_of(v@, NK as nat)[i] == key_words_of(input@, NK as nat)[i] by {
                assert(v@.subrange(4 * i, 4 * i + 4) =~= input@.subrange(4 * i, 4 * i + 4));
            }
            assert(key_words_of(v@, NK as nat) =~= key_words_of(input@, NK as nat));
        }
        Some(r)
    }
}

/// Reading back the bytes that `write_to` appends for a key gives that key.
pub proof fn lemma_key_roundtrip<const NK: usize>(k: Key<NK>, read: Key<NK>)
    requires
        read.words() == key_words_of(Seq::new((4 * NK) as nat, |j: int| k.0[j / 4].0[j % 4]), NK as nat),
    ensures
        read == k,
{
    let bytes = Seq::new((4 * NK) as nat, |j: int| k.0[j / 4].0[j % 4]);
    assert forall|i: int| 0 <= i < NK implies read.0[i] == k.0[i] by {
        assert(read.words()[i] == bytes.subrange(4 * i, 4 * i + 4));
        assert forall|b: int| 0 <= b < 4 implies read.0[i].0[b] == k.0[i].0[b] by {
            assert(read.0[i].0@[b] == bytes[4 * i + b]);
            assert((4 * i + b) / 4 == i && (4 * i + b) % 4 == b) by (nonlinear_arith)
                requires
                    0 <= b < 4,
            ;
        }
        assert(read.0[i].0 =~= k.0[i].0);
    }
    assert(read.0 =~= k.0);
}

impl Key<4> {
    pub fn new(v: [u8; 16]) -> (r: Self)
        ensures
            r.words() == key_words_of(v@, 4),
    {
        key_from_bytes(v.as_slice())
    }

    /// The round keys of standard AES-128.
    pub fn expand(self) -> (r: RoundKeys<9>)
        ensures
            r.schedule_matches(self.words(), crate::sbox::standard_sbox_table(), crate::dual::standard_dual()),
    {
        let sbox = crate::sbox::PrecomputedSBox::aes_standard();
        assert(crate::sbox::sbox_table(&sbox) =~= crate::sbox::sbox_table(sbox));
        expand_nonstandard_keys(&sbox, self, Dual::standard())
    }

    /// The key "Thats my Kung Fu".
    pub fn kung_fu_test_vector() -> (r: Self)
        ensures
            r.words() == key_words_of(
                seq![0x54u8, 0x68, 0x61, 0x74, 0x73, 0x20, 0x6d, 0x79, 0x20, 0x4b, 0x75, 0x6e, 0x67, 0x20, 0x46, 0x75],
                4,
            ),
    {
        let v: [u8; 16] = [0x54, 0x68, 0x61, 0x74, 0x73, 0x20, 0x6d, 0x79, 0x20, 0x4b, 0x75, 0x6e, 0x67, 0x20, 0x46, 0x75];
        assert(v@ =~= seq![0x54u8, 0x68, 0x61, 0x74, 0x73, 0x20, 0x6d, 0x79, 0x20, 0x4b, 0x75, 0x6e, 0x67, 0x20, 0x46, 0x75]);
        Self::new(v)
    }

    /// The key of the NIST CFB example vectors.
    pub fn nist_cfb_e2() -> (r: Self)
        ensures
            r.words() == key_words_of(
                seq![0x2bu8, 0x7e, 0x15, 0x16, 0x28, 0xae, 0xd2, 0xa6, 0xab, 0xf7, 0x15, 0x88, 0x09, 0xcf, 0x4f, 0x3c],
                4,
            ),
    {
        let v: [u8; 16] = [0x2b, 0x7e, 0x15, 0x16, 0x28, 0xae, 0xd2, 0xa6, 0xab, 0xf7, 0x15, 0x88, 0x09, 0xcf, 0x4f, 0x3c];
        assert(v@ =~= seq![0x2bu8, 0x7e, 0x15, 0x16, 0x28, 0xae, 0xd2, 0xa6, 0xab, 0xf7, 0x15, 0x88, 0x09, 0xcf, 0x4f, 0x3c]);
        Self::new(v)
    }
}

impl Key<6> {
    pub fn new(v: [u8; 24]) -> (r: Self)
        ensures
            r.words() == key_words_of(v@, 6),
    {
        key_from_bytes(v.as_slice())
    }

    /// The round keys of standard AES-192.
    pub fn expand(self) -> (r: RoundKeys<11>)
        ensures
            r.schedule_matches(self.words(), crate::sbox::standard_sbox_table(), crate::dual::standard_dual()),
    {
        let sbox = crate::sbox::PrecomputedSBox::aes_standard();
        assert(crate::sbox::sbox_table(&sbox) =~= crate::sbox::sbox_table(sbox));
        expand_nonstandard_keys(&sbox, self, Dual::standard())
    }
}

impl Key<8> {
    pub fn new(v: [u8; 32]) -> (r: Self)
        ensures
            r.words() == key_words_of(v@, 8),
    {
        key_from_bytes(v.as_slice())
    }

    /// The round keys of standard AES-256.
    pub fn expand(self) -> (r: RoundKeys<13>)
        ensures
            r.schedule_matches(self.words(), crate::sbox::standard_sbox_table(), crate::dual::standard_dual()),
    {
        let sbox = crate::sbox::PrecomputedSBox::aes_standard();
        assert(crate::sbox::sbox_table(&sbox) =~= crate::sbox::sbox_table(sbox));
        expand_nonstandard_keys(&sbox, self, Dual::standard())
    }
}

/// The round keys of a cipher with `NRM1 + 1` rounds: the first `NRM1 + 1`
/// in `rounds` and `last.0`, the key added after the last round in `last.1`.
#[derive(Clone, Copy, Debug)]
pub struct RoundKeys<const NRM1: usize> {
    pub rounds: RIArr<RoundKey, NRM1>,
    pub last: (RoundKey, RoundKey),
}

/// The word `i` of the key schedule, as four bytes.
pub open spec fn xor_bytes(a: Seq<u8>, b: Seq<u8>) -> Seq<u8> {
    Seq::new(4, |k: int| a[k] ^ b[k])
}

/// The substitution of the four bytes of a word.
pub open spec fn sub_word_spec(table: Seq<u8>, w: Seq<u8>) -> Seq<u8> {
    Seq::new(4, |k: int| table[w[k] as int])
}

/// The word rotated one byte to the left.
pub open spec fn rot_word_spec(w: Seq<u8>) -> Seq<u8> {
    seq![w[1], w[2], w[3], w[0]]
}

/// Word `i` of the key schedule expanded from the words `key` with the
/// substitution `table` and the round constants of `dual`.
pub open spec fn schedule_word(table: Seq<u8>, key: Seq<Seq<u8>>, nk: nat, dual: Dual, i: nat) -> Seq<u8>
    decreases i,
{
    if i < nk || nk == 0 {
        key[i as int]
    } else {
        let prev = schedule_word(table, key, nk, dual, (i - 1) as nat);
        let back = schedule_word(table, key, nk, dual, (i - nk) as nat);
        let t = if i % nk == 0 {
            xor_bytes(sub_word_spec(table, rot_word_spec(prev)), seq![rcon_spec(i / nk, dual), 0u8, 0u8, 0u8])
        } else if nk > 6 && i % nk == 4 {
            sub_word_spec(table, prev)
        } else {
            prev
        };
        xor_bytes(back, t)
    }
}

/// The key words mapped into the representation of `dual`.
pub open spec fn dual_key_words(key: Seq<Seq<u8>>, dual: Dual) -> Seq<Seq<u8>> {
    Seq::new(key.len(), |i: int| Seq::new(4, |k: int| rows_image(dual_q_rows(dual), key[i][k])))
}

/// Reading back the bytes that `write_to` appends for round keys gives
/// those round keys.
pub proof fn lemma_round_keys_roundtrip<const NRM1: usize>(k: RoundKeys<NRM1>, read: RoundKeys<NRM1>)
    requires
        forall|j: int|
            0 <= j < 16 * (NRM1 + 2) ==> #[trigger] read.round_spec(j / 16).0[j % 16] == Seq::new(
                (16 * (NRM1 + 2)) as nat,
                |q: int| k.round_spec(q / 16).0[q % 16],
            )[j],
    ensures
        read == k,
{
    assert forall|i: int| 0 <= i < NRM1 + 2 implies read.round_spec(i) == k.round_spec(i) by {
        assert forall|b: int| 0 <= b < 16 implies read.round_spec(i).0[b] == k.round_spec(i).0[b] by {
            let j = 16 * i + b;
            assert(j / 16 == i && j % 16 == b) by (nonlinear_arith)
                requires
                    j == 16 * i + b,
                    0 <= b < 16,
            ;
            assert(0 <= j < 16 * (NRM1 + 2)) by (nonlinear_arith)
                requires
                    j == 16 * i + b,
                    0 <= b < 16,
                    0 <= i < NRM1 + 2,
            ;
            assert(read.round_spec(j / 16).0[j % 16] == k.round_spec(j / 16).0[j % 16]);
        }
        assert(read.round_spec(i).0 =~= k.round_spec(i).0);
    }
    assert forall|i: int| 0 <= i < NRM1 implies read.rounds.0[i] == k.rounds.0[i] by {
        assert(read.round_spec(i) == k.round_spec(i));
    }
    assert(read.rounds.0 =~= k.rounds.0);
    assert(read.round_spec(NRM1 as int) == k.round_spec(NRM1 as int));
    assert(read.round_spec(NRM1 + 1) == k.round_spec(NRM1 + 1));
}

impl<const NRM1: usize> RoundKeys<NRM1> {
    /// Round key `i`, for `i <= NRM1 + 1`.
    pub open spec fn round_spec(self, i: int) -> RoundKey {
        if i == NRM1 {
            self.last.0
        } else if i == NRM1 + 1 {
            self.last.1
        } else {
            self.rounds.0[i]
        }
    }

    /// Word `i` of the key schedule: word `i % 4` of round key `i / 4`.
    pub open spec fn schedule_word_spec(self, i: int) -> Seq<u8> {
        self.round_spec(i / 4).0@.subrange(4 * (i % 4), 4 * (i % 4) + 4)
    }

    /// The round keys are the schedule expanded from `key` in the
    /// representation of `dual`, with the substitution `table`.
    pub open spec fn schedule_matches(self, key: Seq<Seq<u8>>, table: Seq<u8>, dual: Dual) -> bool {
        forall|i: int|
            0 <= i < 4 * (NRM1 + 2) ==> #[trigger] self.schedule_word_spec(i) == schedule_word(
                table,
                dual_key_words(key, dual),
                key.len(),
                dual,
                i as nat,
            )
    }

    /// All round keys zero.
    pub fn new() -> (r: Self)
        ensures
            forall|i: int| 0 <= i <= NRM1 + 1 ==> #[trigger] r.round_spec(i).0@ == Seq::new(16, |p: int| 0u8),
    {
        let r = RoundKeys { rounds: RIArr([RoundKey([0u8; 16]); NRM1]), last: (RoundKey([0u8; 16]), RoundKey([0u8; 16])) };
        assert forall|i: int| 0 <= i <= NRM1 + 1 implies #[trigger] r.round_spec(i).0@ == Seq::new(16, |p: int| 0u8) by {
            assert(r.round_spec(i).0@ =~= Seq::new(16, |p: int| 0u8));
        }
        r
    }

    pub fn round(&self, i: RI) -> (r: RoundKey)
        requires
            i.0 <= NRM1 + 1,
        ensures
            r == self.round_spec(i.0 as int),
    {
        if i.0 == NRM1 {
            self.last.0
        } else if i.0 > NRM1 {
            self.last.1
        } else {
            self.rounds.0[i.0]
        }
    }

    /// The round key `i`, to be changed in place.
    pub fn round_mut(&mut self, i: RI) -> (r: &mut RoundKey)
        requires
            i.0 <= NRM1 + 1,
        ensures
            *r == old(self).round_spec(i.0 as int),
            forall|j: int| 0 <= j <= NRM1 + 1 && j != i.0 ==> #[trigger] final(self).round_spec(j) == old(self).round_spec(j),
            final(self).round_spec(i.0 as int) == *final(r),
    {
        if i.0 == NRM1 {
            &mut self.last.0
        } else if i.0 > NRM1 {
            &mut self.last.1
        } else {
            &mut self.rounds.0[i.0]
        }
    }

    /// Appends the round keys in the order in which the rounds use them.
    pub fn write_to(&self, out: &mut Vec<u8>)
        ensures
            final(out)@ == old(out)@ + Seq::new((16 * (NRM1 + 2)) as nat, |k: int| self.round_spec(k / 16).0[k % 16]),
    {
        let ghost start = out@;
        let mut i: usize = 0;
        while i < NRM1
            invariant
                i <= NRM1,
                out@ == start + Seq::new((16 * i) as nat, |k: int| self.round_spec(k / 16).0[k % 16]),
            decreases NRM1 - i,
        {
            let ghost mid = out@;
            self.rounds.0[i].write_to(out);
            proof {
                assert forall|k: int| 16 * i <= k < 16 * (i + 1) implies #[trigger] (k / 16) == i && k % 16 == k - 16 * i by {}
                assert(out@ =~= start + Seq::new((16 * (i + 1)) as nat, |k: int| self.round_spec(k / 16).0[k % 16]));
            }
            i += 1;
        }
        let (a, b) = self.last;
        a.write_to(out);
        proof {
            assert forall|k: int| 16 * NRM1 <= k < 16 * (NRM1 + 1) implies #[trigger] (k / 16) == NRM1 && k % 16 == k - 16 * NRM1 by {}
            assert(out@ =~= start + Seq::new((16 * (NRM1 + 1)) as nat, |k: int| self.round_spec(k / 16).0[k % 16]));
        }
        b.write_to(out);
        proof {
            assert forall|k: int| 16 * (NRM1 + 1) <= k < 16 * (NRM1 + 2) implies #[trigger] (k / 16) == NRM1 + 1 && k % 16 == k - 16 * (NRM1 + 1) by {}
            assert(out@ =~= start + Seq::new((16 * (NRM1 + 2)) as nat, |k: int| self.round_spec(k / 16).0[k % 16]));
        }
    }

    /// Reads the round keys as `write_to` stores them from the start of
    /// `input`; `None` when it is shorter.
    pub fn read_from(input: &[u8]) -> (r: Option<Self>)
        requires
            16 * (NRM1 + 2) <= usize::MAX,
        ensures
            r is Some <==> input@.len() >= 16 * (NRM1 + 2),
            r is Some ==> forall|k: int| 0 <= k < 16 * (NRM1 + 2) ==> #[trigger] (r->0).round_spec(k / 16).0[k % 16] == input@[k],
    {
        if input.len() < 16 * (NRM1 + 2) {
            return None;
        }
        let read_round = |ri: RI| -> (r: Result<RoundKey, ()>)
            requires
                ri.0 < NRM1,
                input@.len() >= 16 * (NRM1 + 2),
            ensures
                r is Ok && (r->Ok_0).0@ == input@.subrange(16 * ri.0, 16 * ri.0 + 16),
        {
            let part = vstd::slice::slice_subrange(input, 16 * ri.0, 16 * ri.0 + 16);
            assert(part@.subrange(0, 16) =~= part@);
            match RoundKey::read_from(part) {
                Some(k) => Ok(k),
                None => Err(()),
            }
        };
        let rounds = match RIArr::try_from_fn(read_round) {
            Ok(rounds) => rounds,
            Err(_) => {
                return None;
            },
        };
        let a = RoundKey::read_from(vstd::slice::slice_subrange(input, 16 * NRM1, 16 * NRM1 + 16)).unwrap();
        let b = RoundKey::read_from(vstd::slice::slice_subrange(input, 16 * NRM1 + 16, 16 * NRM1 + 32)).unwrap();
        let r = RoundKeys { rounds, last: (a, b) };
        proof {
            assert forall|k: int| 0 <= k < 16 * (NRM1 + 2) implies #[trigger] r.round_spec(k / 16).0[k % 16] == input@[k] by {
                let i = k / 16;
                if i < NRM1 {
                    assert(call_ensures(read_round, (RI(i as usize),), Ok::<RoundKey, ()>(rounds.0[i])));
                }
            }
        }
        Some(r)
    }

    /// Round keys of random bytes.
    pub fn random(rng: &mut rand::rngs::ThreadRng) -> Self {
        let mut rounds = RIArr([RoundKey([0u8; 16]); NRM1]);
        let mut i: usize = 0;
        while i < NRM1
            invariant
                i <= NRM1,
            decreases NRM1 - i,
        {
            rounds.0[i] = RoundKey::random(rng);
            i += 1;
        }
        let a = RoundKey::random(rng);
        let b = RoundKey::random(rng);
        RoundKeys { rounds, last: (a, b) }
    }

    /// Word `i` of the key schedule.
    pub fn get_schedule_word(&self, i: usize) -> (r: Word)
        requires
            i < 4 * (NRM1 + 2),
        ensures
            r.0@ == self.schedule_word_spec(i as int),
    {
        let (round, word) = div_mod_floor(i, 4);
        let r = self.round(RI(round)).get_word(U2::from_index(word));
        assert(r.0@ =~= self.schedule_word_spec(i as int));
        r
    }

    /// Replaces word `i` of the key schedule.
    pub fn set_schedule_word(&mut self, i: usize, v: Word)
        requires
            i < 4 * (NRM1 + 2),
        ensures
            final(self).schedule_word_spec(i as int) == v.0@,
            forall|j: int| 0 <= j < 4 * (NRM1 + 2) && j != i ==> #[trigger] final(self).schedule_word_spec(j) == old(self).schedule_word_spec(j),
    {
        let (round, word) = div_mod_floor(i, 4);
        let rk = self.round_mut(RI(round));
        rk.set_word(U2::from_index(word), v);
        proof {
            assert(self.schedule_word_spec(i as int) =~= v.0@);
            assert forall|j: int| 0 <= j < 4 * (NRM1 + 2) && j != i implies #[trigger] self.schedule_word_spec(j) == old(self).schedule_word_spec(j) by {
                if j / 4 == i / 4 {
                    assert(self.schedule_word_spec(j) =~= old(self).schedule_word_spec(j));
                } else {
                    assert(self.round_spec(j / 4) == old(self).round_spec(j / 4));
                }
            }
        }
    }
}

/// `a` divided by `b`, rounded down, and the remainder.
#[verifier::external_body]
fn div_mod_floor(a: usize, b: usize) -> (r: (usize, usize))
    requires
        b != 0,
    ensures
        r.0 == a / b,
        r.1 == a % b,
{
    num_integer::Integer::div_mod_floor(&a, &b)
}

/// The key schedule of the dual cipher `dual`: the key is mapped into the
/// dual representation and expanded with the substitution `sbox`.
pub fn expand_nonstandard_keys<S: SBox + Copy, const NK: usize, const NRM1: usize>(
    sbox: S,
    key: Key<NK>,
    dual: Dual,
) -> (r: RoundKeys<NRM1>)
    requires
        dual.wf(),
        0 < NK <= 4 * (NRM1 + 2),
        4 * (NRM1 + 2) <= usize::MAX,
    ensures
        r.schedule_matches(key.words(), crate::sbox::sbox_table(sbox), dual),
{
    let mut key = key;
    let ghost key0 = key.words();
    let q = Q::for_dual(dual);
    key.apply_q(q);
    let ghost table = crate::sbox::sbox_table(sbox);
    let ghost dk = dual_key_words(key0, dual);
    proof {
        assert forall|j: int| 0 <= j < NK implies #[trigger] key.0[j].0@ == dk[j] by {
            assert forall|k: int| 0 <= k < 4 implies key.0[j].0[k] == dk[j][k] by {
                q.0.lemma_image_rows(key0[j][k]);
            }
            assert(key.0[j].0@ =~= dk[j]);
        }
    }
    let mut out: RoundKeys<NRM1> = RoundKeys::new();
    let mut i: usize = 0;
    while i < NK
        invariant
            i <= NK,
            0 < NK <= 4 * (NRM1 + 2),
            forall|j: int| 0 <= j < NK ==> #[trigger] key.0[j].0@ == dk[j],
            forall|j: int| 0 <= j < i ==> #[trigger] out.schedule_word_spec(j) == schedule_word(table, dk, NK as nat, dual, j as nat),
        decreases NK - i,
    {
        out.set_schedule_word(i, key.word(i));
        i += 1;
    }
    let nb: usize = 4;
    let total = nb * (NRM1 + 2);
    let mut rcon_idx: usize = 1;
    assert(1 == (NK + NK - 1) / (NK as int)) by (nonlinear_arith)
        requires
            NK > 0,
    ;
    while i < total
        invariant
            NK <= i <= total,
            total == 4 * (NRM1 + 2),
            0 < NK <= total,
            dual.wf(),
            table == crate::sbox::sbox_table(sbox),
            rcon_idx as int == (i + NK - 1) / (NK as int),
            forall|j: int| 0 <= j < i ==> #[trigger] out.schedule_word_spec(j) == schedule_word(table, dk, NK as nat, dual, j as nat),
        decreases total - i,
    {
        proof {
            let ii = i as int;
            let nk = NK as int;
            assert(if ii % nk == 0 {
                (ii + nk - 1) / nk == ii / nk && (ii + 1 + nk - 1) / nk == ii / nk + 1
            } else {
                (ii + 1 + nk - 1) / nk == (ii + nk - 1) / nk
            }) by (nonlinear_arith)
                requires
                    nk > 0,
                    ii >= nk,
            ;
            assert(ii + nk - 1 <= ii * nk) by (nonlinear_arith)
                requires
                    nk > 0,
                    ii >= nk,
            ;
            vstd::arithmetic::div_mod::lemma_div_is_ordered(ii + nk - 1, ii * nk, nk);
            vstd::arithmetic::div_mod::lemma_div_by_multiple(ii, nk);
        }
        let w_im1 = out.get_schedule_word(i - 1);
        let w_imn = out.get_schedule_word(i - NK);
        let ghost prev = schedule_word(table, dk, NK as nat, dual, (i - 1) as nat);
        let ghost expected_t = if i % NK == 0 {
            xor_bytes(sub_word_spec(table, rot_word_spec(prev)), seq![rcon_spec((i / NK) as nat, dual), 0u8, 0u8, 0u8])
        } else if NK > 6 && i % NK == 4 {
            sub_word_spec(table, prev)
        } else {
            prev
        };
        let t = if i % NK == 0 {
            let rc = compute_rcon(rcon_idx, dual);
            let rw = rot_word(w_im1);
            let sw = sub_word(sbox, rw);
            let r = sw.xor(Word::from_bytes([rc, 0, 0, 0]));
            proof {
                assert(rw.0@ =~= rot_word_spec(prev));
                assert(rcon_idx == i / NK);
                assert(rc == rcon_spec((i / NK) as nat, dual));
                assert(sw.0@ == sub_word_spec(table, rot_word_spec(prev)));
                assert forall|k: int| 0 <= k < 4 implies r.0[k] == #[trigger] expected_t[k] by {
                    assert(seq![rcon_spec((i / NK) as nat, dual), 0u8, 0u8, 0u8][k] == [rc, 0u8, 0u8, 0u8][k]);
                }
                assert(r.0@ =~= expected_t);
            }
            rcon_idx += 1;
            r
        } else if NK > 6 && i % NK == 4 {
            sub_word(sbox, w_im1)
        } else {
            w_im1
        };
        let w_i = w_imn.xor(t);
        proof {
            assert(t.0@ == expected_t);
            assert(w_imn.0@ == schedule_word(table, dk, NK as nat, dual, (i - NK) as nat));
            assert(w_i.0@ =~= schedule_word(table, dk, NK as nat, dual, i as nat));
        }
        out.set_schedule_word(i, w_i);
        i += 1;
    }
    proof {
        assert(dk.len() == NK);
    }
    out
}

} // verus!
