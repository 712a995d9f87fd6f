# pykrete-wb

White-box AES: the cipher compiled into lookup tables (Chow et al.), with
dual ciphers (AES computed in another representation of GF(2^8)), per-round
and per-column dual ciphers (Karroumi), mixing bijections and internal
encodings that hide the key, and a generator of straight-line programs that
compute the tables in JavaScript, Python, Rust or Java.

The library is written in Verus and its contracts are proved. The main
results:

- The plain tables built from a key compute AES encryption or decryption
  with that key (`Tables::computes` on the constructors in `tables.rs`,
  proved in `equiv.rs`).
- Mixing bijections, L matrices and internal encodings leave the cipher of
  the tables unchanged (`Tables::apply_security`, proved in `security.rs`).
- External input and output encodings compose with the cipher as stated
  (`encoding.rs`).
- The generated program computes the cipher of the tables for every input
  block (`emit::whitebox_program`, proved through the semantics of the
  printed statements in `printed.rs`), and its text is fixed by `render.rs`.

What is stated but not proved: the Karroumi tables (`karroumi.rs`) are
specified by how they are built, not shown to compute AES, and the dual
ciphers are not shown to be AES in another representation; both need the
field laws of GF(2)[x] / m (commutative, associative multiplication and the
isomorphisms between the fields), of which only distributivity over XOR is
proved (`dual::lemma_gf_mul_xor`).

Not provided: folding linear (matrix) external encodings into the tables.
`LinearExternalEncoding` applies such an encoding to a block outside the
tables.

## Layout

- `src/`: the verified library.
  - `aes.rs`, `sbox.rs`, `key.rs`: the reference cipher, S-boxes and key schedule.
  - `dual.rs`, `karroumi.rs`, `generator.rs`: dual ciphers and their fields.
  - `mat.rs`: matrices over GF(2).
  - `tbox.rs`, `ty.rs`, `tybox.rs`, `xor.rs`, `tables.rs`, `equiv.rs`: the table network.
  - `mb.rs`, `internal.rs`, `security.rs`: the protections.
  - `encoding.rs`: external and linear encodings.
  - `vm.rs`, `emit.rs`, `printed.rs`, `render.rs`: the program generator.
  - `random.rs`: the random number generator of the `rand` crate.
- `tests/`: tests of the library.
- `app/`: the command-line tool (argument handling, files, printing).
