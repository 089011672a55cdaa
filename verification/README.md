# Silent batched threshold encryption

A verified library for batched threshold encryption without an interactive setup, over the curve
BLS12-381. Parties publish keys on their own; anyone aggregates the keys of a committee; ciphertexts
are decrypted in batches, with one short contribution per party for the whole batch.

- `src/algebra`: the mathematics that the proofs rest on (residues, sums, roots of unity, the
  Fourier transform, Lagrange bases, polynomials and their quotients)
- `src/field.rs`, `src/group.rs`, `src/poly.rs`, `src/transcript.rs`: scalars, groups, polynomials
  and Fiat-Shamir transcripts, on top of the arkworks crates and `sha2`
- `src/ste`: threshold encryption of lists of group elements
- `src/bte`: puncturable functions and the batched scheme
- `src/dlog`: discrete logarithms of bounded size
- `src/cca`: proofs that a ciphertext is well formed
- `app`: files, wire formats and an end-to-end run
- `tests`: tests of the compiled library

The functions marked `#[verifier::external_body]` call the outside crates; everything else is proved.
