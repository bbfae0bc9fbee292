# fiat_shamir

The verifier's side of a Fiat-Shamir transcript, written and proved in Verus.

A protocol is declared first: what it absorbs, squeezes and hints, in which order. The verifier then
reads the prover's message, the NARG string, and draws its challenges from a sponge that has absorbed
the declaration and all that was read. Whatever the declaration does not allow is refused.

- `src/verifier_state.rs`: the verifier. Each request is specified as a step on a `Transcript`, the
  model in `src/transcript.rs`.
- `src/domain_separator.rs`, `src/sho.rs`: the declaration, and a sponge that follows it.
- `src/duplex_sponge.rs`, `src/keccak.rs`: the interface of a sponge, and the sponge over Keccak-f.
- `src/field.rs`, `src/unit.rs`, `src/utils.rs`: scalars, units and numbers as bytes.
- `src/hint.rs`, `src/digest.rs`, `src/pow.rs`, `src/errors.rs`: hints, digests, proofs of work and
  errors.
- `src/laws.rs`, `src/protocol_laws.rs`: laws that hold across requests, such as that written scalars
  and hints are read back, and that a refusal is final.
- `src/run.rs`: runs of requests. The challenges of a run depend on what was absorbed alone.

Scalars are plain coefficients, so that nothing in `src` depends on a field implementation. `app`
offers the same requests over the field types of Plonky3.

Three calls go to outside crates. Believed without proof is that the Keccak-f permutation of
`p3-keccak` and the digest type of `p3-symmetric` are functions of their input, and that a digest
holds the array it was made of. Of the decoder of `bincode` nothing is claimed.
