//! The state of a verifier.

use serde::de::DeserializeOwned;
use vstd::arithmetic::power::pow;
use vstd::prelude::*;
use vstd::slice::slice_subrange;

use crate::digest::{is_digest_of, wrap};
use crate::domain_separator::{is_merged, DomainSeparator, MAX_UNIFORM_BYTES};
use crate::duplex_sponge::DuplexSpongeInterface;
use crate::errors::{DomainSeparatorMismatch, ProofError, ProofResult};
use crate::field::{coeffs_of, encode_all, encoded_all, BaseField, Scalar};
use crate::hint::{decode_hint, hint_value};
use crate::pow::PowStrategy;
use crate::request_laws::{law_pow, law_read_units};
use crate::sho::{law_stays_merged, starts, HashStateWithInstructions};
use crate::transcript::{
    absorb_units,
    draw_scalars_step,
    hint_step,
    is_hint_result,
    lemma_draw_all,
    lemma_draw_stops,
    lemma_read_all,
    lemma_read_stops,
    pow_step,
    read_scalars_step,
    read_units_step,
    squeeze_units_step,
    Transcript,
    HINT_PREFIX,
};
use crate::unit::{
    array_to_u8_array,
    bytes_of,
    lemma_units_round_trip,
    read_units,
    slice_from_u8_slice,
    slice_to_u8_slice,
    units_of,
    Unit,
};
use crate::utils::{be_value, bytes_uniform_modp, u32_from_le_bytes, u64_from_be_bytes};

verus! {

/// Challenges in units, drawn from a transcript.
pub trait UnitToBytes<U> {
    /// Whether challenges can be asked for.
    spec fn ready(&self) -> bool;

    /// Fills `input` with a challenge.
    fn fill_challenge_units(&mut self, input: &mut [U]) -> (result: Result<
        (),
        DomainSeparatorMismatch,
    >)
        requires
            old(self).ready(),
        ensures
            final(self).ready(),
            final(input)@.len() == old(input)@.len(),
    ;
}

/// How the result of a request for scalars reports the mismatch that stopped it.
pub open spec fn proof_result(outcome: Result<(), DomainSeparatorMismatch>) -> ProofResult<()> {
    match outcome {
        Ok(_) => Ok(()),
        Err(mismatch) => Err(ProofError::InvalidDomainSeparator(mismatch)),
    }
}

/// Whether `after` is `before` with its first scalars replaced by those in `done`.
pub open spec fn filled_with<const D: usize>(
    before: Seq<Scalar<D>>,
    after: Seq<Scalar<D>>,
    done: Seq<Seq<u64>>,
) -> bool {
    &&& after.len() == before.len()
    &&& done.len() <= before.len()
    &&& forall|i: int| 0 <= i < done.len() ==> (#[trigger] after[i])@ == done[i]
    &&& forall|i: int| done.len() <= i < after.len() ==> #[trigger] after[i] == before[i]
}

/// Whether `result` reports `outcome`, as an array.
pub open spec fn units_result<U, const N: usize>(
    result: Result<[U; N], DomainSeparatorMismatch>,
    outcome: Result<Seq<U>, DomainSeparatorMismatch>,
) -> bool {
    match outcome {
        Ok(units) => result matches Ok(array) && array@ == units,
        Err(mismatch) => result == Err::<[U; N], DomainSeparatorMismatch>(mismatch),
    }
}

/// Whether `result` holds the scalars in `done`, or reports the mismatch of `outcome`.
pub open spec fn scalars_result<const D: usize, const N: usize>(
    result: ProofResult<[Scalar<D>; N]>,
    done: Seq<Seq<u64>>,
    outcome: Result<(), DomainSeparatorMismatch>,
) -> bool {
    match outcome {
        Ok(_) => result matches Ok(array) && coeffs_of(array@) == done,
        Err(mismatch) => result == Err::<[Scalar<D>; N], ProofError>(
            ProofError::InvalidDomainSeparator(mismatch),
        ),
    }
}

/// The bytes of a scalar can be counted in a machine word.
proof fn lemma_scalar_size(degree: int, size: int)
    requires
        0 <= degree,
        0 <= size <= MAX_UNIFORM_BYTES,
        degree * MAX_UNIFORM_BYTES <= usize::MAX,
    ensures
        0 <= degree * size <= usize::MAX,
{
    assert(0 <= degree * size <= degree * MAX_UNIFORM_BYTES) by (nonlinear_arith)
        requires
            0 <= degree,
            0 <= size <= MAX_UNIFORM_BYTES,
    ;
}

/// The state of a verifier: a sponge that follows the declared protocol, and the part of the
/// prover's message, the NARG string, that is still to be read.
///
/// Scalars are of degree `D` over the base field of the protocol.
#[derive(Debug)]
pub struct VerifierState<'a, Perm, H, U, const WIDTH: usize, const D: usize> {
    hash_state: HashStateWithInstructions<H, Perm, U, WIDTH>,
    narg_string: &'a [u8],
    field: BaseField,
}

impl<
    'a,
    Perm: Clone,
    H: DuplexSpongeInterface<Perm, U, WIDTH>,
    U: Unit,
    const WIDTH: usize,
    const D: usize,
> VerifierState<'a, Perm, H, U, WIDTH, D> {
    /// The transcript as it stands.
    pub closed spec fn transcript(self) -> Transcript<Perm, U> {
        Transcript {
            ops: self.hash_state.spec_ops(),
            sponge: self.hash_state.spec_sponge(),
            narg: self.narg_string@,
        }
    }

    /// The base field of the scalars.
    pub closed spec fn spec_field(self) -> BaseField {
        self.field
    }

    /// The invariant of the sponge.
    pub closed spec fn sponge_wf(self) -> bool {
        self.hash_state.wf()
    }

    /// The sponge keeps its invariant, the instructions are merged, the field is one, and the bytes
    /// of a scalar can be counted in a machine word.
    pub open spec fn wf(self) -> bool {
        &&& self.sponge_wf()
        &&& is_merged(self.transcript().ops)
        &&& self.spec_field().wf()
        &&& D * MAX_UNIFORM_BYTES <= usize::MAX
    }

    /// The state at the start of the protocol that `domain_separator` declares.
    #[must_use]
    pub fn new<const IV_SIZE: usize>(
        domain_separator: &DomainSeparator<Perm, U, WIDTH, D>,
        narg_string: &'a [u8],
        perm: Perm,
    ) -> (state: Self)
        requires
            domain_separator.wf(),
            H::iv_fits(IV_SIZE as nat),
        ensures
            state.wf(),
            state.spec_field() == domain_separator.spec_field(),
            state.transcript().ops == domain_separator.spec_ops(),
            state.transcript().narg == narg_string@,
            starts::<H, Perm, U, WIDTH>(
                state.transcript().sponge,
                perm,
                domain_separator.declaration(),
                IV_SIZE as nat,
            ),
    {
        VerifierState {
            hash_state: HashStateWithInstructions::new::<IV_SIZE, D>(domain_separator, perm),
            narg_string,
            field: domain_separator.field(),
        }
    }

    /// Reads `input.len()` bytes of the NARG string into `input`, and absorbs them.
    pub fn fill_next_units(&mut self, input: &mut [U]) -> (result: Result<
        (),
        DomainSeparatorMismatch,
    >)
        requires
            old(self).wf(),
        ensures
            final(self).wf(),
            final(self).spec_field() == old(self).spec_field(),
            ({
                let t = old(self).transcript();
                let count = old(input)@.len();
                let (after, outcome) = read_units_step::<H, Perm, U, WIDTH>(t, count);
                &&& final(self).transcript() == after
                &&& match outcome {
                    Ok(_) => result == Ok::<(), DomainSeparatorMismatch>(()),
                    Err(mismatch) => result == Err::<(), DomainSeparatorMismatch>(mismatch),
                }
                &&& final(input)@ == if t.narg.len() < count {
                    old(input)@
                } else {
                    units_of::<U>(t.narg.take(count as int))
                }
            }),
    {
        let count: usize = input.len();
        let narg: &'a [u8] = self.narg_string;
        proof {
            law_stays_merged(self.transcript().ops, count);
        }
        if narg.len() < count {
            return Err(
                DomainSeparatorMismatch::TranscriptExhausted { got: narg.len(), need: count },
            );
        }
        read_units(narg, input);
        self.narg_string = slice_subrange(narg, count, narg.len());
        self.hash_state.absorb(input)
    }

    /// Reads `N` units of the NARG string, and absorbs them.
    pub fn next_units<const N: usize>(&mut self) -> (result: Result<
        [U; N],
        DomainSeparatorMismatch,
    >)
        requires
            old(self).wf(),
        ensures
            final(self).wf(),
            final(self).spec_field() == old(self).spec_field(),
            ({
                let (after, outcome) = read_units_step::<H, Perm, U, WIDTH>(
                    old(self).transcript(),
                    N as nat,
                );
                &&& final(self).transcript() == after
                &&& units_result(result, outcome)
            }),
            result matches Ok(units) ==> forall|i: int|
                0 <= i < N ==> #[trigger] units@[i] == U::of_byte(old(self).transcript().narg[i]),
    {
        proof {
            law_read_units::<H, Perm, U, WIDTH>(self.transcript(), N as nat);
        }
        let mut input: [U; N] = [U::from_u8(0); N];
        match self.fill_next_units(&mut input) {
            Ok(()) => Ok(input),
            Err(mismatch) => Err(mismatch),
        }
    }

    /// Reads scalars of the NARG string into `output`, and absorbs them. Each scalar takes
    /// `num_bytes` bytes for each of its coefficients.
    pub fn fill_next_scalars(&mut self, output: &mut [Scalar<D>]) -> (result: ProofResult<()>)
        requires
            old(self).wf(),
        ensures
            final(self).wf(),
            final(self).spec_field() == old(self).spec_field(),
            ({
                let (after, done, outcome) = read_scalars_step::<H, Perm, U, WIDTH>(
                    old(self).transcript(),
                    old(self).spec_field(),
                    D as nat,
                    old(output)@.len(),
                );
                &&& final(self).transcript() == after
                &&& result == proof_result(outcome)
                &&& filled_with(old(output)@, final(output)@, done)
            }),
    {
        let ghost start = self.transcript();
        let ghost field = self.spec_field();
        let ghost before = output@;
        let base_bytes: usize = self.field.num_bytes();
        proof {
            lemma_scalar_size(D as int, base_bytes as int);
        }
        let scalar_size: usize = D * base_bytes;
        let mut u_buf: Vec<U> = vec![U::from_u8(0); scalar_size];
        let count: usize = output.len();
        let mut i: usize = 0;
        while i < count
            invariant
                i <= count,
                start == old(self).transcript(),
                field == old(self).spec_field(),
                before == old(output)@,
                self.wf(),
                self.spec_field() == field,
                scalar_size == D * field.spec_num_bytes(),
                u_buf@.len() == scalar_size,
                output@.len() == before.len() == count,
                ({
                    let (after, done, outcome) = read_scalars_step::<H, Perm, U, WIDTH>(
                        start,
                        field,
                        D as nat,
                        i as nat,
                    );
                    &&& self.transcript() == after
                    &&& outcome is Ok
                    &&& done.len() == i
                    &&& filled_with(before, output@, done)
                }),
            decreases count - i,
        {
            let ghost step = self.transcript();
            match self.fill_next_units(u_buf.as_mut_slice()) {
                Ok(()) => {},
                Err(mismatch) => {
                    proof {
                        lemma_read_stops::<H, Perm, U, WIDTH>(
                            start,
                            field,
                            D as nat,
                            (i + 1) as nat,
                            count as nat,
                        );
                    }
                    return Err(ProofError::InvalidDomainSeparator(mismatch));
                },
            }
            let byte_buf: Vec<u8> = slice_to_u8_slice(u_buf.as_slice());
            proof {
                lemma_units_round_trip::<U>(step.narg.take(scalar_size as int));
            }
            output[i] = Scalar::decode(&self.field, byte_buf.as_slice());
            i += 1;
        }
        Ok(())
    }

    /// Reads `N` scalars of the NARG string, and absorbs them.
    pub fn next_scalars<const N: usize>(&mut self) -> (result: ProofResult<[Scalar<D>; N]>)
        requires
            old(self).wf(),
        ensures
            final(self).wf(),
            final(self).spec_field() == old(self).spec_field(),
            ({
                let (after, done, outcome) = read_scalars_step::<H, Perm, U, WIDTH>(
                    old(self).transcript(),
                    old(self).spec_field(),
                    D as nat,
                    N as nat,
                );
                &&& final(self).transcript() == after
                &&& scalars_result(result, done, outcome)
            }),
    {
        let mut output: [Scalar<D>; N] = [Scalar::zero(); N];
        proof {
            lemma_read_all::<H, Perm, U, WIDTH>(
                self.transcript(),
                self.spec_field(),
                D as nat,
                N as nat,
            );
        }
        let ghost done = read_scalars_step::<H, Perm, U, WIDTH>(
            self.transcript(),
            self.spec_field(),
            D as nat,
            N as nat,
        ).1;
        match self.fill_next_scalars(&mut output) {
            Ok(()) => {
                assert(coeffs_of(output@) =~= done);
                Ok(output)
            },
            Err(error) => Err(error),
        }
    }

    /// Reads a digest of `DIGEST_ELEMS` units of the NARG string, and absorbs it.
    pub fn read_digest<F, const DIGEST_ELEMS: usize>(&mut self) -> (result: ProofResult<
        p3_symmetric::Hash<F, U, DIGEST_ELEMS>,
    >)
        requires
            old(self).wf(),
        ensures
            final(self).wf(),
            final(self).spec_field() == old(self).spec_field(),
            ({
                let (after, outcome) = read_units_step::<H, Perm, U, WIDTH>(
                    old(self).transcript(),
                    DIGEST_ELEMS as nat,
                );
                &&& final(self).transcript() == after
                &&& match outcome {
                    Ok(units) => result matches Ok(digest) && is_digest_of(digest, units),
                    Err(mismatch) => result == Err::<
                        p3_symmetric::Hash<F, U, DIGEST_ELEMS>,
                        ProofError,
                    >(
                        ProofError::InvalidDomainSeparator(mismatch),
                    ),
                }
            }),
            result matches Ok(digest) ==> is_digest_of(
                digest,
                Seq::new(
                    DIGEST_ELEMS as nat,
                    |i: int| U::of_byte(old(self).transcript().narg[i]),
                ),
            ),
    {
        let ghost narg = self.transcript().narg;
        proof {
            law_read_units::<H, Perm, U, WIDTH>(self.transcript(), DIGEST_ELEMS as nat);
        }
        let mut digest: [U; DIGEST_ELEMS] = [U::from_u8(0); DIGEST_ELEMS];
        match self.fill_next_units(&mut digest) {
            Ok(()) => {
                assert(digest@ =~= Seq::new(
                    DIGEST_ELEMS as nat,
                    |i: int| U::of_byte(narg[i]),
                ));
                Ok(wrap(digest))
            },
            Err(mismatch) => Err(ProofError::InvalidDomainSeparator(mismatch)),
        }
    }

    /// Draws a challenge of `N` units.
    pub fn challenge_units<const N: usize>(&mut self) -> (result: Result<
        [U; N],
        DomainSeparatorMismatch,
    >)
        requires
            old(self).wf(),
        ensures
            final(self).wf(),
            final(self).spec_field() == old(self).spec_field(),
            ({
                let (after, outcome) = squeeze_units_step::<H, Perm, U, WIDTH>(
                    old(self).transcript(),
                    N as nat,
                );
                &&& final(self).transcript() == after
                &&& units_result(result, outcome)
            }),
            result matches Ok(units) ==> units@ == H::squeezed(
                old(self).transcript().sponge,
                N as nat,
            ).1,
    {
        let mut output: [U; N] = [U::from_u8(0); N];
        match self.fill_challenge_units(&mut output) {
            Ok(()) => Ok(output),
            Err(mismatch) => Err(mismatch),
        }
    }

    /// Fills `output` with scalars that are drawn as challenges. Each coefficient is reduced from
    /// enough bytes to be almost uniform.
    pub fn fill_challenge_scalars(&mut self, output: &mut [Scalar<D>]) -> (result: ProofResult<()>)
        requires
            old(self).wf(),
        ensures
            final(self).wf(),
            final(self).spec_field() == old(self).spec_field(),
            ({
                let (after, done, outcome) = draw_scalars_step::<H, Perm, U, WIDTH>(
                    old(self).transcript(),
                    old(self).spec_field(),
                    D as nat,
                    old(output)@.len(),
                );
                &&& final(self).transcript() == after
                &&& result == proof_result(outcome)
                &&& filled_with(old(output)@, final(output)@, done)
            }),
    {
        let ghost start = self.transcript();
        let ghost field = self.spec_field();
        let ghost before = output@;
        let base_field_size: usize = bytes_uniform_modp(self.field.bits());
        proof {
            lemma_scalar_size(D as int, base_field_size as int);
        }
        let field_unit_len: usize = D * base_field_size;
        let mut u_buf: Vec<U> = vec![U::from_u8(0); field_unit_len];
        let count: usize = output.len();
        let mut i: usize = 0;
        while i < count
            invariant
                i <= count,
                start == old(self).transcript(),
                field == old(self).spec_field(),
                before == old(output)@,
                self.wf(),
                self.spec_field() == field,
                field_unit_len == D * field.spec_uniform_bytes(),
                u_buf@.len() == field_unit_len,
                output@.len() == before.len() == count,
                ({
                    let (after, done, outcome) = draw_scalars_step::<H, Perm, U, WIDTH>(
                        start,
                        field,
                        D as nat,
                        i as nat,
                    );
                    &&& self.transcript() == after
                    &&& outcome is Ok
                    &&& done.len() == i
                    &&& filled_with(before, output@, done)
                }),
            decreases count - i,
        {
            match self.fill_challenge_units(u_buf.as_mut_slice()) {
                Ok(()) => {},
                Err(mismatch) => {
                    proof {
                        lemma_draw_stops::<H, Perm, U, WIDTH>(
                            start,
                            field,
                            D as nat,
                            (i + 1) as nat,
                            count as nat,
                        );
                    }
                    return Err(ProofError::InvalidDomainSeparator(mismatch));
                },
            }
            let byte_buf: Vec<u8> = slice_to_u8_slice(u_buf.as_slice());
            output[i] = Scalar::sample(&self.field, byte_buf.as_slice());
            i += 1;
        }
        Ok(())
    }

    /// Draws `N` scalars as challenges.
    pub fn challenge_scalars<const N: usize>(&mut self) -> (result: ProofResult<[Scalar<D>; N]>)
        requires
            old(self).wf(),
        ensures
            final(self).wf(),
            final(self).spec_field() == old(self).spec_field(),
            ({
                let (after, done, outcome) = draw_scalars_step::<H, Perm, U, WIDTH>(
                    old(self).transcript(),
                    old(self).spec_field(),
                    D as nat,
                    N as nat,
                );
                &&& final(self).transcript() == after
                &&& scalars_result(result, done, outcome)
            }),
    {
        let mut output: [Scalar<D>; N] = [Scalar::zero(); N];
        proof {
            lemma_draw_all::<H, Perm, U, WIDTH>(
                self.transcript(),
                self.spec_field(),
                D as nat,
                N as nat,
            );
        }
        let ghost done = draw_scalars_step::<H, Perm, U, WIDTH>(
            self.transcript(),
            self.spec_field(),
            D as nat,
            N as nat,
        ).1;
        match self.fill_challenge_scalars(&mut output) {
            Ok(()) => {
                assert(coeffs_of(output@) =~= done);
                Ok(output)
            },
            Err(error) => Err(error),
        }
    }

    /// Absorbs scalars that both sides know, and returns the bytes that were absorbed.
    pub fn public_scalars(&mut self, input: &[Scalar<D>]) -> (result: ProofResult<Vec<u8>>)
        requires
            old(self).wf(),
        ensures
            final(self).wf(),
            final(self).spec_field() == old(self).spec_field(),
            ({
                let bytes = encoded_all(old(self).spec_field(), coeffs_of(input@));
                let (after, outcome) = absorb_units::<H, Perm, U, WIDTH>(
                    old(self).transcript(),
                    units_of::<U>(bytes),
                );
                &&& final(self).transcript() == after
                &&& match outcome {
                    Ok(_) => result matches Ok(absorbed) && absorbed@ == bytes,
                    Err(mismatch) => result == Err::<Vec<u8>, ProofError>(
                        ProofError::InvalidDomainSeparator(mismatch),
                    ),
                }
            }),
    {
        let bytes: Vec<u8> = encode_all(&self.field, input);
        let units: Vec<U> = slice_from_u8_slice(bytes.as_slice());
        proof {
            law_stays_merged(self.transcript().ops, units@.len() as usize);
        }
        match self.hash_state.absorb(units.as_slice()) {
            Ok(()) => Ok(bytes),
            Err(mismatch) => Err(ProofError::InvalidDomainSeparator(mismatch)),
        }
    }

    /// Reads the bytes of a hint: a length of four bytes, and so many bytes after it.
    pub fn hint_bytes(&mut self) -> (result: Result<&'a [u8], DomainSeparatorMismatch>)
        requires
            old(self).wf(),
        ensures
            final(self).wf(),
            final(self).spec_field() == old(self).spec_field(),
            ({
                let (after, outcome) = hint_step(old(self).transcript());
                &&& final(self).transcript() == after
                &&& match outcome {
                    Ok(bytes) => result matches Ok(hint) && hint@ == bytes,
                    Err(mismatch) => result == Err::<&'a [u8], DomainSeparatorMismatch>(mismatch),
                }
            }),
    {
        proof {
            law_stays_merged(self.transcript().ops, 0);
        }
        match self.hash_state.hint() {
            Ok(()) => {},
            Err(mismatch) => {
                return Err(mismatch);
            },
        }
        let narg: &'a [u8] = self.narg_string;
        if narg.len() < HINT_PREFIX {
            return Err(DomainSeparatorMismatch::HintLengthMissing);
        }
        let len: usize = u32_from_le_bytes(slice_subrange(narg, 0, HINT_PREFIX)) as usize;
        let rest: &'a [u8] = slice_subrange(narg, HINT_PREFIX, narg.len());
        assert(narg@.subrange(0, HINT_PREFIX as int) =~= narg@.take(HINT_PREFIX as int));
        assert(rest@ =~= narg@.skip(HINT_PREFIX as int));
        if rest.len() < len {
            return Err(DomainSeparatorMismatch::HintTruncated { got: rest.len(), need: len });
        }
        let (hint, remaining) = rest.split_at(len);
        self.narg_string = remaining;
        assert(hint@ =~= rest@.take(len as int));
        assert(remaining@ =~= rest@.skip(len as int));
        Ok(hint)
    }

    /// Reads a hint and decodes it, from the standard format of `bincode`.
    pub fn hint<T: DeserializeOwned>(&mut self) -> (result: ProofResult<T>)
        requires
            old(self).wf(),
        ensures
            final(self).wf(),
            final(self).spec_field() == old(self).spec_field(),
            ({
                let (after, outcome) = hint_step(old(self).transcript());
                &&& final(self).transcript() == after
                &&& is_hint_result(outcome, result)
            }),
    {
        match self.hint_bytes() {
            Ok(bytes) => hint_value(decode_hint::<T>(bytes)),
            Err(mismatch) => Err(ProofError::InvalidDomainSeparator(mismatch)),
        }
    }

    /// Draws a challenge of 32 units, reads a nonce of 8 units, most significant byte first, and
    /// checks that the nonce proves the work that is asked for.
    pub fn challenge_pow<S: PowStrategy>(&mut self, bits: S::Difficulty) -> (result: ProofResult<()>)
        requires
            old(self).wf(),
        ensures
            final(self).wf(),
            final(self).spec_field() == old(self).spec_field(),
            ({
                let (after, outcome) = pow_step::<H, Perm, U, WIDTH>(old(self).transcript());
                &&& final(self).transcript() == after
                &&& match outcome {
                    Ok((challenge, nonce)) => result == if S::accepts(
                        bytes_of(challenge),
                        bits,
                        be_value(bytes_of(nonce)) as u64,
                    ) {
                        Ok::<(), ProofError>(())
                    } else {
                        Err(ProofError::InvalidProof)
                    },
                    Err(mismatch) => result == Err::<(), ProofError>(
                        ProofError::InvalidDomainSeparator(mismatch),
                    ),
                }
            }),
            ({
                let t = old(self).transcript();
                let squeezed = H::squeezed(t.sponge, 32).1;
                let challenge = Seq::new(32, |i: int| squeezed[i].as_byte());
                let nonce = Seq::new(
                    8,
                    |k: int| t.narg[k] as int * pow(256, (7 - k) as nat),
                ).fold_left(0int, |total: int, term: int| total + term);
                &&& result is Ok ==> S::accepts(challenge, bits, nonce as u64)
                &&& result == Err::<(), ProofError>(ProofError::InvalidProof) ==> !S::accepts(
                    challenge,
                    bits,
                    nonce as u64,
                )
            }),
    {
        let ghost t = self.transcript();
        proof {
            law_pow::<H, Perm, U, WIDTH>(t);
        }
        let challenge: [U; 32] = match self.challenge_units::<32>() {
            Ok(units) => units,
            Err(mismatch) => {
                return Err(ProofError::InvalidDomainSeparator(mismatch));
            },
        };
        let nonce_units: [U; 8] = match self.next_units::<8>() {
            Ok(units) => units,
            Err(mismatch) => {
                return Err(ProofError::InvalidDomainSeparator(mismatch));
            },
        };
        let nonce: u64 = u64_from_be_bytes(&array_to_u8_array(&nonce_units));
        assert(bytes_of(challenge@) =~= Seq::new(
            32,
            |i: int| H::squeezed(t.sponge, 32).1[i].as_byte(),
        ));
        let mut strategy = S::new(array_to_u8_array(&challenge), bits);
        if strategy.check(nonce) {
            Ok(())
        } else {
            Err(ProofError::InvalidProof)
        }
    }

    /// The part of the NARG string that is still to be read.
    pub fn narg_string(&self) -> (narg: &'a [u8])
        ensures
            narg@ == self.transcript().narg,
    {
        self.narg_string
    }

    /// The sponge.
    pub fn sponge(&self) -> (sponge: &H)
        ensures
            sponge.state() == self.transcript().sponge,
    {
        self.hash_state.sponge()
    }
}

impl<
    'a,
    Perm: Clone,
    H: DuplexSpongeInterface<Perm, U, WIDTH>,
    U: Unit,
    const WIDTH: usize,
    const D: usize,
> UnitToBytes<U> for VerifierState<'a, Perm, H, U, WIDTH, D> {
    open spec fn ready(&self) -> bool {
        self.wf()
    }

    fn fill_challenge_units(&mut self, input: &mut [U]) -> (result: Result<
        (),
        DomainSeparatorMismatch,
    >)
        ensures
            final(self).wf(),
            final(self).spec_field() == old(self).spec_field(),
            ({
                let (after, outcome) = squeeze_units_step::<H, Perm, U, WIDTH>(
                    old(self).transcript(),
                    old(input)@.len(),
                );
                &&& final(self).transcript() == after
                &&& final(input)@.len() == old(input)@.len()
                &&& match outcome {
                    Ok(units) => {
                        &&& result == Ok::<(), DomainSeparatorMismatch>(())
                        &&& final(input)@ == units
                    },
                    Err(mismatch) => {
                        &&& result == Err::<(), DomainSeparatorMismatch>(mismatch)
                        &&& final(input)@ == old(input)@
                    },
                }
            }),
    {
        proof {
            law_stays_merged(self.transcript().ops, input@.len() as usize);
        }
        self.hash_state.squeeze(input)
    }
}

impl<Perm: Clone, U: Unit, const WIDTH: usize, const D: usize> DomainSeparator<Perm, U, WIDTH, D> {
    /// The state of a verifier at the start of this protocol.
    pub fn to_verifier_state<'a, H: DuplexSpongeInterface<Perm, U, WIDTH>, const IV_SIZE: usize>(
        &self,
        narg_string: &'a [u8],
    ) -> (state: VerifierState<'a, Perm, H, U, WIDTH, D>)
        requires
            self.wf(),
            H::iv_fits(IV_SIZE as nat),
        ensures
            state.wf(),
            state.spec_field() == self.spec_field(),
            state.transcript().ops == self.spec_ops(),
            state.transcript().narg == narg_string@,
            exists|perm: Perm| #[trigger]
                cloned(self.spec_perm(), perm) && starts::<H, Perm, U, WIDTH>(
                    state.transcript().sponge,
                    perm,
                    self.declaration(),
                    IV_SIZE as nat,
                ),
    {
        let perm = self.permutation().clone();
        assert(cloned(self.spec_perm(), perm));
        VerifierState::new::<IV_SIZE>(self, narg_string, perm)
    }
}

} // verus!
