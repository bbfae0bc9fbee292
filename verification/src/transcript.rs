//! What each request of a verifier does to its transcript.

use bincode::error::DecodeError;
use serde::de::DeserializeOwned;
use vstd::prelude::*;

use crate::domain_separator::Op;
use crate::duplex_sponge::{DuplexSpongeInterface, SpongeState};
use crate::errors::{DomainSeparatorMismatch, ProofError, ProofResult};
use crate::field::{decoded, sampled, BaseField};
use crate::hint::{decodes_to, spec_hint_value};
use crate::sho::{after_absorb, after_pop, after_squeeze, check_hint};
use crate::unit::{bytes_of, units_of, Unit};
use crate::utils::le_value;

verus! {

/// The bytes of the length in front of a hint.
pub const HINT_PREFIX: usize = 4;

/// The instructions that are left, the state of the sponge, and the part of the NARG string that is
/// still to be read.
pub struct Transcript<Perm, U> {
    pub ops: Seq<Op>,
    pub sponge: SpongeState<Perm, U>,
    pub narg: Seq<u8>,
}

/// Absorbing `units`. If the protocol does not expect it, no instruction is left.
pub open spec fn absorb_units<
    H: DuplexSpongeInterface<Perm, U, WIDTH>,
    Perm: Clone,
    U: Unit,
    const WIDTH: usize,
>(t: Transcript<Perm, U>, units: Seq<U>) -> (
    Transcript<Perm, U>,
    Result<(), DomainSeparatorMismatch>,
) {
    match after_absorb(t.ops, units.len() as usize) {
        Ok(ops) => (Transcript { ops, sponge: H::absorbed(t.sponge, units), ..t }, Ok(())),
        Err(mismatch) => (Transcript { ops: Seq::empty(), ..t }, Err(mismatch)),
    }
}

/// Reading `count` bytes of the NARG string, and absorbing the units that they stand for.
pub open spec fn read_units_step<
    H: DuplexSpongeInterface<Perm, U, WIDTH>,
    Perm: Clone,
    U: Unit,
    const WIDTH: usize,
>(t: Transcript<Perm, U>, count: nat) -> (
    Transcript<Perm, U>,
    Result<Seq<U>, DomainSeparatorMismatch>,
) {
    if t.narg.len() < count {
        (
            t,
            Err(
                DomainSeparatorMismatch::TranscriptExhausted {
                    got: t.narg.len() as usize,
                    need: count as usize,
                },
            ),
        )
    } else {
        let units = units_of::<U>(t.narg.take(count as int));
        let rest = Transcript { narg: t.narg.skip(count as int), ..t };
        let (after, result) = absorb_units::<H, Perm, U, WIDTH>(rest, units);
        match result {
            Ok(_) => (after, Ok(units)),
            Err(mismatch) => (after, Err(mismatch)),
        }
    }
}

/// Squeezing `count` units. If the protocol does not expect it, no instruction is left.
pub open spec fn squeeze_units_step<
    H: DuplexSpongeInterface<Perm, U, WIDTH>,
    Perm: Clone,
    U: Unit,
    const WIDTH: usize,
>(t: Transcript<Perm, U>, count: nat) -> (
    Transcript<Perm, U>,
    Result<Seq<U>, DomainSeparatorMismatch>,
) {
    match after_squeeze(t.ops, count as usize) {
        Ok(ops) => {
            let (sponge, units) = H::squeezed(t.sponge, count);
            (Transcript { ops, sponge, ..t }, Ok(units))
        },
        Err(mismatch) => (Transcript { ops: Seq::empty(), ..t }, Err(mismatch)),
    }
}

/// Reading one scalar of the given degree.
pub open spec fn read_scalar_step<
    H: DuplexSpongeInterface<Perm, U, WIDTH>,
    Perm: Clone,
    U: Unit,
    const WIDTH: usize,
>(t: Transcript<Perm, U>, field: BaseField, degree: nat) -> (
    Transcript<Perm, U>,
    Result<Seq<u64>, DomainSeparatorMismatch>,
) {
    let count = degree * field.spec_num_bytes() as nat;
    let (after, result) = read_units_step::<H, Perm, U, WIDTH>(t, count);
    match result {
        Ok(_) => (after, Ok(decoded(field, degree, t.narg.take(count as int)))),
        Err(mismatch) => (after, Err(mismatch)),
    }
}

/// Drawing one scalar of the given degree as a challenge.
pub open spec fn draw_scalar_step<
    H: DuplexSpongeInterface<Perm, U, WIDTH>,
    Perm: Clone,
    U: Unit,
    const WIDTH: usize,
>(t: Transcript<Perm, U>, field: BaseField, degree: nat) -> (
    Transcript<Perm, U>,
    Result<Seq<u64>, DomainSeparatorMismatch>,
) {
    let (after, result) = squeeze_units_step::<H, Perm, U, WIDTH>(
        t,
        degree * field.spec_uniform_bytes(),
    );
    match result {
        Ok(units) => (after, Ok(sampled(field, degree, bytes_of(units)))),
        Err(mismatch) => (after, Err(mismatch)),
    }
}

/// Reading `count` scalars, one after the other, up to the first that fails: the transcript then,
/// the scalars that were read, and whether all of them were.
pub open spec fn read_scalars_step<
    H: DuplexSpongeInterface<Perm, U, WIDTH>,
    Perm: Clone,
    U: Unit,
    const WIDTH: usize,
>(t: Transcript<Perm, U>, field: BaseField, degree: nat, count: nat) -> (
    Transcript<Perm, U>,
    Seq<Seq<u64>>,
    Result<(), DomainSeparatorMismatch>,
)
    decreases count,
{
    if count == 0 {
        (t, Seq::empty(), Ok(()))
    } else {
        let (before, done, result) = read_scalars_step::<H, Perm, U, WIDTH>(
            t,
            field,
            degree,
            (count - 1) as nat,
        );
        if result is Err {
            (before, done, result)
        } else {
            match read_scalar_step::<H, Perm, U, WIDTH>(before, field, degree) {
                (after, Ok(coeffs)) => (after, done.push(coeffs), Ok(())),
                (after, Err(mismatch)) => (after, done, Err(mismatch)),
            }
        }
    }
}

/// Drawing `count` scalars, one after the other, up to the first that fails: the transcript then,
/// the scalars that were drawn, and whether all of them were.
pub open spec fn draw_scalars_step<
    H: DuplexSpongeInterface<Perm, U, WIDTH>,
    Perm: Clone,
    U: Unit,
    const WIDTH: usize,
>(t: Transcript<Perm, U>, field: BaseField, degree: nat, count: nat) -> (
    Transcript<Perm, U>,
    Seq<Seq<u64>>,
    Result<(), DomainSeparatorMismatch>,
)
    decreases count,
{
    if count == 0 {
        (t, Seq::empty(), Ok(()))
    } else {
        let (before, done, result) = draw_scalars_step::<H, Perm, U, WIDTH>(
            t,
            field,
            degree,
            (count - 1) as nat,
        );
        if result is Err {
            (before, done, result)
        } else {
            match draw_scalar_step::<H, Perm, U, WIDTH>(before, field, degree) {
                (after, Ok(coeffs)) => (after, done.push(coeffs), Ok(())),
                (after, Err(mismatch)) => (after, done, Err(mismatch)),
            }
        }
    }
}

/// Where nothing fails, as many scalars are read as were asked for, and never more.
pub proof fn lemma_read_all<
    H: DuplexSpongeInterface<Perm, U, WIDTH>,
    Perm: Clone,
    U: Unit,
    const WIDTH: usize,
>(t: Transcript<Perm, U>, field: BaseField, degree: nat, count: nat)
    ensures
        ({
            let (_, done, result) = read_scalars_step::<H, Perm, U, WIDTH>(t, field, degree, count);
            &&& done.len() <= count
            &&& result is Ok <==> done.len() == count
        }),
    decreases count,
{
    if count > 0 {
        lemma_read_all::<H, Perm, U, WIDTH>(t, field, degree, (count - 1) as nat);
    }
}

/// Where nothing fails, as many scalars are drawn as were asked for, and never more.
pub proof fn lemma_draw_all<
    H: DuplexSpongeInterface<Perm, U, WIDTH>,
    Perm: Clone,
    U: Unit,
    const WIDTH: usize,
>(t: Transcript<Perm, U>, field: BaseField, degree: nat, count: nat)
    ensures
        ({
            let (_, done, result) = draw_scalars_step::<H, Perm, U, WIDTH>(t, field, degree, count);
            &&& done.len() <= count
            &&& result is Ok <==> done.len() == count
        }),
    decreases count,
{
    if count > 0 {
        lemma_draw_all::<H, Perm, U, WIDTH>(t, field, degree, (count - 1) as nat);
    }
}

/// A read that fails leaves what comes after it undone.
pub proof fn lemma_read_stops<
    H: DuplexSpongeInterface<Perm, U, WIDTH>,
    Perm: Clone,
    U: Unit,
    const WIDTH: usize,
>(t: Transcript<Perm, U>, field: BaseField, degree: nat, count: nat, more: nat)
    requires
        read_scalars_step::<H, Perm, U, WIDTH>(t, field, degree, count).2 is Err,
        count <= more,
    ensures
        read_scalars_step::<H, Perm, U, WIDTH>(t, field, degree, more) == read_scalars_step::<
            H,
            Perm,
            U,
            WIDTH,
        >(t, field, degree, count),
    decreases more - count,
{
    if count < more {
        lemma_read_stops::<H, Perm, U, WIDTH>(t, field, degree, count, (more - 1) as nat);
    }
}

/// A draw that fails leaves what comes after it undone.
pub proof fn lemma_draw_stops<
    H: DuplexSpongeInterface<Perm, U, WIDTH>,
    Perm: Clone,
    U: Unit,
    const WIDTH: usize,
>(t: Transcript<Perm, U>, field: BaseField, degree: nat, count: nat, more: nat)
    requires
        draw_scalars_step::<H, Perm, U, WIDTH>(t, field, degree, count).2 is Err,
        count <= more,
    ensures
        draw_scalars_step::<H, Perm, U, WIDTH>(t, field, degree, more) == draw_scalars_step::<
            H,
            Perm,
            U,
            WIDTH,
        >(t, field, degree, count),
    decreases more - count,
{
    if count < more {
        lemma_draw_stops::<H, Perm, U, WIDTH>(t, field, degree, count, (more - 1) as nat);
    }
}

/// Reading a hint: its length, a little-endian number of four bytes, and so many bytes after it.
/// The sponge does not see it. The instruction is gone whatever follows, and the NARG string is only
/// advanced past a whole hint.
pub open spec fn hint_step<Perm, U>(t: Transcript<Perm, U>) -> (
    Transcript<Perm, U>,
    Result<Seq<u8>, DomainSeparatorMismatch>,
) {
    let popped = Transcript { ops: after_pop(t.ops), ..t };
    if check_hint(t.ops) is Err {
        (popped, Err(check_hint(t.ops)->Err_0))
    } else if t.narg.len() < HINT_PREFIX {
        (popped, Err(DomainSeparatorMismatch::HintLengthMissing))
    } else {
        let need = le_value(t.narg.take(HINT_PREFIX as int));
        let rest = t.narg.skip(HINT_PREFIX as int);
        if rest.len() < need {
            (
                popped,
                Err(
                    DomainSeparatorMismatch::HintTruncated {
                        got: rest.len() as usize,
                        need: need as usize,
                    },
                ),
            )
        } else {
            (Transcript { narg: rest.skip(need as int), ..popped }, Ok(rest.take(need as int)))
        }
    }
}

/// Drawing the challenge of a proof of work, 32 units, and reading its nonce, 8 units: the transcript
/// then, and the challenge and the nonce.
pub open spec fn pow_step<
    H: DuplexSpongeInterface<Perm, U, WIDTH>,
    Perm: Clone,
    U: Unit,
    const WIDTH: usize,
>(t: Transcript<Perm, U>) -> (
    Transcript<Perm, U>,
    Result<(Seq<U>, Seq<U>), DomainSeparatorMismatch>,
) {
    let (drawn, challenge) = squeeze_units_step::<H, Perm, U, WIDTH>(t, 32);
    match challenge {
        Ok(challenge) => {
            let (read, nonce) = read_units_step::<H, Perm, U, WIDTH>(drawn, 8);
            match nonce {
                Ok(nonce) => (read, Ok((challenge, nonce))),
                Err(mismatch) => (read, Err(mismatch)),
            }
        },
        Err(mismatch) => (drawn, Err(mismatch)),
    }
}

/// Whether `result` is what a hint comes to whose bytes, or whose mismatch, is `outcome`.
pub open spec fn is_hint_result<T: DeserializeOwned>(
    outcome: Result<Seq<u8>, DomainSeparatorMismatch>,
    result: ProofResult<T>,
) -> bool {
    match outcome {
        Ok(bytes) => exists|decoded: Result<T, DecodeError>| #[trigger]
            decodes_to(bytes, decoded) && result == spec_hint_value(decoded),
        Err(mismatch) => result == Err::<T, ProofError>(
            ProofError::InvalidDomainSeparator(mismatch),
        ),
    }
}

} // verus!
