//! Laws on what a protocol lets a verifier do, and on what is left of the NARG string.

use serde::de::DeserializeOwned;
use vstd::prelude::*;

use crate::domain_separator::{DomainSeparator, Op};
use crate::duplex_sponge::DuplexSpongeInterface;
use crate::errors::{DomainSeparatorMismatch, ProofError, ProofResult};
use crate::field::BaseField;
use crate::hint::{spells, spells_nothing};
use crate::laws::{challenge_len, law_draw_scalars, law_read_scalars, scalar_len};
use crate::transcript::{
    absorb_units,
    draw_scalars_step,
    hint_step,
    is_hint_result,
    read_scalars_step,
    read_units_step,
    squeeze_units_step,
    Transcript,
    HINT_PREFIX,
};
use crate::unit::Unit;
use crate::utils::{
    le_bytes,
    lemma_le_bytes_len,
    lemma_le_round_trip,
    lemma_le_spells,
    lemma_le_value_bound,
    lemma_pow_256,
    spec_bytes_modp,
};

verus! {

/// What the protocol does not expect is refused and leaves no instruction, and neither the sponge
/// nor the NARG string sees it.
pub proof fn law_unexpected_is_refused<
    H: DuplexSpongeInterface<Perm, U, WIDTH>,
    Perm: Clone,
    U: Unit,
    const WIDTH: usize,
>(t: Transcript<Perm, U>, input: Seq<U>, count: nat)
    ensures
        ({
            let (after, result) = absorb_units::<H, Perm, U, WIDTH>(t, input);
            result is Err ==> after == Transcript { ops: Seq::<Op>::empty(), ..t }
        }),
        ({
            let (after, result) = squeeze_units_step::<H, Perm, U, WIDTH>(t, count);
            result is Err ==> after == Transcript { ops: Seq::<Op>::empty(), ..t }
        }),
{
}

/// Once no instruction is left, nothing is granted any more: every request for units, scalars or a
/// hint is refused, the sponge stays as it is, and no instruction comes back.
pub proof fn law_refusal_is_final<
    H: DuplexSpongeInterface<Perm, U, WIDTH>,
    Perm: Clone,
    U: Unit,
    const WIDTH: usize,
>(t: Transcript<Perm, U>, input: Seq<U>, field: BaseField, degree: nat, count: nat)
    requires
        t.ops.len() == 0,
    ensures
        ({
            let (after, result) = absorb_units::<H, Perm, U, WIDTH>(t, input);
            result is Err && after == t
        }),
        ({
            let (after, result) = read_units_step::<H, Perm, U, WIDTH>(t, count);
            result is Err && after.ops == t.ops && after.sponge == t.sponge
        }),
        ({
            let (after, result) = squeeze_units_step::<H, Perm, U, WIDTH>(t, count);
            result is Err && after == t
        }),
        ({
            let (after, done, result) = read_scalars_step::<H, Perm, U, WIDTH>(
                t,
                field,
                degree,
                count,
            );
            &&& count > 0 ==> result is Err
            &&& done.len() == 0
            &&& after.ops == t.ops
            &&& after.sponge == t.sponge
        }),
        ({
            let (after, done, result) = draw_scalars_step::<H, Perm, U, WIDTH>(
                t,
                field,
                degree,
                count,
            );
            &&& count > 0 ==> result is Err
            &&& done.len() == 0
            &&& after == t
        }),
        ({
            let (after, result) = hint_step(t);
            result is Err && after == t
        }),
    decreases count,
{
    assert(t.ops =~= Seq::<Op>::empty());
    if count > 0 {
        law_refusal_is_final::<H, Perm, U, WIDTH>(t, input, field, degree, (count - 1) as nat);
    }
}

/// Hints bypass the sponge, whatever they hold.
pub proof fn law_hint_bypasses_sponge<Perm, U>(t: Transcript<Perm, U>)
    ensures
        hint_step(t).0.sponge == t.sponge,
{
}

/// A hint as it stands in the NARG string: its length in four bytes, and the data.
pub open spec fn framed(data: Seq<u8>) -> Seq<u8> {
    le_bytes(data.len(), HINT_PREFIX as nat) + data
}

/// Where a hint is expected, a framed one is read back, and what follows it is left to be read.
pub proof fn law_reads_back_hint<Perm, U>(t: Transcript<Perm, U>, data: Seq<u8>, rest: Seq<u8>)
    requires
        t.ops.len() > 0,
        t.ops[0] == Op::Hint,
        t.narg == framed(data) + rest,
        data.len() < 0x1_0000_0000,
    ensures
        hint_step(t).1 is Ok,
        hint_step(t).1->Ok_0 == data,
        hint_step(t).0 == (Transcript { ops: t.ops.drop_first(), narg: rest, ..t }),
{
    let prefix = le_bytes(data.len(), HINT_PREFIX as nat);
    lemma_le_bytes_len(data.len(), HINT_PREFIX as nat);
    lemma_pow_256();
    lemma_le_round_trip(data.len(), HINT_PREFIX as nat);
    assert(t.narg.take(HINT_PREFIX as int) =~= prefix);
    assert(t.narg.skip(HINT_PREFIX as int) =~= data + rest);
    assert((data + rest).take(data.len() as int) =~= data);
    assert((data + rest).skip(data.len() as int) =~= rest);
}

/// Where a hint is expected, a framed one is read back as the value that its data spell, and as an
/// error of decoding where they spell none.
pub proof fn law_reads_back_hint_value<Perm, U, T: DeserializeOwned>(
    t: Transcript<Perm, U>,
    data: Seq<u8>,
    rest: Seq<u8>,
    result: ProofResult<T>,
)
    requires
        t.ops.len() > 0,
        t.ops[0] == Op::Hint,
        t.narg == framed(data) + rest,
        data.len() < 0x1_0000_0000,
        is_hint_result(hint_step(t).1, result),
    ensures
        forall|value: T| #[trigger] spells(data, value) ==> result == Ok::<T, ProofError>(value),
        spells_nothing::<T>(data) ==> result == Err::<T, ProofError>(ProofError::SerializationError),
{
    law_reads_back_hint(t, data, rest);
}

/// Hints as they stand in the NARG string, one after the other.
pub open spec fn frames(data: Seq<Seq<u8>>) -> Seq<u8>
    decreases data.len(),
{
    if data.len() == 0 {
        Seq::empty()
    } else {
        frames(data.drop_last()) + framed(data.last())
    }
}

/// Reading `count` hints, one after the other: the transcript then, and what each came to.
pub open spec fn hints_step<Perm, U>(t: Transcript<Perm, U>, count: nat) -> (
    Transcript<Perm, U>,
    Seq<Result<Seq<u8>, DomainSeparatorMismatch>>,
)
    decreases count,
{
    if count == 0 {
        (t, Seq::empty())
    } else {
        let (before, outcomes) = hints_step(t, (count - 1) as nat);
        let (after, outcome) = hint_step(before);
        (after, outcomes.push(outcome))
    }
}

/// Where as many hints are expected as data were framed, the hints give the data in order. Just
/// their instructions and their frames are used up: where nothing follows the frames, the NARG
/// string ends empty.
pub proof fn law_reads_back_hints<Perm, U>(
    t: Transcript<Perm, U>,
    data: Seq<Seq<u8>>,
    later: Seq<Op>,
    rest: Seq<u8>,
)
    requires
        t.ops == Seq::new(data.len(), |i: int| Op::Hint) + later,
        t.narg == frames(data) + rest,
        forall|i: int| 0 <= i < data.len() ==> (#[trigger] data[i]).len() < 0x1_0000_0000,
    ensures
        ({
            let (after, outcomes) = hints_step(t, data.len());
            &&& after == (Transcript { ops: later, narg: rest, ..t })
            &&& outcomes == Seq::new(
                data.len(),
                |i: int| Ok::<Seq<u8>, DomainSeparatorMismatch>(data[i]),
            )
        }),
    decreases data.len(),
{
    let (after, outcomes) = hints_step(t, data.len());
    let expected = Seq::new(
        data.len(),
        |i: int| Ok::<Seq<u8>, DomainSeparatorMismatch>(data[i]),
    );
    if data.len() == 0 {
        assert(t.ops =~= later);
        assert(t.narg =~= rest);
    } else {
        let front = data.drop_last();
        let last = data.last();
        let next = seq![Op::Hint] + later;
        assert(t.ops =~= Seq::new(front.len(), |i: int| Op::Hint) + next);
        assert(t.narg =~= frames(front) + (framed(last) + rest));
        law_reads_back_hints(t, front, next, framed(last) + rest);
        let before = hints_step(t, front.len()).0;
        law_reads_back_hint(before, last, rest);
        assert(next.drop_first() =~= later);
    }
    assert(outcomes =~= expected);
}

/// Of hints that are read one after the other, each gives the value that its data spell, whatever
/// the types of the others, and an error of decoding where they spell none.
pub proof fn law_reads_back_hint_values<Perm, U, T: DeserializeOwned>(
    t: Transcript<Perm, U>,
    data: Seq<Seq<u8>>,
    later: Seq<Op>,
    rest: Seq<u8>,
    i: int,
    result: ProofResult<T>,
)
    requires
        t.ops == Seq::new(data.len(), |i: int| Op::Hint) + later,
        t.narg == frames(data) + rest,
        forall|i: int| 0 <= i < data.len() ==> (#[trigger] data[i]).len() < 0x1_0000_0000,
        0 <= i < data.len(),
        is_hint_result(hints_step(t, data.len()).1[i], result),
    ensures
        hints_step(t, data.len()).0.narg == rest,
        forall|value: T| #[trigger] spells(data[i], value) ==> result == Ok::<T, ProofError>(value),
        spells_nothing::<T>(data[i]) ==> result == Err::<T, ProofError>(
            ProofError::SerializationError,
        ),
{
    law_reads_back_hints(t, data, later, rest);
}

/// A hint is read exactly where one is expected and the NARG string holds the whole of it.
pub proof fn law_hint_succeeds<Perm, U>(t: Transcript<Perm, U>)
    ensures
        hint_step(t).1 is Ok <==> {
            &&& t.ops.len() > 0
            &&& t.ops[0] == Op::Hint
            &&& exists|data: Seq<u8>, rest: Seq<u8>|
                data.len() < 0x1_0000_0000 && t.narg == #[trigger] (framed(data) + rest)
        },
{
    if hint_step(t).1 is Ok {
        let prefix = t.narg.take(HINT_PREFIX as int);
        let data = hint_step(t).1->Ok_0;
        let rest = hint_step(t).0.narg;
        lemma_le_spells(prefix);
        lemma_le_value_bound(prefix);
        lemma_pow_256();
        assert(t.narg =~= framed(data) + rest);
    } else if t.ops.len() > 0 && t.ops[0] == Op::Hint {
        assert forall|data: Seq<u8>, rest: Seq<u8>| data.len() < 0x1_0000_0000 implies t.narg
            != #[trigger] (framed(data) + rest) by {
            if t.narg == framed(data) + rest {
                law_reads_back_hint(t, data, rest);
            }
        }
    }
}

/// What is left of the NARG string is always the end of what was there.
pub proof fn law_narg_is_read_in_order<
    H: DuplexSpongeInterface<Perm, U, WIDTH>,
    Perm: Clone,
    U: Unit,
    const WIDTH: usize,
>(t: Transcript<Perm, U>, field: BaseField, degree: nat, count: nat)
    ensures
        read_units_step::<H, Perm, U, WIDTH>(t, count).0.narg.is_suffix_of(t.narg),
        read_scalars_step::<H, Perm, U, WIDTH>(t, field, degree, count).0.narg.is_suffix_of(t.narg),
        hint_step(t).0.narg.is_suffix_of(t.narg),
    decreases count,
{
    if count > 0 {
        law_narg_is_read_in_order::<H, Perm, U, WIDTH>(t, field, degree, (count - 1) as nat);
    }
}

/// Challenges leave the NARG string alone.
pub proof fn law_challenges_leave_narg<
    H: DuplexSpongeInterface<Perm, U, WIDTH>,
    Perm: Clone,
    U: Unit,
    const WIDTH: usize,
>(t: Transcript<Perm, U>, field: BaseField, degree: nat, count: nat)
    ensures
        squeeze_units_step::<H, Perm, U, WIDTH>(t, count).0.narg == t.narg,
        draw_scalars_step::<H, Perm, U, WIDTH>(t, field, degree, count).0.narg == t.narg,
    decreases count,
{
    if count > 0 {
        law_challenges_leave_narg::<H, Perm, U, WIDTH>(t, field, degree, (count - 1) as nat);
    }
}

/// What a protocol declares for scalars is what reading them takes: with the instruction for `count`
/// scalars next, and their bytes at hand, they are read, and just that instruction is used up.
pub proof fn law_reads_what_is_declared<
    H: DuplexSpongeInterface<Perm, U, WIDTH>,
    Perm: Clone,
    U: Unit,
    const WIDTH: usize,
    const D: usize,
>(t: Transcript<Perm, U>, field: BaseField, count: nat, later: Seq<Op>)
    requires
        field.wf(),
        field.spec_num_bytes() == spec_bytes_modp(field.spec_bits()),
        D > 0,
        count > 0,
        DomainSeparator::<Perm, U, WIDTH, D>::scalars_len(field, count) <= t.narg.len()
            <= usize::MAX,
        t.ops == seq![
            Op::Absorb(DomainSeparator::<Perm, U, WIDTH, D>::scalars_len(field, count) as usize),
        ] + later,
    ensures
        ({
            let (after, _, result) = read_scalars_step::<H, Perm, U, WIDTH>(
                t,
                field,
                D as nat,
                count,
            );
            result is Ok && after.ops == later
        }),
{
    let size = scalar_len(field, D as nat);
    assert(0 < size) by (nonlinear_arith)
        requires
            size == D as nat * field.spec_num_bytes() as nat,
            D > 0,
            field.spec_num_bytes() > 0,
    ;
    law_read_scalars::<H, Perm, U, WIDTH>(t, field, D as nat, count);
    assert(t.ops.drop_first() =~= later);
}

/// What a protocol declares for challenges is what drawing them takes: with the instruction for
/// `count` scalars next, they are drawn, and just that instruction is used up.
pub proof fn law_draws_what_is_declared<
    H: DuplexSpongeInterface<Perm, U, WIDTH>,
    Perm: Clone,
    U: Unit,
    const WIDTH: usize,
    const D: usize,
>(t: Transcript<Perm, U>, field: BaseField, count: nat, later: Seq<Op>)
    requires
        D > 0,
        count > 0,
        DomainSeparator::<Perm, U, WIDTH, D>::challenges_len(field, count) <= usize::MAX,
        t.ops == seq![
            Op::Squeeze(
                DomainSeparator::<Perm, U, WIDTH, D>::challenges_len(field, count) as usize,
            ),
        ] + later,
    ensures
        ({
            let (after, _, result) = draw_scalars_step::<H, Perm, U, WIDTH>(
                t,
                field,
                D as nat,
                count,
            );
            result is Ok && after.ops == later
        }),
{
    let size = challenge_len(field, D as nat);
    assert(0 < size) by (nonlinear_arith)
        requires
            size == D as nat * field.spec_uniform_bytes(),
            D > 0,
            field.spec_uniform_bytes() > 0,
    ;
    law_draw_scalars::<H, Perm, U, WIDTH>(t, field, D as nat, count);
    assert(t.ops.drop_first() =~= later);
}

} // verus!
