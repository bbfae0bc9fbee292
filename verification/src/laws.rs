//! Laws that relate the requests of a verifier to each other and to what a prover wrote.

use vstd::arithmetic::div_mod::{lemma_mod_bound, lemma_small_mod};
use vstd::prelude::*;

use crate::domain_separator::{is_merged, joins, Op};
use crate::duplex_sponge::{DuplexSpongeInterface, SpongeState};
use crate::errors::DomainSeparatorMismatch;
use crate::field::{
    chunk,
    decoded,
    encoded,
    encoded_all,
    is_canonical,
    lemma_encoded_len,
    sampled,
    BaseField,
};
use crate::keccak::{
    law_keccak_absorbs_in_parts,
    law_keccak_ignores_value,
    law_keccak_squeezes_in_parts,
    lemma_squeezed_len,
    DefaultHash,
    DefaultPerm,
    KeccakState,
};
use crate::sho::{after_absorb, after_squeeze, initial_sponge, starts};
use crate::transcript::{absorb_units, draw_scalars_step, read_scalars_step, Transcript};
use crate::unit::{bytes_of, units_of, Unit};
use crate::utils::{
    be_value,
    le_bytes,
    le_value,
    lemma_le_bytes_len,
    lemma_le_round_trip,
    lemma_le_spells,
};

verus! {

/// Absorbing in two parts uses up the instructions as absorbing at once does.
pub proof fn law_absorb_in_parts(ops: Seq<Op>, first: usize, second: usize)
    requires
        first + second <= usize::MAX,
        second > 0,
        after_absorb(ops, (first + second) as usize) is Ok,
    ensures
        after_absorb(ops, first) is Ok,
        after_absorb(after_absorb(ops, first)->Ok_0, second) == after_absorb(
            ops,
            (first + second) as usize,
        ),
{
    let length = match ops[0] {
        Op::Absorb(length) => length,
        _ => 0usize,
    };
    let left = ops.update(0, Op::Absorb((length - first) as usize));
    assert(after_absorb(ops, first) == Ok::<Seq<Op>, DomainSeparatorMismatch>(left));
    assert(left.drop_first() =~= ops.drop_first());
    assert(left.update(0, Op::Absorb((length - first - second) as usize)) =~= ops.update(
        0,
        Op::Absorb((length - first - second) as usize),
    ));
}

/// Squeezing in two parts uses up the instructions as squeezing at once does.
pub proof fn law_squeeze_in_parts(ops: Seq<Op>, first: usize, second: usize)
    requires
        first + second <= usize::MAX,
        second > 0,
        after_squeeze(ops, (first + second) as usize) is Ok,
    ensures
        after_squeeze(ops, first) is Ok,
        after_squeeze(after_squeeze(ops, first)->Ok_0, second) == after_squeeze(
            ops,
            (first + second) as usize,
        ),
{
    let length = match ops[0] {
        Op::Squeeze(length) => length,
        _ => 0usize,
    };
    let left = ops.update(0, Op::Squeeze((length - first) as usize));
    assert(after_squeeze(ops, first) == Ok::<Seq<Op>, DomainSeparatorMismatch>(left));
    assert(left.drop_first() =~= ops.drop_first());
    assert(left.update(0, Op::Squeeze((length - first - second) as usize)) =~= ops.update(
        0,
        Op::Squeeze((length - first - second) as usize),
    ));
}

/// The wire form of a scalar spells the scalar.
pub proof fn law_scalar_round_trip(field: BaseField, coeffs: Seq<u64>)
    requires
        field.wf(),
        is_canonical(field, coeffs),
    ensures
        decoded(field, coeffs.len(), encoded(field, coeffs)) == coeffs,
{
    let size = field.spec_num_bytes() as nat;
    let bytes = encoded(field, coeffs);
    assert forall|i: int| 0 <= i < coeffs.len() implies decoded(field, coeffs.len(), bytes)[i]
        == coeffs[i] by {
        lemma_encoded_chunk(field, coeffs, i);
        lemma_le_round_trip(coeffs[i] as nat, size);
        lemma_small_mod(coeffs[i] as nat, field.spec_order() as nat);
    }
    assert(decoded(field, coeffs.len(), bytes) =~= coeffs);
}

/// Each coefficient has its own piece of the wire form of a scalar.
proof fn lemma_encoded_chunk(field: BaseField, coeffs: Seq<u64>, i: int)
    requires
        0 <= i < coeffs.len(),
    ensures
        chunk(encoded(field, coeffs), field.spec_num_bytes() as nat, i) == le_bytes(
            coeffs[i] as nat,
            field.spec_num_bytes() as nat,
        ),
    decreases coeffs.len(),
{
    let size = field.spec_num_bytes() as nat;
    let front = coeffs.drop_last();
    let head = encoded(field, front);
    let tail = le_bytes(coeffs.last() as nat, size);
    lemma_encoded_len(field, front);
    lemma_le_bytes_len(coeffs.last() as nat, size);
    assert((i + 1) * size == i * size + size) by (nonlinear_arith);
    if i == coeffs.len() - 1 {
        assert(chunk(encoded(field, coeffs), size, i) =~= tail);
    } else {
        lemma_encoded_chunk(field, front, i);
        assert(0 <= i * size && (i + 1) * size <= front.len() * size) by (nonlinear_arith)
            requires
                0 <= i,
                i + 1 <= front.len(),
                0 <= size,
        ;
        assert(chunk(encoded(field, coeffs), size, i) =~= chunk(head, size, i));
    }
}

/// Whether `bytes` spell `degree` coefficients, each as the canonical representative of an element of
/// the field.
pub open spec fn spells_canonical(field: BaseField, degree: nat, bytes: Seq<u8>) -> bool {
    &&& bytes.len() == degree * field.spec_num_bytes()
    &&& forall|i: int|
        0 <= i < degree ==> le_value(#[trigger] chunk(bytes, field.spec_num_bytes() as nat, i))
            < field.spec_order()
}

/// Bytes that spell canonical coefficients are the wire form of what they spell.
pub proof fn law_encoding_undoes_decoding(field: BaseField, degree: nat, bytes: Seq<u8>)
    requires
        spells_canonical(field, degree, bytes),
    ensures
        encoded(field, decoded(field, degree, bytes)) == bytes,
    decreases degree,
{
    let size = field.spec_num_bytes() as nat;
    let coeffs = decoded(field, degree, bytes);
    if degree == 0 {
        assert(degree * size == 0) by (nonlinear_arith)
            requires
                degree == 0,
        ;
        assert(encoded(field, coeffs) =~= bytes);
    } else {
        let less = (degree - 1) as nat;
        let head = bytes.take((less * size) as int);
        assert(degree * size == less * size + size && 0 <= less * size) by (nonlinear_arith)
            requires
                degree == less + 1,
                0 <= less,
                0 <= size,
        ;
        assert forall|i: int| 0 <= i < less implies #[trigger] chunk(head, size, i) == chunk(
            bytes,
            size,
            i,
        ) by {
            assert(0 <= i * size && i * size <= (i + 1) * size && (i + 1) * size <= less * size)
                by (nonlinear_arith)
                requires
                    0 <= i,
                    i + 1 <= less,
                    0 <= size,
            ;
            assert(chunk(head, size, i) =~= chunk(bytes, size, i));
        }
        law_encoding_undoes_decoding(field, less, head);
        assert(coeffs.drop_last() =~= decoded(field, less, head));
        let last = chunk(bytes, size, less as int);
        assert(less * size + size == (less + 1) * size) by (nonlinear_arith);
        assert(last.len() == size);
        lemma_small_mod(le_value(last), field.spec_order() as nat);
        lemma_le_spells(last);
        assert(head + last =~= bytes);
    }
}

/// The bytes of the NARG string that a scalar takes.
pub open spec fn scalar_len(field: BaseField, degree: nat) -> nat {
    degree * field.spec_num_bytes() as nat
}

/// The units that a scalar takes as a challenge.
pub open spec fn challenge_len(field: BaseField, degree: nat) -> nat {
    degree * field.spec_uniform_bytes()
}

/// Reading scalars, where the NARG string and the instructions have room for all of them: the bytes
/// are read from the front, as many as the scalars take, and the instructions are used up as by
/// absorbing them at once.
pub proof fn law_read_scalars<
    H: DuplexSpongeInterface<Perm, U, WIDTH>,
    Perm: Clone,
    U: Unit,
    const WIDTH: usize,
>(t: Transcript<Perm, U>, field: BaseField, degree: nat, count: nat)
    requires
        0 < scalar_len(field, degree),
        count * scalar_len(field, degree) <= t.narg.len() <= usize::MAX,
        count > 0 ==> after_absorb(t.ops, (count * scalar_len(field, degree)) as usize) is Ok,
    ensures
        ({
            let size = scalar_len(field, degree);
            let (after, done, result) = read_scalars_step::<H, Perm, U, WIDTH>(
                t,
                field,
                degree,
                count,
            );
            &&& result is Ok
            &&& after.narg == t.narg.skip((count * size) as int)
            &&& count == 0 ==> after == t
            &&& count > 0 ==> after_absorb(t.ops, (count * size) as usize) == Ok::<
                Seq<Op>,
                DomainSeparatorMismatch,
            >(after.ops)
            &&& done == Seq::new(count, |i: int| decoded(field, degree, chunk(t.narg, size, i)))
        }),
    decreases count,
{
    let size = scalar_len(field, degree);
    let all = read_scalars_step::<H, Perm, U, WIDTH>(t, field, degree, count);
    if count == 0 {
        assert(count * size == 0) by (nonlinear_arith)
            requires
                count == 0,
        ;
        assert(t.narg.skip(0) =~= t.narg);
        assert(all.1 =~= Seq::new(0, |i: int| decoded(field, degree, chunk(t.narg, size, i))));
    } else {
        let less = (count - 1) as nat;
        let first = less * size;
        assert(count * size == first + size && 0 <= first) by (nonlinear_arith)
            requires
                first == less * size,
                count == less + 1,
                0 <= less,
                0 < size,
        ;
        law_absorb_in_parts(t.ops, first as usize, size as usize);
        law_read_scalars::<H, Perm, U, WIDTH>(t, field, degree, less);
        let before = read_scalars_step::<H, Perm, U, WIDTH>(t, field, degree, less);
        if less == 0 {
            assert(first == 0) by (nonlinear_arith)
                requires
                    first == less * size,
                    less == 0,
            ;
            assert(after_absorb(t.ops, size as usize) is Ok);
        }
        assert(after_absorb(before.0.ops, size as usize) == after_absorb(
            t.ops,
            (first + size) as usize,
        ));
        assert(before.0.narg.take(size as int) =~= chunk(t.narg, size, less as int)) by {
            assert((less + 1) * size == first + size) by (nonlinear_arith)
                requires
                    first == less * size,
            ;
        }
        assert(before.0.narg.skip(size as int) =~= t.narg.skip((count * size) as int));
        assert(units_of::<U>(before.0.narg.take(size as int)).len() == size);
        assert(all.1 =~= Seq::new(
            count,
            |i: int| decoded(field, degree, chunk(t.narg, size, i)),
        ));
    }
}

/// Scalars are read exactly where the NARG string and the next instruction have room for all of
/// them.
pub proof fn law_read_scalars_succeeds<
    H: DuplexSpongeInterface<Perm, U, WIDTH>,
    Perm: Clone,
    U: Unit,
    const WIDTH: usize,
>(t: Transcript<Perm, U>, field: BaseField, degree: nat, count: nat)
    requires
        is_merged(t.ops),
        0 < scalar_len(field, degree),
        t.narg.len() <= usize::MAX,
    ensures
        read_scalars_step::<H, Perm, U, WIDTH>(t, field, degree, count).2 is Ok <==> {
            ||| count == 0
            ||| {
                &&& count * scalar_len(field, degree) <= t.narg.len()
                &&& after_absorb(t.ops, (count * scalar_len(field, degree)) as usize) is Ok
            }
        },
    decreases count,
{
    let size = scalar_len(field, degree);
    if count > 0 {
        let less = (count - 1) as nat;
        let first = less * size;
        let total = count * size;
        assert(total == first + size && 0 <= first && (less > 0 ==> 0 < first)) by (nonlinear_arith)
            requires
                first == less * size,
                total == count * size,
                count == less + 1,
                0 <= less,
                0 < size,
        ;
        if total <= t.narg.len() && after_absorb(t.ops, total as usize) is Ok {
            law_read_scalars::<H, Perm, U, WIDTH>(t, field, degree, count);
        }
        if read_scalars_step::<H, Perm, U, WIDTH>(t, field, degree, count).2 is Ok {
            law_read_scalars_succeeds::<H, Perm, U, WIDTH>(t, field, degree, less);
            assert(first == 0 || less > 0) by (nonlinear_arith)
                requires
                    first == less * size,
                    0 <= less,
            ;
            law_read_scalars::<H, Perm, U, WIDTH>(t, field, degree, less);
            let before = read_scalars_step::<H, Perm, U, WIDTH>(t, field, degree, less).0;
            assert(units_of::<U>(before.narg.take(size as int)).len() == size);
            assert(after_absorb(before.ops, size as usize) is Ok);
            if less > 0 && t.ops[0] == Op::Absorb(first as usize) {
                assert(before.ops[0] == t.ops[1]);
                assert(!joins(t.ops[1 - 1], t.ops[1]));
            }
        }
    }
}

/// Drawing scalars, where the instructions have room for all of them: the instructions are used up
/// as by squeezing at once, and the NARG string is left alone.
pub proof fn law_draw_scalars<
    H: DuplexSpongeInterface<Perm, U, WIDTH>,
    Perm: Clone,
    U: Unit,
    const WIDTH: usize,
>(t: Transcript<Perm, U>, field: BaseField, degree: nat, count: nat)
    requires
        0 < challenge_len(field, degree),
        count * challenge_len(field, degree) <= usize::MAX,
        count > 0 ==> after_squeeze(t.ops, (count * challenge_len(field, degree)) as usize) is Ok,
    ensures
        ({
            let size = challenge_len(field, degree);
            let (after, done, result) = draw_scalars_step::<H, Perm, U, WIDTH>(
                t,
                field,
                degree,
                count,
            );
            &&& result is Ok
            &&& after.narg == t.narg
            &&& count == 0 ==> after == t
            &&& count > 0 ==> after_squeeze(t.ops, (count * size) as usize) == Ok::<
                Seq<Op>,
                DomainSeparatorMismatch,
            >(after.ops)
            &&& done.len() == count
        }),
    decreases count,
{
    let size = challenge_len(field, degree);
    if count > 0 {
        let less = (count - 1) as nat;
        let first = less * size;
        let total = count * size;
        assert(total == first + size && 0 <= first && (less == 0 ==> first == 0)) by (nonlinear_arith)
            requires
                first == less * size,
                total == count * size,
                count == less + 1,
                0 <= less,
                0 < size,
        ;
        law_squeeze_in_parts(t.ops, first as usize, size as usize);
        law_draw_scalars::<H, Perm, U, WIDTH>(t, field, degree, less);
        let before = draw_scalars_step::<H, Perm, U, WIDTH>(t, field, degree, less).0;
        assert(after_squeeze(before.ops, size as usize) == after_squeeze(t.ops, total as usize));
    }
}

/// Scalars are drawn exactly where the next instruction has room for all of them.
pub proof fn law_draw_scalars_succeeds<
    H: DuplexSpongeInterface<Perm, U, WIDTH>,
    Perm: Clone,
    U: Unit,
    const WIDTH: usize,
>(t: Transcript<Perm, U>, field: BaseField, degree: nat, count: nat)
    requires
        is_merged(t.ops),
        0 < challenge_len(field, degree),
        count * challenge_len(field, degree) <= usize::MAX,
    ensures
        draw_scalars_step::<H, Perm, U, WIDTH>(t, field, degree, count).2 is Ok <==> {
            ||| count == 0
            ||| after_squeeze(t.ops, (count * challenge_len(field, degree)) as usize) is Ok
        },
    decreases count,
{
    let size = challenge_len(field, degree);
    if count > 0 {
        let less = (count - 1) as nat;
        let first = less * size;
        let total = count * size;
        assert(total == first + size && 0 <= first && (less == 0 <==> first == 0)) by (nonlinear_arith)
            requires
                first == less * size,
                total == count * size,
                count == less + 1,
                0 <= less,
                0 < size,
        ;
        if after_squeeze(t.ops, total as usize) is Ok {
            law_draw_scalars::<H, Perm, U, WIDTH>(t, field, degree, count);
        }
        if draw_scalars_step::<H, Perm, U, WIDTH>(t, field, degree, count).2 is Ok {
            law_draw_scalars_succeeds::<H, Perm, U, WIDTH>(t, field, degree, less);
            law_draw_scalars::<H, Perm, U, WIDTH>(t, field, degree, less);
            let before = draw_scalars_step::<H, Perm, U, WIDTH>(t, field, degree, less).0;
            assert(after_squeeze(before.ops, size as usize) is Ok);
            if less > 0 && t.ops[0] == Op::Squeeze(first as usize) {
                assert(before.ops[0] == t.ops[1]);
                assert(!joins(t.ops[1 - 1], t.ops[1]));
            }
        }
    }
}

/// The wire form of scalars of one degree takes as many bytes as the scalars do.
proof fn lemma_encoded_all_len(field: BaseField, degree: nat, scalars: Seq<Seq<u64>>)
    requires
        forall|i: int| 0 <= i < scalars.len() ==> (#[trigger] scalars[i]).len() == degree,
    ensures
        encoded_all(field, scalars).len() == scalars.len() * scalar_len(field, degree),
    decreases scalars.len(),
{
    let size = scalar_len(field, degree);
    if scalars.len() > 0 {
        lemma_encoded_all_len(field, degree, scalars.drop_last());
        lemma_encoded_len(field, scalars.last());
        assert((scalars.len() - 1) * size + size == scalars.len() * size) by (nonlinear_arith);
    } else {
        assert(scalars.len() * size == 0) by (nonlinear_arith)
            requires
                scalars.len() == 0,
        ;
    }
}

/// Each scalar has its own piece of the wire form of scalars.
proof fn lemma_encoded_all_chunk(
    field: BaseField,
    degree: nat,
    scalars: Seq<Seq<u64>>,
    rest: Seq<u8>,
    i: int,
)
    requires
        forall|j: int| 0 <= j < scalars.len() ==> (#[trigger] scalars[j]).len() == degree,
        0 <= i < scalars.len(),
    ensures
        chunk(encoded_all(field, scalars) + rest, scalar_len(field, degree), i) == encoded(
            field,
            scalars[i],
        ),
    decreases scalars.len(),
{
    let size = scalar_len(field, degree);
    let front = scalars.drop_last();
    let head = encoded_all(field, front);
    let tail = encoded(field, scalars.last());
    let all = encoded_all(field, scalars) + rest;
    lemma_encoded_all_len(field, degree, front);
    lemma_encoded_len(field, scalars.last());
    assert((i + 1) * size == i * size + size) by (nonlinear_arith);
    if i == scalars.len() - 1 {
        assert(chunk(all, size, i) =~= tail);
    } else {
        lemma_encoded_all_chunk(field, degree, front, rest, i);
        assert(0 <= i * size && (i + 1) * size <= front.len() * size) by (nonlinear_arith)
            requires
                0 <= i,
                i + 1 <= front.len(),
                0 <= size,
        ;
        assert(chunk(all, size, i) =~= chunk(head + rest, size, i));
    }
}

/// Reading gives back what was written: where the NARG string starts with the wire form of some
/// scalars, and the next instruction has room for it, these scalars are read, and what follows them
/// is left to be read.
pub proof fn law_reads_back_scalars<
    H: DuplexSpongeInterface<Perm, U, WIDTH>,
    Perm: Clone,
    U: Unit,
    const WIDTH: usize,
>(
    t: Transcript<Perm, U>,
    field: BaseField,
    degree: nat,
    scalars: Seq<Seq<u64>>,
    rest: Seq<u8>,
)
    requires
        field.wf(),
        degree > 0,
        forall|i: int|
            0 <= i < scalars.len() ==> (#[trigger] scalars[i]).len() == degree && is_canonical(
                field,
                scalars[i],
            ),
        t.narg == encoded_all(field, scalars) + rest,
        t.narg.len() <= usize::MAX,
        scalars.len() > 0 ==> after_absorb(
            t.ops,
            encoded_all(field, scalars).len() as usize,
        ) is Ok,
    ensures
        ({
            let (after, done, result) = read_scalars_step::<H, Perm, U, WIDTH>(
                t,
                field,
                degree,
                scalars.len(),
            );
            &&& result is Ok
            &&& done == scalars
            &&& after.narg == rest
        }),
{
    let size = scalar_len(field, degree);
    assert(0 < size) by (nonlinear_arith)
        requires
            size == degree * field.spec_num_bytes() as nat,
            degree > 0,
            field.spec_num_bytes() > 0,
    ;
    lemma_encoded_all_len(field, degree, scalars);
    law_read_scalars::<H, Perm, U, WIDTH>(t, field, degree, scalars.len());
    let (after, done, _) = read_scalars_step::<H, Perm, U, WIDTH>(
        t,
        field,
        degree,
        scalars.len(),
    );
    assert forall|i: int| 0 <= i < scalars.len() implies done[i] == scalars[i] by {
        lemma_encoded_all_chunk(field, degree, scalars, rest, i);
        law_scalar_round_trip(field, scalars[i]);
    }
    assert(done =~= scalars);
    assert(after.narg =~= rest);
}

/// Scalars that were read took their bytes from the front of the NARG string, and each is what its
/// own piece spells.
pub proof fn law_read_takes_from_front<
    H: DuplexSpongeInterface<Perm, U, WIDTH>,
    Perm: Clone,
    U: Unit,
    const WIDTH: usize,
>(t: Transcript<Perm, U>, field: BaseField, degree: nat, count: nat)
    requires
        read_scalars_step::<H, Perm, U, WIDTH>(t, field, degree, count).2 is Ok,
    ensures
        ({
            let size = scalar_len(field, degree);
            let (after, done, _) = read_scalars_step::<H, Perm, U, WIDTH>(t, field, degree, count);
            &&& count * size <= t.narg.len()
            &&& after.narg == t.narg.skip((count * size) as int)
            &&& done == Seq::new(count, |i: int| decoded(field, degree, chunk(t.narg, size, i)))
        }),
    decreases count,
{
    let size = scalar_len(field, degree);
    let (after, done, _) = read_scalars_step::<H, Perm, U, WIDTH>(t, field, degree, count);
    if count == 0 {
        assert(count * size == 0) by (nonlinear_arith)
            requires
                count == 0,
        ;
        assert(t.narg.skip(0) =~= t.narg);
    } else {
        let less = (count - 1) as nat;
        let first = less * size;
        assert(count * size == first + size && (less + 1) * size == first + size && 0 <= first)
            by (nonlinear_arith)
            requires
                first == less * size,
                count == less + 1,
                0 <= less,
                0 <= size,
        ;
        law_read_takes_from_front::<H, Perm, U, WIDTH>(t, field, degree, less);
        let before = read_scalars_step::<H, Perm, U, WIDTH>(t, field, degree, less).0;
        assert(before.narg.take(size as int) =~= chunk(t.narg, size, less as int));
        assert(before.narg.skip(size as int) =~= t.narg.skip((count * size) as int));
    }
    assert(done =~= Seq::new(count, |i: int| decoded(field, degree, chunk(t.narg, size, i))));
}

/// Writing undoes reading: where the pieces that were read spell canonical coefficients, the wire
/// form of the scalars is what was read.
pub proof fn law_writing_undoes_reading<
    H: DuplexSpongeInterface<Perm, U, WIDTH>,
    Perm: Clone,
    U: Unit,
    const WIDTH: usize,
>(t: Transcript<Perm, U>, field: BaseField, degree: nat, count: nat)
    requires
        read_scalars_step::<H, Perm, U, WIDTH>(t, field, degree, count).2 is Ok,
        forall|i: int|
            0 <= i < count ==> spells_canonical(
                field,
                degree,
                #[trigger] chunk(t.narg, scalar_len(field, degree), i),
            ),
    ensures
        ({
            let (after, done, _) = read_scalars_step::<H, Perm, U, WIDTH>(t, field, degree, count);
            t.narg == encoded_all(field, done) + after.narg
        }),
    decreases count,
{
    let size = scalar_len(field, degree);
    let (after, done, _) = read_scalars_step::<H, Perm, U, WIDTH>(t, field, degree, count);
    law_read_takes_from_front::<H, Perm, U, WIDTH>(t, field, degree, count);
    if count > 0 {
        let less = (count - 1) as nat;
        let before = read_scalars_step::<H, Perm, U, WIDTH>(t, field, degree, less).0;
        let last = chunk(t.narg, size, less as int);
        law_writing_undoes_reading::<H, Perm, U, WIDTH>(t, field, degree, less);
        law_read_takes_from_front::<H, Perm, U, WIDTH>(t, field, degree, less);
        law_encoding_undoes_decoding(field, degree, last);
        assert(count * size == less * size + size && (less + 1) * size == less * size + size)
            by (nonlinear_arith)
            requires
                count == less + 1,
        ;
        assert(done.drop_last() =~= read_scalars_step::<H, Perm, U, WIDTH>(
            t,
            field,
            degree,
            less,
        ).1);
        assert(done.last() == decoded(field, degree, last));
        assert(before.narg =~= last + after.narg);
        assert(encoded_all(field, done.drop_last()) + (last + after.narg) =~= encoded_all(
            field,
            done,
        ) + after.narg);
    } else {
        assert(encoded_all(field, done) + after.narg =~= t.narg);
    }
}

/// Whether absorbing in parts leaves a sponge as absorbing at once does.
pub open spec fn absorbs_in_parts<
    H: DuplexSpongeInterface<Perm, U, WIDTH>,
    Perm: Clone,
    U: Unit,
    const WIDTH: usize,
>() -> bool {
    forall|state: SpongeState<Perm, U>, first: Seq<U>, second: Seq<U>| #[trigger]
        H::absorbed(H::absorbed(state, first), second) == H::absorbed(state, first + second)
}

/// Where absorbing can be done in parts, reading scalars leaves the sponge as absorbing their bytes
/// at once does.
proof fn lemma_read_absorbs<
    H: DuplexSpongeInterface<Perm, U, WIDTH>,
    Perm: Clone,
    U: Unit,
    const WIDTH: usize,
>(t: Transcript<Perm, U>, field: BaseField, degree: nat, count: nat)
    requires
        absorbs_in_parts::<H, Perm, U, WIDTH>(),
        count > 0,
        0 < scalar_len(field, degree),
        count * scalar_len(field, degree) <= t.narg.len() <= usize::MAX,
        after_absorb(t.ops, (count * scalar_len(field, degree)) as usize) is Ok,
    ensures
        read_scalars_step::<H, Perm, U, WIDTH>(t, field, degree, count).0.sponge == H::absorbed(
            t.sponge,
            units_of::<U>(t.narg.take((count * scalar_len(field, degree)) as int)),
        ),
    decreases count,
{
    let size = scalar_len(field, degree);
    let less = (count - 1) as nat;
    let first = less * size;
    let total = count * size;
    assert(total == first + size && 0 <= first && (less == 0 <==> first == 0)) by (nonlinear_arith)
        requires
            first == less * size,
            total == count * size,
            count == less + 1,
            0 <= less,
            0 < size,
    ;
    law_absorb_in_parts(t.ops, first as usize, size as usize);
    law_read_scalars::<H, Perm, U, WIDTH>(t, field, degree, less);
    law_read_scalars::<H, Perm, U, WIDTH>(t, field, degree, count);
    let before = read_scalars_step::<H, Perm, U, WIDTH>(t, field, degree, less).0;
    let units = units_of::<U>(before.narg.take(size as int));
    assert(units.len() == size);
    if less > 0 {
        lemma_read_absorbs::<H, Perm, U, WIDTH>(t, field, degree, less);
        let head = units_of::<U>(t.narg.take(first as int));
        assert(head + units =~= units_of::<U>(t.narg.take(total as int)));
        assert(H::absorbed(H::absorbed(t.sponge, head), units) == H::absorbed(
            t.sponge,
            head + units,
        ));
    } else {
        assert(before.narg.take(size as int) =~= t.narg.take(total as int));
    }
}

/// Both sides of a protocol come to the same sponge: reading scalars that were written into the NARG
/// string leaves the sponge and the instructions as absorbing the same scalars as public ones does.
/// So the challenges that follow are the same.
pub proof fn law_read_matches_public<
    H: DuplexSpongeInterface<Perm, U, WIDTH>,
    Perm: Clone,
    U: Unit,
    const WIDTH: usize,
>(
    t: Transcript<Perm, U>,
    field: BaseField,
    degree: nat,
    scalars: Seq<Seq<u64>>,
    rest: Seq<u8>,
)
    requires
        absorbs_in_parts::<H, Perm, U, WIDTH>(),
        field.wf(),
        degree > 0,
        scalars.len() > 0,
        forall|i: int| 0 <= i < scalars.len() ==> (#[trigger] scalars[i]).len() == degree,
        t.narg == encoded_all(field, scalars) + rest,
        t.narg.len() <= usize::MAX,
        after_absorb(t.ops, encoded_all(field, scalars).len() as usize) is Ok,
    ensures
        ({
            let read = read_scalars_step::<H, Perm, U, WIDTH>(t, field, degree, scalars.len()).0;
            let public = absorb_units::<H, Perm, U, WIDTH>(
                t,
                units_of::<U>(encoded_all(field, scalars)),
            ).0;
            read.sponge == public.sponge && read.ops == public.ops
        }),
{
    let size = scalar_len(field, degree);
    let bytes = encoded_all(field, scalars);
    assert(0 < size) by (nonlinear_arith)
        requires
            size == degree * field.spec_num_bytes() as nat,
            degree > 0,
            field.spec_num_bytes() > 0,
    ;
    lemma_encoded_all_len(field, degree, scalars);
    law_read_scalars::<H, Perm, U, WIDTH>(t, field, degree, scalars.len());
    lemma_read_absorbs::<H, Perm, U, WIDTH>(t, field, degree, scalars.len());
    assert(t.narg.take(bytes.len() as int) =~= bytes);
    assert(units_of::<U>(bytes).len() == bytes.len());
}

/// The default hash absorbs in parts.
pub proof fn law_default_hash_absorbs_in_parts()
    ensures
        absorbs_in_parts::<DefaultHash, DefaultPerm, u8, 200>(),
{
    assert forall|state: KeccakState, first: Seq<u8>, second: Seq<u8>|
        #[trigger] DefaultHash::absorbed(DefaultHash::absorbed(state, first), second)
            == DefaultHash::absorbed(state, first + second) by {
        law_keccak_absorbs_in_parts(state, first, second);
    }
}

/// Whether squeezing in parts gives what squeezing at once does, and as many units as are asked for.
pub open spec fn squeezes_in_parts<
    H: DuplexSpongeInterface<Perm, U, WIDTH>,
    Perm: Clone,
    U: Unit,
    const WIDTH: usize,
>() -> bool {
    &&& forall|state: SpongeState<Perm, U>, first: nat, second: nat|
        #![trigger H::squeezed(H::squeezed(state, first).0, second)]
        {
            let (between, head) = H::squeezed(state, first);
            let (after, tail) = H::squeezed(between, second);
            H::squeezed(state, first + second) == (after, head + tail)
        }
    &&& forall|state: SpongeState<Perm, U>, count: nat|
        (#[trigger] H::squeezed(state, count)).1.len() == count
}

/// The default hash squeezes in parts.
pub proof fn law_default_hash_squeezes_in_parts()
    ensures
        squeezes_in_parts::<DefaultHash, DefaultPerm, u8, 200>(),
{
    assert forall|state: KeccakState, first: nat, second: nat|
        #![trigger DefaultHash::squeezed(DefaultHash::squeezed(state, first).0, second)]
        {
            let (between, head) = DefaultHash::squeezed(state, first);
            let (after, tail) = DefaultHash::squeezed(between, second);
            DefaultHash::squeezed(state, first + second) == (after, head + tail)
        } by {
        law_keccak_squeezes_in_parts(state, first, second);
    }
    assert forall|state: KeccakState, count: nat|
        (#[trigger] DefaultHash::squeezed(state, count)).1.len() == count by {
        lemma_squeezed_len(state, count);
    }
}

/// Where squeezing can be done in parts, drawing scalars is squeezing all their units at once, and
/// each scalar is sampled from its own piece of them.
pub proof fn law_draw_squeezes_at_once<
    H: DuplexSpongeInterface<Perm, U, WIDTH>,
    Perm: Clone,
    U: Unit,
    const WIDTH: usize,
>(t: Transcript<Perm, U>, field: BaseField, degree: nat, count: nat)
    requires
        squeezes_in_parts::<H, Perm, U, WIDTH>(),
        count > 0,
        0 < challenge_len(field, degree),
        count * challenge_len(field, degree) <= usize::MAX,
        after_squeeze(t.ops, (count * challenge_len(field, degree)) as usize) is Ok,
    ensures
        ({
            let size = challenge_len(field, degree);
            let (after, done, _) = draw_scalars_step::<H, Perm, U, WIDTH>(t, field, degree, count);
            let (sponge, units) = H::squeezed(t.sponge, count * size);
            &&& after.sponge == sponge
            &&& done == Seq::new(
                count,
                |i: int| sampled(field, degree, chunk(bytes_of(units), size, i)),
            )
        }),
    decreases count,
{
    let size = challenge_len(field, degree);
    let less = (count - 1) as nat;
    let first = less * size;
    let total = count * size;
    assert(total == first + size && 0 <= first && (less == 0 <==> first == 0)) by (nonlinear_arith)
        requires
            first == less * size,
            total == count * size,
            count == less + 1,
            0 <= less,
            0 < size,
    ;
    law_squeeze_in_parts(t.ops, first as usize, size as usize);
    law_draw_scalars::<H, Perm, U, WIDTH>(t, field, degree, less);
    law_draw_scalars::<H, Perm, U, WIDTH>(t, field, degree, count);
    let (before, earlier, _) = draw_scalars_step::<H, Perm, U, WIDTH>(t, field, degree, less);
    let (_, done, _) = draw_scalars_step::<H, Perm, U, WIDTH>(t, field, degree, count);
    let all = bytes_of(H::squeezed(t.sponge, total).1);
    let last = H::squeezed(before.sponge, size).1;
    let expected = Seq::new(count, |i: int| sampled(field, degree, chunk(all, size, i)));
    if less == 0 {
        assert(chunk(all, size, 0) =~= bytes_of(last));
    } else {
        law_draw_squeezes_at_once::<H, Perm, U, WIDTH>(t, field, degree, less);
        let head = H::squeezed(t.sponge, first).1;
        assert(H::squeezed(H::squeezed(t.sponge, first).0, size).1 == last);
        assert(H::squeezed(t.sponge, total).1 == head + last);
        assert forall|i: int| 0 <= i < less implies chunk(all, size, i) == chunk(
            bytes_of(head),
            size,
            i,
        ) by {
            assert(0 <= i * size && (i + 1) * size <= less * size && i * size <= (i + 1) * size)
                by (nonlinear_arith)
                requires
                    0 <= i,
                    i + 1 <= less,
                    0 < size,
            ;
            assert(chunk(all, size, i) =~= chunk(bytes_of(head), size, i));
        }
        assert((less + 1) * size == first + size) by (nonlinear_arith)
            requires
                first == less * size,
        ;
        assert(chunk(all, size, less as int) =~= bytes_of(last));
    }
    assert(done =~= expected);
}

/// Every scalar that is read or drawn has `degree` coefficients, each the canonical representative
/// of an element of the field.
pub proof fn law_scalars_are_canonical<
    H: DuplexSpongeInterface<Perm, U, WIDTH>,
    Perm: Clone,
    U: Unit,
    const WIDTH: usize,
>(t: Transcript<Perm, U>, field: BaseField, degree: nat, count: nat, i: int)
    requires
        field.wf(),
    ensures
        ({
            let done = read_scalars_step::<H, Perm, U, WIDTH>(t, field, degree, count).1;
            0 <= i < done.len() ==> done[i].len() == degree && is_canonical(field, done[i])
        }),
        ({
            let done = draw_scalars_step::<H, Perm, U, WIDTH>(t, field, degree, count).1;
            0 <= i < done.len() ==> done[i].len() == degree && is_canonical(field, done[i])
        }),
    decreases count,
{
    if count > 0 {
        law_scalars_are_canonical::<H, Perm, U, WIDTH>(t, field, degree, (count - 1) as nat, i);
        let order = field.spec_order() as nat;
        assert forall|bytes: Seq<u8>| is_canonical(field, #[trigger] decoded(field, degree, bytes)) by {
            assert forall|j: int| 0 <= j < degree implies #[trigger] decoded(field, degree, bytes)[j]
                < order by {
                lemma_mod_bound(
                    le_value(chunk(bytes, field.spec_num_bytes() as nat, j)) as int,
                    order as int,
                );
            }
        }
        assert forall|bytes: Seq<u8>| is_canonical(field, #[trigger] sampled(field, degree, bytes)) by {
            assert forall|j: int| 0 <= j < degree implies #[trigger] sampled(field, degree, bytes)[j]
                < order by {
                lemma_mod_bound(
                    be_value(chunk(bytes, field.spec_uniform_bytes(), j)) as int,
                    order as int,
                );
            }
        }
    }
}

/// Both sides of a protocol start from the same sponge: with the default hash, what a declaration
/// starts is the same but for the value that stands for the permutation.
pub proof fn law_same_declaration_same_start(
    one: KeccakState,
    one_perm: DefaultPerm,
    other: KeccakState,
    other_perm: DefaultPerm,
    declaration: Seq<u8>,
    iv_size: nat,
)
    requires
        starts::<DefaultHash, DefaultPerm, u8, 200>(one, one_perm, declaration, iv_size),
        starts::<DefaultHash, DefaultPerm, u8, 200>(other, other_perm, declaration, iv_size),
    ensures
        one.perm == one_perm,
        other == (SpongeState { perm: other_perm, ..one }),
{
    let one_tag = choose|tag_perm: DefaultPerm| #[trigger]
        cloned(one_perm, tag_perm) && one == initial_sponge::<DefaultHash, DefaultPerm, u8, 200>(
            one_perm,
            tag_perm,
            declaration,
            iv_size,
        );
    let other_tag = choose|tag_perm: DefaultPerm| #[trigger]
        cloned(other_perm, tag_perm) && other == initial_sponge::<DefaultHash, DefaultPerm, u8, 200>(
            other_perm,
            tag_perm,
            declaration,
            iv_size,
        );
    let zeros = Seq::new(iv_size, |i: int| u8::of_byte(0));
    let start = DefaultHash::initial(one_tag, zeros);
    let units = units_of::<u8>(declaration);
    law_keccak_ignores_value(other_tag, start, units, 0);
    law_keccak_ignores_value(other_tag, DefaultHash::absorbed(start, units), units, iv_size);
}

} // verus!
