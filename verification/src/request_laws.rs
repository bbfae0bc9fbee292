//! What each request gives, in terms of the bytes of the NARG string, the instructions and the sponge.

use bincode::error::DecodeError;
use serde::de::DeserializeOwned;
use vstd::arithmetic::power::pow;
use vstd::prelude::*;

use crate::domain_separator::{
    can_follow,
    counted,
    followed_by,
    is_label,
    is_merged,
    joins,
    DomainSeparator,
    Op,
    ABSORB_LETTER,
    HINT_LETTER,
    SEP_BYTE,
    SQUEEZE_LETTER,
};
use crate::duplex_sponge::DuplexSpongeInterface;
use crate::errors::{DomainSeparatorMismatch, ProofError, ProofResult};
use crate::field::{chunk, coeffs_of, BaseField, Scalar};
use crate::hint::{decode_value, decodes_to, law_decodes_whole_data, spec_hint_value};
use crate::keccak::{keccak_f, DefaultHash, DefaultPerm};
use crate::laws::{
    challenge_len,
    law_default_hash_squeezes_in_parts,
    law_draw_scalars,
    law_draw_scalars_succeeds,
    law_draw_squeezes_at_once,
    law_read_scalars_succeeds,
    law_read_takes_from_front,
    scalar_len,
};
use crate::number_laws::{
    law_big_endian_places,
    law_decimal_spells,
    law_decoded_coefficient,
    law_sample_bytes_are_most,
    law_sampled_coefficient,
    law_wire_bytes_are_fewest,
};
use crate::sho::{after_absorb, after_pop, after_squeeze, check_hint};
use crate::sponge_laws::{law_squeeze_after_absorb_is_fresh, law_squeeze_depends_on_message};
use crate::transcript::{
    absorb_units,
    draw_scalars_step,
    hint_step,
    is_hint_result,
    lemma_draw_all,
    pow_step,
    read_scalars_step,
    read_units_step,
    squeeze_units_step,
    Transcript,
};
use crate::unit::{bytes_of, units_of, Unit};
use crate::utils::{be_value, decimal, le_value};
use crate::verifier_state::{filled_with, proof_result, scalars_result, units_result};

verus! {

/// Absorbing is allowed exactly where an absorption of at least as many units is next. The units are
/// taken off it, and it is gone once none is left.
pub proof fn law_absorb_instruction(ops: Seq<Op>, count: usize)
    ensures
        after_absorb(ops, count) is Ok <==> ops.len() > 0 && (ops[0] matches Op::Absorb(length)
            && count <= length),
        after_absorb(ops, count) matches Ok(left) ==> {
            &&& ops[0] == Op::Absorb(count) ==> left == ops.skip(1)
            &&& ops[0] != Op::Absorb(count) ==> {
                &&& left.len() == ops.len()
                &&& left.skip(1) == ops.skip(1)
                &&& left[0] matches Op::Absorb(more)
                &&& ops[0] == Op::Absorb((more + count) as usize)
                &&& more + count <= usize::MAX
            }
        },
        after_absorb(ops, count) matches Err(mismatch) ==> mismatch
            == (DomainSeparatorMismatch::UnexpectedOp {
            requested: Op::Absorb(count),
            expected: if ops.len() == 0 {
                None
            } else {
                Some(ops[0])
            },
        }),
{
    if after_absorb(ops, count) is Ok {
        let left = after_absorb(ops, count)->Ok_0;
        assert(ops.drop_first() =~= ops.skip(1));
        assert(left == ops.drop_first() || left.skip(1) =~= ops.skip(1));
    }
}

/// Squeezing is allowed exactly where a squeeze of at least as many units is next. The units are
/// taken off it, and it is gone once none is left.
pub proof fn law_squeeze_instruction(ops: Seq<Op>, count: usize)
    ensures
        after_squeeze(ops, count) is Ok <==> ops.len() > 0 && (ops[0] matches Op::Squeeze(length)
            && count <= length),
        after_squeeze(ops, count) matches Ok(left) ==> {
            &&& ops[0] == Op::Squeeze(count) ==> left == ops.skip(1)
            &&& ops[0] != Op::Squeeze(count) ==> {
                &&& left.len() == ops.len()
                &&& left.skip(1) == ops.skip(1)
                &&& left[0] matches Op::Squeeze(more)
                &&& ops[0] == Op::Squeeze((more + count) as usize)
                &&& more + count <= usize::MAX
            }
        },
        after_squeeze(ops, count) matches Err(mismatch) ==> mismatch
            == (DomainSeparatorMismatch::UnexpectedOp {
            requested: Op::Squeeze(count),
            expected: if ops.len() == 0 {
                None
            } else {
                Some(ops[0])
            },
        }),
{
    if after_squeeze(ops, count) is Ok {
        let left = after_squeeze(ops, count)->Ok_0;
        assert(ops.drop_first() =~= ops.skip(1));
        assert(left == ops.drop_first() || left.skip(1) =~= ops.skip(1));
    }
}

/// A hint is allowed exactly where one is next. One instruction is gone whatever it was.
pub proof fn law_hint_instruction(ops: Seq<Op>)
    ensures
        check_hint(ops) is Ok <==> ops.len() > 0 && ops[0] == Op::Hint,
        check_hint(ops) matches Err(mismatch) ==> mismatch
            == (DomainSeparatorMismatch::UnexpectedOp {
            requested: Op::Hint,
            expected: if ops.len() == 0 {
                None
            } else {
                Some(ops[0])
            },
        }),
        ops.len() > 0 ==> after_pop(ops) == ops.skip(1),
        ops.len() == 0 ==> after_pop(ops) == ops,
{
    if ops.len() > 0 {
        assert(ops.drop_first() =~= ops.skip(1));
    }
}

/// Declaring an instruction adds its units behind all others. It is a new instruction, unless it goes
/// on with what the last one does: then the last one has so many units more.
pub proof fn law_declaring_adds_units(ops: Seq<Op>, count: usize)
    ensures
        followed_by(ops, Op::Hint) == ops.push(Op::Hint),
        ops.len() > 0 && ops.last() is Absorb && ops.last()->Absorb_0 + count <= usize::MAX ==> {
            let next = followed_by(ops, Op::Absorb(count));
            &&& next.len() == ops.len()
            &&& next.drop_last() == ops.drop_last()
            &&& next.last() == Op::Absorb((ops.last()->Absorb_0 + count) as usize)
        },
        ops.len() > 0 && ops.last() is Squeeze && ops.last()->Squeeze_0 + count <= usize::MAX ==> {
            let next = followed_by(ops, Op::Squeeze(count));
            &&& next.len() == ops.len()
            &&& next.drop_last() == ops.drop_last()
            &&& next.last() == Op::Squeeze((ops.last()->Squeeze_0 + count) as usize)
        },
        ops.len() == 0 || !(ops.last() is Absorb) ==> followed_by(ops, Op::Absorb(count))
            == ops.push(Op::Absorb(count)),
        ops.len() == 0 || !(ops.last() is Squeeze) ==> followed_by(ops, Op::Squeeze(count))
            == ops.push(Op::Squeeze(count)),
{
    assert(followed_by(ops, Op::Absorb(count)).drop_last() =~= ops.drop_last() || followed_by(
        ops,
        Op::Absorb(count),
    ) == ops.push(Op::Absorb(count)));
    assert(followed_by(ops, Op::Squeeze(count)).drop_last() =~= ops.drop_last() || followed_by(
        ops,
        Op::Squeeze(count),
    ) == ops.push(Op::Squeeze(count)));
}

/// An instruction can be declared wherever its units can be counted together with those it goes on
/// with.
pub proof fn law_can_declare(ops: Seq<Op>, count: usize)
    ensures
        can_follow(ops, Op::Hint),
        can_follow(ops, Op::Absorb(count)) <==> (ops.len() > 0 && ops.last() is Absorb
            ==> ops.last()->Absorb_0 + count <= usize::MAX),
        can_follow(ops, Op::Squeeze(count)) <==> (ops.len() > 0 && ops.last() is Squeeze
            ==> ops.last()->Squeeze_0 + count <= usize::MAX),
        is_merged(ops) <==> forall|i: int|
            0 < i < ops.len() ==> {
                &&& !(#[trigger] ops[i - 1] is Absorb && ops[i] is Absorb)
                &&& !(ops[i - 1] is Squeeze && ops[i] is Squeeze)
            },
{
    assert forall|i: int| 0 < i < ops.len() implies (joins(#[trigger] ops[i - 1], ops[i]) <==> {
        ||| ops[i - 1] is Absorb && ops[i] is Absorb
        ||| ops[i - 1] is Squeeze && ops[i] is Squeeze
    }) by {}
}

/// An instruction with a count is written as the separator, its letter, the decimal digits of the
/// count, and its label, which holds no separator and does not start with a digit.
pub proof fn law_declaration_spells_instruction(letter: u8, count: nat, label: Seq<u8>)
    ensures
        SEP_BYTE == 0,
        ABSORB_LETTER == 65,
        SQUEEZE_LETTER == 83,
        HINT_LETTER == 72,
        ({
            let written = counted(letter, count, label);
            let digits = (written.len() - 2 - label.len()) as int;
            &&& digits > 0
            &&& written[0] == 0
            &&& written[1] == letter
            &&& written.skip(2 + digits) == label
            &&& written.subrange(2, 2 + digits).fold_left(
                0int,
                |total: int, digit: u8| 10 * total + (digit - 48),
            ) == count
            &&& forall|i: int| 2 <= i < 2 + digits ==> 48 <= #[trigger] written[i] <= 57
            &&& written[2] == 48 ==> digits == 1
        }),
        is_label(label) <==> {
            &&& forall|i: int| 0 <= i < label.len() ==> #[trigger] label[i] != 0
            &&& label.len() > 0 ==> label[0] < 48 || label[0] > 57
        },
{
    let written = counted(letter, count, label);
    let digits = decimal(count);
    law_decimal_spells(count);
    assert(written.subrange(2, 2 + digits.len() as int) =~= digits);
    assert(written.skip(2 + digits.len() as int) =~= label);
    assert forall|i: int| 2 <= i < 2 + digits.len() implies 48 <= #[trigger] written[i] <= 57 by {
        assert(written[i] == digits[i - 2]);
    }
    if label.contains(SEP_BYTE) {
        let i = choose|i: int| 0 <= i < label.len() && label[i] == SEP_BYTE;
        assert(label[i] == 0);
    }
    assert forall|i: int| 0 <= i < label.len() && !label.contains(SEP_BYTE) implies
        #[trigger] label[i] != 0 by {
        if label[i] == SEP_BYTE {
            assert(label.contains(SEP_BYTE));
        }
    }
}

/// What is declared for scalars is as many bytes as their coefficients take: on the wire the fewest
/// that hold the bits of the order, as a challenge as many as 128 bits more than these fill.
pub proof fn law_declared_lengths<Perm, U, const WIDTH: usize, const D: usize>(
    field: BaseField,
    count: nat,
    wire: nat,
    sample: nat,
)
    requires
        field.spec_bits() <= 8 * wire < field.spec_bits() + 8,
        8 * sample <= field.spec_bits() + 128 < 8 * sample + 8,
    ensures
        DomainSeparator::<Perm, U, WIDTH, D>::scalars_len(field, count) == count * (D * wire),
        DomainSeparator::<Perm, U, WIDTH, D>::challenges_len(field, count) == count * (D * sample),
{
    law_wire_bytes_are_fewest(field.spec_bits());
    law_sample_bytes_are_most(field.spec_bits());
}

/// Absorbing units: where it is allowed, the sponge absorbs just these; where not, no instruction is
/// left. The NARG string is left alone.
pub proof fn law_absorb_units<
    H: DuplexSpongeInterface<Perm, U, WIDTH>,
    Perm: Clone,
    U: Unit,
    const WIDTH: usize,
>(t: Transcript<Perm, U>, units: Seq<U>)
    requires
        units.len() <= usize::MAX,
    ensures
        ({
            let (after, result) = absorb_units::<H, Perm, U, WIDTH>(t, units);
            let count = units.len() as usize;
            &&& after.narg == t.narg
            &&& result is Ok <==> t.ops.len() > 0 && (t.ops[0] matches Op::Absorb(length)
                && count <= length)
            &&& result is Ok ==> {
                &&& after.sponge == H::absorbed(t.sponge, units)
                &&& after_absorb(t.ops, count) == Ok::<Seq<Op>, DomainSeparatorMismatch>(after.ops)
            }
            &&& result matches Err(mismatch) ==> {
                &&& after.sponge == t.sponge
                &&& after.ops.len() == 0
                &&& mismatch == (DomainSeparatorMismatch::UnexpectedOp {
                    requested: Op::Absorb(count),
                    expected: if t.ops.len() == 0 {
                        None
                    } else {
                        Some(t.ops[0])
                    },
                })
            }
        }),
{
    law_absorb_instruction(t.ops, units.len() as usize);
}

/// Reading units: they are those of the first bytes of the NARG string, one each, in order. They are
/// absorbed, and the bytes are gone. Where the NARG string is too short, nothing happens.
pub proof fn law_read_units<
    H: DuplexSpongeInterface<Perm, U, WIDTH>,
    Perm: Clone,
    U: Unit,
    const WIDTH: usize,
>(t: Transcript<Perm, U>, count: nat)
    requires
        count <= usize::MAX,
    ensures
        ({
            let (after, result) = read_units_step::<H, Perm, U, WIDTH>(t, count);
            let allowed = t.ops.len() > 0 && (t.ops[0] matches Op::Absorb(length)
                && count <= length);
            &&& result is Ok <==> count <= t.narg.len() && allowed
            &&& result matches Ok(units) ==> {
                &&& units.len() == count
                &&& forall|i: int| 0 <= i < count ==> #[trigger] units[i] == U::of_byte(t.narg[i])
                &&& after.sponge == H::absorbed(t.sponge, units)
                &&& after.narg == t.narg.skip(count as int)
                &&& after_absorb(t.ops, count as usize) == Ok::<Seq<Op>, DomainSeparatorMismatch>(
                    after.ops,
                )
            }
            &&& t.narg.len() < count ==> {
                &&& after == t
                &&& result == Err::<Seq<U>, DomainSeparatorMismatch>(
                    DomainSeparatorMismatch::TranscriptExhausted {
                        got: t.narg.len() as usize,
                        need: count as usize,
                    },
                )
            }
            &&& count <= t.narg.len() && !allowed ==> {
                &&& after.ops.len() == 0
                &&& after.sponge == t.sponge
                &&& after.narg == t.narg.skip(count as int)
                &&& result == Err::<Seq<U>, DomainSeparatorMismatch>(
                    DomainSeparatorMismatch::UnexpectedOp {
                        requested: Op::Absorb(count as usize),
                        expected: if t.ops.len() == 0 {
                            None
                        } else {
                            Some(t.ops[0])
                        },
                    },
                )
            }
        }),
{
    if count <= t.narg.len() {
        let units = units_of::<U>(t.narg.take(count as int));
        let rest = Transcript { narg: t.narg.skip(count as int), ..t };
        law_absorb_units::<H, Perm, U, WIDTH>(rest, units);
    }
}

/// Drawing units: they are what the sponge squeezes, and the NARG string is left alone. Where it is
/// not allowed, no instruction is left.
pub proof fn law_squeeze_units<
    H: DuplexSpongeInterface<Perm, U, WIDTH>,
    Perm: Clone,
    U: Unit,
    const WIDTH: usize,
>(t: Transcript<Perm, U>, count: nat)
    requires
        count <= usize::MAX,
    ensures
        ({
            let (after, result) = squeeze_units_step::<H, Perm, U, WIDTH>(t, count);
            &&& after.narg == t.narg
            &&& result is Ok <==> t.ops.len() > 0 && (t.ops[0] matches Op::Squeeze(length)
                && count <= length)
            &&& result matches Ok(units) ==> {
                &&& (after.sponge, units) == H::squeezed(t.sponge, count)
                &&& after_squeeze(t.ops, count as usize) == Ok::<Seq<Op>, DomainSeparatorMismatch>(
                    after.ops,
                )
            }
            &&& result matches Err(mismatch) ==> {
                &&& after.sponge == t.sponge
                &&& after.ops.len() == 0
                &&& mismatch == (DomainSeparatorMismatch::UnexpectedOp {
                    requested: Op::Squeeze(count as usize),
                    expected: if t.ops.len() == 0 {
                        None
                    } else {
                        Some(t.ops[0])
                    },
                })
            }
        }),
{
    law_squeeze_instruction(t.ops, count as usize);
}

/// With the default hash, a challenge that follows a message comes from a fresh permutation of the
/// cells that hold the message, whatever was drawn before.
pub proof fn law_challenge_depends_on_message(
    t: Transcript<DefaultPerm, u8>,
    count: nat,
    drawn: nat,
    i: int,
)
    requires
        count <= usize::MAX,
        drawn <= usize::MAX,
        0 <= i < drawn,
        i < 136,
        read_units_step::<DefaultHash, DefaultPerm, u8, 200>(t, count).1 is Ok,
        squeeze_units_step::<DefaultHash, DefaultPerm, u8, 200>(
            read_units_step::<DefaultHash, DefaultPerm, u8, 200>(t, count).0,
            drawn,
        ).1 is Ok,
    ensures
        ({
            let read = read_units_step::<DefaultHash, DefaultPerm, u8, 200>(t, count).0;
            let challenge = squeeze_units_step::<DefaultHash, DefaultPerm, u8, 200>(
                read,
                drawn,
            ).1->Ok_0;
            let message = t.narg.take(count as int);
            let pos = t.sponge.absorb_pos as int;
            &&& challenge[i] == keccak_f(DefaultHash::absorbed(t.sponge, message).cells)[i]
            &&& t.sponge.cells.len() == 200 && pos + count <= 136 ==> challenge[i] == keccak_f(
                t.sponge.cells.take(pos) + message + t.sponge.cells.skip(pos + count),
            )[i]
        }),
{
    let message = t.narg.take(count as int);
    law_read_units::<DefaultHash, DefaultPerm, u8, 200>(t, count);
    let (read, units) = read_units_step::<DefaultHash, DefaultPerm, u8, 200>(t, count);
    assert(units->Ok_0 =~= message);
    law_squeeze_units::<DefaultHash, DefaultPerm, u8, 200>(read, drawn);
    law_squeeze_after_absorb_is_fresh(t.sponge, message, drawn, i);
    if t.sponge.cells.len() == 200 && t.sponge.absorb_pos + count <= 136 {
        law_squeeze_depends_on_message(t.sponge, message, drawn, i);
    }
}

/// Reading a hint: the first four bytes of the NARG string are its length, the first worth the least,
/// and so many bytes behind them are its data. The sponge sees none of it.
pub proof fn law_hint_bytes<Perm, U>(t: Transcript<Perm, U>)
    requires
        t.narg.len() <= usize::MAX,
    ensures
        ({
            let (after, result) = hint_step(t);
            let expected = t.ops.len() > 0 && t.ops[0] == Op::Hint;
            let need = t.narg[0] + 0x100 * t.narg[1] + 0x1_0000 * t.narg[2] + 0x100_0000
                * t.narg[3];
            &&& after.sponge == t.sponge
            &&& t.ops.len() > 0 ==> after.ops == t.ops.skip(1)
            &&& t.ops.len() == 0 ==> after.ops.len() == 0
            &&& result is Ok <==> expected && t.narg.len() >= 4 && t.narg.len() - 4 >= need
            &&& result matches Ok(data) ==> {
                &&& data == t.narg.subrange(4, 4 + need)
                &&& after.narg == t.narg.skip(4 + need)
            }
            &&& result matches Err(mismatch) ==> {
                &&& after.narg == t.narg
                &&& mismatch == if !expected {
                    DomainSeparatorMismatch::UnexpectedOp {
                        requested: Op::Hint,
                        expected: if t.ops.len() == 0 {
                            None
                        } else {
                            Some(t.ops[0])
                        },
                    }
                } else if t.narg.len() < 4 {
                    DomainSeparatorMismatch::HintLengthMissing
                } else {
                    DomainSeparatorMismatch::HintTruncated {
                        got: (t.narg.len() - 4) as usize,
                        need: need as usize,
                    }
                }
            }
        }),
{
    law_hint_instruction(t.ops);
    if t.narg.len() >= 4 {
        let prefix = t.narg.take(4);
        let need = t.narg[0] + 0x100 * t.narg[1] + 0x1_0000 * t.narg[2] + 0x100_0000 * t.narg[3];
        reveal_with_fuel(le_value, 5);
        assert(prefix.drop_first().drop_first().drop_first().drop_first().len() == 0);
        assert(le_value(prefix) == need);
        let rest = t.narg.skip(4);
        if rest.len() >= need {
            assert(rest.take(need) =~= t.narg.subrange(4, 4 + need));
            assert(rest.skip(need) =~= t.narg.skip(4 + need));
        }
    }
}

/// The value of a hint is what the decoder returns for a slice of exactly the data of the hint, and
/// the error of decoding where the decoder returns one.
pub(crate) proof fn law_hint_decodes_its_data<Perm, U, T: DeserializeOwned>(
    t: Transcript<Perm, U>,
    result: ProofResult<T>,
)
    requires
        t.narg.len() <= usize::MAX,
        is_hint_result(hint_step(t).1, result),
    ensures
        ({
            let need = t.narg[0] + 0x100 * t.narg[1] + 0x1_0000 * t.narg[2] + 0x100_0000
                * t.narg[3];
            let held = {
                &&& t.ops.len() > 0
                &&& t.ops[0] == Op::Hint
                &&& t.narg.len() >= 4
                &&& t.narg.len() - 4 >= need
            };
            &&& held ==> exists|slice: &[u8], decoded: Result<T, DecodeError>|
                {
                    &&& slice@ == t.narg.subrange(4, 4 + need)
                    &&& #[trigger] call_ensures(decode_value::<T>, (slice,), decoded)
                    &&& decoded matches Ok(value) ==> result == Ok::<T, ProofError>(value)
                    &&& decoded is Err ==> result == Err::<T, ProofError>(
                        ProofError::SerializationError,
                    )
                }
            &&& !held ==> hint_step(t).1 is Err && result == Err::<T, ProofError>(
                ProofError::InvalidDomainSeparator(hint_step(t).1->Err_0),
            )
        }),
{
    law_hint_bytes(t);
    if hint_step(t).1 is Ok {
        let data = hint_step(t).1->Ok_0;
        let decoded = choose|decoded: Result<T, DecodeError>| #[trigger]
            decodes_to(data, decoded) && result == spec_hint_value(decoded);
        law_decodes_whole_data(data, decoded);
        let slice = choose|slice: &[u8]|
            slice@ == data && #[trigger] call_ensures(decode_value::<T>, (slice,), decoded);
        assert(call_ensures(decode_value::<T>, (slice,), decoded));
    }
}

/// A proof of work is over what the sponge squeezes, 32 units, and the number that the first eight
/// bytes of the NARG string spell, the first worth the most.
pub proof fn law_pow<
    H: DuplexSpongeInterface<Perm, U, WIDTH>,
    Perm: Clone,
    U: Unit,
    const WIDTH: usize,
>(t: Transcript<Perm, U>)
    ensures
        ({
            let (after, result) = pow_step::<H, Perm, U, WIDTH>(t);
            let challenge = H::squeezed(t.sponge, 32).1;
            result matches Ok(drawn) ==> {
                &&& t.narg.len() >= 8
                &&& drawn.0 == challenge
                &&& drawn.1.len() == 8
                &&& forall|i: int| 0 <= i < 8 ==> #[trigger] drawn.1[i] == U::of_byte(t.narg[i])
                &&& bytes_of(drawn.0) == Seq::new(
                    challenge.len(),
                    |i: int| challenge[i].as_byte(),
                )
                &&& be_value(bytes_of(drawn.1)) == Seq::new(
                    8,
                    |k: int| t.narg[k] as int * pow(256, (7 - k) as nat),
                ).fold_left(0int, |total: int, term: int| total + term)
                &&& after.narg == t.narg.skip(8)
                &&& after.sponge == H::absorbed(H::squeezed(t.sponge, 32).0, drawn.1)
            }
        }),
        ({
            let drawn = squeeze_units_step::<H, Perm, U, WIDTH>(t, 32);
            let read = read_units_step::<H, Perm, U, WIDTH>(drawn.0, 8);
            let (after, result) = pow_step::<H, Perm, U, WIDTH>(t);
            &&& result is Ok <==> drawn.1 is Ok && read.1 is Ok
            &&& drawn.1 matches Err(mismatch) ==> after == drawn.0 && result == Err::<
                (Seq<U>, Seq<U>),
                DomainSeparatorMismatch,
            >(mismatch)
            &&& drawn.1 is Ok ==> after == read.0
            &&& drawn.1 is Ok && read.1 is Err ==> result == Err::<
                (Seq<U>, Seq<U>),
                DomainSeparatorMismatch,
            >(read.1->Err_0)
        }),
{
    law_squeeze_units::<H, Perm, U, WIDTH>(t, 32);
    let drawn = squeeze_units_step::<H, Perm, U, WIDTH>(t, 32).0;
    law_read_units::<H, Perm, U, WIDTH>(drawn, 8);
    let (after, result) = pow_step::<H, Perm, U, WIDTH>(t);
    if result is Ok {
        let (challenge, nonce) = result->Ok_0;
        let bytes = bytes_of(nonce);
        assert forall|i: int| 0 <= i < 8 implies #[trigger] bytes[i] == t.narg[i] by {
            U::lemma_byte_round_trip(t.narg[i]);
            assert(nonce[i] == U::of_byte(t.narg[i]));
        }
        law_big_endian_places(bytes);
        assert(Seq::new(bytes.len(), |k: int| bytes[k] as int * pow(256, (bytes.len() - 1 - k) as nat))
            =~= Seq::new(8, |k: int| t.narg[k] as int * pow(256, (7 - k) as nat)));
        assert(bytes_of(challenge) =~= Seq::new(
            challenge.len(),
            |i: int| challenge[i].as_byte(),
        ));
    }
}

/// Scalars that are read come from the NARG string: coefficient `j` of scalar `i` is the
/// little-endian number of its own bytes, counted from the front, modulo the order of the field.
pub proof fn law_read_scalar_values<
    H: DuplexSpongeInterface<Perm, U, WIDTH>,
    Perm: Clone,
    U: Unit,
    const WIDTH: usize,
>(t: Transcript<Perm, U>, field: BaseField, degree: nat, count: nat, i: int, j: int)
    requires
        field.wf(),
        read_scalars_step::<H, Perm, U, WIDTH>(t, field, degree, count).2 is Ok,
        0 <= i < count,
        0 <= j < degree,
    ensures
        ({
            let n = field.spec_num_bytes() as nat;
            let (after, done, _) = read_scalars_step::<H, Perm, U, WIDTH>(t, field, degree, count);
            &&& done.len() == count
            &&& done[i].len() == degree
            &&& done[i][j] < field.spec_order()
            &&& done[i][j] == Seq::new(
                n,
                |k: int| t.narg[i * (degree * n) + j * n + k] as int * pow(256, k as nat),
            ).fold_left(0int, |total: int, term: int| total + term) % field.spec_order() as int
            &&& after.narg == t.narg.skip((count * (degree * n)) as int)
        }),
{
    let n = field.spec_num_bytes() as nat;
    let size = scalar_len(field, degree);
    let piece = chunk(t.narg, size, i);
    law_read_takes_from_front::<H, Perm, U, WIDTH>(t, field, degree, count);
    assert(0 <= i * size && i * size + size == (i + 1) * size && (i + 1) * size <= count * size)
        by (nonlinear_arith)
        requires
            0 <= i,
            i + 1 <= count,
            0 <= size,
    ;
    law_decoded_coefficient(field, degree, piece, j);
    assert forall|k: int| 0 <= k < n implies #[trigger] piece[j * n + k] == t.narg[i * size + j * n
        + k] by {
        assert(0 <= j * n + k < degree * n) by (nonlinear_arith)
            requires
                0 <= j,
                j + 1 <= degree,
                0 <= k < n,
        ;
    }
    assert(Seq::new(n, |k: int| piece[j * n + k] as int * pow(256, k as nat)) =~= Seq::new(
        n,
        |k: int| t.narg[i * (degree * n) + j * n + k] as int * pow(256, k as nat),
    ));
}

/// Scalars are read one after the other: one more scalar is one more request for its units, where all
/// before it were granted, and nothing where one was not.
pub proof fn law_reads_one_more<
    H: DuplexSpongeInterface<Perm, U, WIDTH>,
    Perm: Clone,
    U: Unit,
    const WIDTH: usize,
>(t: Transcript<Perm, U>, field: BaseField, degree: nat, count: nat)
    ensures
        read_scalars_step::<H, Perm, U, WIDTH>(t, field, degree, 0) == (
            t,
            Seq::<Seq<u64>>::empty(),
            Ok::<(), DomainSeparatorMismatch>(()),
        ),
        ({
            let before = read_scalars_step::<H, Perm, U, WIDTH>(t, field, degree, count);
            let after = read_scalars_step::<H, Perm, U, WIDTH>(t, field, degree, count + 1);
            let (next, units) = read_units_step::<H, Perm, U, WIDTH>(
                before.0,
                degree * field.spec_num_bytes() as nat,
            );
            &&& before.2 is Err ==> after == before
            &&& before.2 is Ok ==> {
                &&& after.0 == next
                &&& units is Ok <==> after.2 is Ok
                &&& units is Ok ==> after.1.len() == before.1.len() + 1 && after.1.drop_last()
                    == before.1
                &&& units matches Err(mismatch) ==> after.1 == before.1 && after.2 == Err::<
                    (),
                    DomainSeparatorMismatch,
                >(mismatch)
            }
        }),
{
    let before = read_scalars_step::<H, Perm, U, WIDTH>(t, field, degree, count);
    let after = read_scalars_step::<H, Perm, U, WIDTH>(t, field, degree, count + 1);
    assert((count + 1 - 1) as nat == count);
    if before.2 is Ok && after.2 is Ok {
        assert(after.1.drop_last() =~= before.1);
    }
}

/// Scalars are read exactly where the NARG string holds them and one absorption has room for all.
pub proof fn law_read_scalars_granted<
    H: DuplexSpongeInterface<Perm, U, WIDTH>,
    Perm: Clone,
    U: Unit,
    const WIDTH: usize,
>(t: Transcript<Perm, U>, field: BaseField, degree: nat, count: nat)
    requires
        is_merged(t.ops),
        field.wf(),
        degree > 0,
        t.narg.len() <= usize::MAX,
    ensures
        ({
            let total = count * (degree * field.spec_num_bytes());
            read_scalars_step::<H, Perm, U, WIDTH>(t, field, degree, count).2 is Ok <==> {
                ||| count == 0
                ||| {
                    &&& total <= t.narg.len()
                    &&& t.ops.len() > 0
                    &&& (t.ops[0] matches Op::Absorb(length) && total <= length)
                }
            }
        }),
{
    let size = scalar_len(field, degree);
    assert(0 < size) by (nonlinear_arith)
        requires
            size == degree * field.spec_num_bytes() as nat,
            degree > 0,
            field.spec_num_bytes() > 0,
    ;
    law_read_scalars_succeeds::<H, Perm, U, WIDTH>(t, field, degree, count);
    assert(0 <= count * size) by (nonlinear_arith)
        requires
            0 <= count,
            0 < size,
    ;
    if count * size <= t.narg.len() {
        law_absorb_instruction(t.ops, (count * size) as usize);
    }
}

/// Scalars are drawn one after the other. One more scalar is one more squeeze, of whole coefficients:
/// coefficient `j` is the big-endian number of its own squeezed bytes, modulo the order of the field.
pub proof fn law_draws_one_more<
    H: DuplexSpongeInterface<Perm, U, WIDTH>,
    Perm: Clone,
    U: Unit,
    const WIDTH: usize,
>(t: Transcript<Perm, U>, field: BaseField, degree: nat, count: nat, j: int)
    requires
        field.wf(),
        degree * field.spec_uniform_bytes() <= usize::MAX,
        0 <= j < degree,
    ensures
        draw_scalars_step::<H, Perm, U, WIDTH>(t, field, degree, 0) == (
            t,
            Seq::<Seq<u64>>::empty(),
            Ok::<(), DomainSeparatorMismatch>(()),
        ),
        ({
            let n = field.spec_uniform_bytes();
            let before = draw_scalars_step::<H, Perm, U, WIDTH>(t, field, degree, count);
            let after = draw_scalars_step::<H, Perm, U, WIDTH>(t, field, degree, count + 1);
            let (next, granted) = squeeze_units_step::<H, Perm, U, WIDTH>(before.0, degree * n);
            let (sponge, units) = H::squeezed(before.0.sponge, degree * n);
            &&& before.2 is Err ==> after == before
            &&& before.2 is Ok ==> {
                &&& after.0 == next
                &&& granted is Ok <==> after.2 is Ok
                &&& granted matches Err(mismatch) ==> after.1 == before.1 && after.2 == Err::<
                    (),
                    DomainSeparatorMismatch,
                >(mismatch)
                &&& granted is Ok ==> {
                    &&& after.0.sponge == sponge
                    &&& after.1.len() == count + 1
                    &&& after.1.drop_last() == before.1
                    &&& after.1[count as int].len() == degree
                    &&& units.len() == degree * n ==> {
                        &&& after.1[count as int][j] < field.spec_order()
                        &&& after.1[count as int][j] == Seq::new(
                            n,
                            |k: int| units[j * n + k].as_byte() as int * pow(
                                256,
                                (n - 1 - k) as nat,
                            ),
                        ).fold_left(0int, |total: int, term: int| total + term)
                            % field.spec_order() as int
                    }
                }
            }
        }),
{
    let n = field.spec_uniform_bytes();
    let before = draw_scalars_step::<H, Perm, U, WIDTH>(t, field, degree, count);
    let after = draw_scalars_step::<H, Perm, U, WIDTH>(t, field, degree, count + 1);
    assert((count + 1 - 1) as nat == count);
    lemma_draw_all::<H, Perm, U, WIDTH>(t, field, degree, count);
    law_squeeze_units::<H, Perm, U, WIDTH>(before.0, degree * n);
    if before.2 is Ok && after.2 is Ok {
        let units = H::squeezed(before.0.sponge, degree * n).1;
        let bytes = bytes_of(units);
        assert(after.1.drop_last() =~= before.1);
        if units.len() == degree * n {
            law_sampled_coefficient(field, degree, bytes, j);
            assert forall|k: int| 0 <= k < n implies #[trigger] bytes[j * n + k] == units[j * n
                + k].as_byte() by {
                assert(0 <= j * n + k < degree * n) by (nonlinear_arith)
                    requires
                        0 <= j,
                        j + 1 <= degree,
                        0 <= k < n,
                ;
            }
            assert(Seq::new(n, |k: int| bytes[j * n + k] as int * pow(256, (n - 1 - k) as nat))
                =~= Seq::new(
                n,
                |k: int| units[j * n + k].as_byte() as int * pow(256, (n - 1 - k) as nat),
            ));
        }
    }
}

/// With the default hash, scalars that are drawn come from one squeeze: coefficient `j` of scalar `i`
/// is the big-endian number of its own squeezed bytes, modulo the order of the field.
pub proof fn law_default_hash_drawn_values(
    t: Transcript<DefaultPerm, u8>,
    field: BaseField,
    degree: nat,
    count: nat,
    i: int,
    j: int,
)
    requires
        field.wf(),
        0 <= i < count,
        0 <= j < degree,
        t.ops.len() > 0,
        t.ops[0] is Squeeze,
        count * (degree * field.spec_uniform_bytes()) <= t.ops[0]->Squeeze_0,
    ensures
        ({
            let n = field.spec_uniform_bytes();
            let bytes = DefaultHash::squeezed(t.sponge, count * (degree * n)).1;
            let (after, done, result) = draw_scalars_step::<DefaultHash, DefaultPerm, u8, 200>(
                t,
                field,
                degree,
                count,
            );
            &&& result is Ok
            &&& after.narg == t.narg
            &&& after.sponge == DefaultHash::squeezed(t.sponge, count * (degree * n)).0
            &&& done.len() == count
            &&& done[i].len() == degree
            &&& done[i][j] < field.spec_order()
            &&& done[i][j] == Seq::new(
                n,
                |k: int|
                    bytes[i * (degree * n) + j * n + k] as int * pow(256, (n - 1 - k) as nat),
            ).fold_left(0int, |total: int, term: int| total + term) % field.spec_order() as int
        }),
{
    let n = field.spec_uniform_bytes();
    let size = challenge_len(field, degree);
    let bytes = DefaultHash::squeezed(t.sponge, count * size).1;
    let piece = chunk(bytes, size, i);
    assert(0 < size) by (nonlinear_arith)
        requires
            size == degree * n,
            degree > 0,
            n > 0,
    ;
    assert(0 <= i * size && i * size + size == (i + 1) * size && (i + 1) * size <= count * size)
        by (nonlinear_arith)
        requires
            0 <= i,
            i + 1 <= count,
            0 < size,
    ;
    law_squeeze_instruction(t.ops, (count * size) as usize);
    law_default_hash_squeezes_in_parts();
    law_draw_scalars::<DefaultHash, DefaultPerm, u8, 200>(t, field, degree, count);
    law_draw_squeezes_at_once::<DefaultHash, DefaultPerm, u8, 200>(t, field, degree, count);
    assert(bytes_of(bytes) =~= bytes);
    law_sampled_coefficient(field, degree, piece, j);
    assert forall|k: int| 0 <= k < n implies #[trigger] piece[j * n + k] == bytes[i * size + j * n
        + k] by {
        assert(0 <= j * n + k < degree * n) by (nonlinear_arith)
            requires
                0 <= j,
                j + 1 <= degree,
                0 <= k < n,
        ;
    }
    assert(Seq::new(n, |k: int| piece[j * n + k] as int * pow(256, (n - 1 - k) as nat))
        =~= Seq::new(
        n,
        |k: int| bytes[i * (degree * n) + j * n + k] as int * pow(256, (n - 1 - k) as nat),
    ));
}

/// Scalars are drawn exactly where one squeeze has room for all.
pub proof fn law_draw_scalars_granted<
    H: DuplexSpongeInterface<Perm, U, WIDTH>,
    Perm: Clone,
    U: Unit,
    const WIDTH: usize,
>(t: Transcript<Perm, U>, field: BaseField, degree: nat, count: nat)
    requires
        is_merged(t.ops),
        degree > 0,
        count * (degree * field.spec_uniform_bytes()) <= usize::MAX,
    ensures
        ({
            let total = count * (degree * field.spec_uniform_bytes());
            draw_scalars_step::<H, Perm, U, WIDTH>(t, field, degree, count).2 is Ok <==> {
                ||| count == 0
                ||| {
                    &&& t.ops.len() > 0
                    &&& (t.ops[0] matches Op::Squeeze(length) && total <= length)
                }
            }
        }),
{
    let size = challenge_len(field, degree);
    assert(0 < size) by (nonlinear_arith)
        requires
            size == degree * field.spec_uniform_bytes(),
            degree > 0,
            field.spec_uniform_bytes() > 0,
    ;
    law_draw_scalars_succeeds::<H, Perm, U, WIDTH>(t, field, degree, count);
    assert(0 <= count * size) by (nonlinear_arith)
        requires
            0 <= count,
            0 < size,
    ;
    law_squeeze_instruction(t.ops, (count * size) as usize);
}

/// A result of units holds just the units of the outcome, and a refusal its mismatch.
pub proof fn law_units_result<U, const N: usize>(
    result: Result<[U; N], DomainSeparatorMismatch>,
    outcome: Result<Seq<U>, DomainSeparatorMismatch>,
)
    requires
        units_result(result, outcome),
    ensures
        result is Ok <==> outcome is Ok,
        result matches Ok(array) ==> array@ == outcome->Ok_0,
        result matches Err(mismatch) ==> mismatch == outcome->Err_0,
{
}

/// A result of scalars holds just the coefficients of the scalars, and a refusal its mismatch.
pub proof fn law_scalars_result<const D: usize, const N: usize>(
    result: ProofResult<[Scalar<D>; N]>,
    done: Seq<Seq<u64>>,
    outcome: Result<(), DomainSeparatorMismatch>,
)
    requires
        scalars_result(result, done, outcome),
    ensures
        result is Ok <==> outcome is Ok,
        result matches Ok(array) ==> done.len() == N && forall|i: int|
            0 <= i < N ==> (#[trigger] array@[i]).coeffs@ == done[i],
        result matches Err(error) ==> error == ProofError::InvalidDomainSeparator(
            outcome->Err_0,
        ),
{
    if result is Ok {
        let array = result->Ok_0;
        assert forall|i: int| 0 <= i < N implies (#[trigger] array@[i]).coeffs@ == done[i] by {
            assert(coeffs_of(array@)[i] == array@[i]@);
        }
    }
}

/// What is filled with scalars holds their coefficients in front, and what it held before behind
/// them.
pub proof fn law_filled_with<const D: usize>(
    before: Seq<Scalar<D>>,
    after: Seq<Scalar<D>>,
    done: Seq<Seq<u64>>,
    outcome: Result<(), DomainSeparatorMismatch>,
)
    requires
        filled_with(before, after, done),
    ensures
        after.len() == before.len(),
        done.len() <= before.len(),
        forall|i: int| 0 <= i < done.len() ==> (#[trigger] after[i]).coeffs@ == done[i],
        after.skip(done.len() as int) == before.skip(done.len() as int),
        proof_result(outcome) is Ok <==> outcome is Ok,
        proof_result(outcome) matches Err(error) ==> error == ProofError::InvalidDomainSeparator(
            outcome->Err_0,
        ),
{
    assert(after.skip(done.len() as int) =~= before.skip(done.len() as int));
    assert forall|i: int| 0 <= i < done.len() implies (#[trigger] after[i]).coeffs@ == done[i] by {
        assert(after[i]@ == done[i]);
    }
}

/// The coefficients of scalars are theirs, one for one.
pub proof fn law_coefficients_of<const D: usize>(scalars: Seq<Scalar<D>>)
    ensures
        coeffs_of(scalars).len() == scalars.len(),
        forall|i: int|
            0 <= i < scalars.len() ==> #[trigger] coeffs_of(scalars)[i] == scalars[i].coeffs@,
{
}

/// Units stand for bytes one for one, and a byte as a unit is the byte itself.
pub proof fn law_units_of_bytes<U: Unit>(bytes: Seq<u8>, units: Seq<U>)
    ensures
        units_of::<U>(bytes) == Seq::new(bytes.len(), |i: int| U::of_byte(bytes[i])),
        bytes_of(units) == Seq::new(units.len(), |i: int| units[i].as_byte()),
        units_of::<u8>(bytes) == bytes,
        bytes_of::<u8>(bytes) == bytes,
{
    assert(units_of::<U>(bytes) =~= Seq::new(bytes.len(), |i: int| U::of_byte(bytes[i])));
    assert(bytes_of(units) =~= Seq::new(units.len(), |i: int| units[i].as_byte()));
    assert(units_of::<u8>(bytes) =~= bytes);
    assert(bytes_of::<u8>(bytes) =~= bytes);
}

} // verus!
