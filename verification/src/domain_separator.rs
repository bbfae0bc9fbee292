//! The declaration of a protocol: what it absorbs, squeezes and hints, in which order.

use std::collections::VecDeque;
use std::marker::PhantomData;

use vstd::prelude::*;
use vstd::string::StringSliceAdditionalSpecFns;

use crate::field::BaseField;
use crate::utils::{
    bytes_modp,
    bytes_uniform_modp,
    decimal,
    push_decimal,
    spec_bytes_modp,
};

verus! {

/// One instruction of a protocol.
#[derive(Clone, Copy, Debug, PartialEq, Eq, Structural)]
pub enum Op {
    /// So many units are absorbed.
    Absorb(usize),
    /// So many units are squeezed.
    Squeeze(usize),
    /// Data is read that the sponge does not see.
    Hint,
}

/// The byte in front of each instruction.
pub const SEP_BYTE: u8 = 0;

/// The ASCII letter of an absorption.
pub const ABSORB_LETTER: u8 = 65;

/// The ASCII letter of a squeeze.
pub const SQUEEZE_LETTER: u8 = 83;

/// The ASCII letter of a hint.
pub const HINT_LETTER: u8 = 72;

/// The bytes that one coefficient of a challenge takes at most.
pub const MAX_UNIFORM_BYTES: usize = 24;

/// Whether `op` goes on with what `last` does, so that the two are one instruction.
pub open spec fn joins(last: Op, op: Op) -> bool {
    match (last, op) {
        (Op::Absorb(_), Op::Absorb(_)) => true,
        (Op::Squeeze(_), Op::Squeeze(_)) => true,
        _ => false,
    }
}

/// The number of units of an instruction.
pub open spec fn units(op: Op) -> int {
    match op {
        Op::Absorb(count) => count as int,
        Op::Squeeze(count) => count as int,
        Op::Hint => 0,
    }
}

/// The instructions `ops` and then `op`. Absorbing twice in a row is one longer absorption, and so
/// with squeezing.
pub open spec fn followed_by(ops: Seq<Op>, op: Op) -> Seq<Op> {
    if ops.len() > 0 && joins(ops.last(), op) {
        ops.drop_last().push(
            match op {
                Op::Absorb(count) => Op::Absorb((units(ops.last()) + count) as usize),
                Op::Squeeze(count) => Op::Squeeze((units(ops.last()) + count) as usize),
                Op::Hint => Op::Hint,
            },
        )
    } else {
        ops.push(op)
    }
}

/// Whether the units of `ops` and then `op` can be counted in a machine word.
pub open spec fn can_follow(ops: Seq<Op>, op: Op) -> bool {
    ops.len() > 0 && joins(ops.last(), op) ==> units(ops.last()) + units(op) <= usize::MAX
}

/// Whether no instruction could be one with its neighbour.
pub open spec fn is_merged(ops: Seq<Op>) -> bool {
    forall|i: int| 0 < i < ops.len() ==> !joins(#[trigger] ops[i - 1], ops[i])
}

/// Whether `label` can stand behind a count: it holds no separator and does not start with a digit.
pub open spec fn is_label(label: Seq<u8>) -> bool {
    &&& !label.contains(SEP_BYTE)
    &&& label.len() > 0 ==> !(48 <= label[0] <= 57)
}

/// An instruction as it is written into the declaration.
pub open spec fn counted(letter: u8, count: nat, label: Seq<u8>) -> Seq<u8> {
    seq![SEP_BYTE, letter] + decimal(count) + label
}

/// The declaration of a protocol whose scalars are of degree `D` over a base field.
#[derive(Debug)]
pub struct DomainSeparator<Perm, U, const WIDTH: usize, const D: usize> {
    io: Vec<u8>,
    ops: Vec<Op>,
    field: BaseField,
    perm: Perm,
    _unit: PhantomData<U>,
}

impl<Perm, U, const WIDTH: usize, const D: usize> DomainSeparator<Perm, U, WIDTH, D> {
    /// The declaration in bytes, which the sponge is started with.
    pub closed spec fn declaration(self) -> Seq<u8> {
        self.io@
    }

    /// The instructions of the protocol.
    pub closed spec fn spec_ops(self) -> Seq<Op> {
        self.ops@
    }

    /// The base field of the scalars.
    pub closed spec fn spec_field(self) -> BaseField {
        self.field
    }

    /// The permutation of the sponge.
    pub closed spec fn spec_perm(self) -> Perm {
        self.perm
    }

    /// The field is one, the bytes of a scalar can be counted in a machine word, and the
    /// instructions are merged.
    pub open spec fn wf(self) -> bool {
        &&& self.spec_field().wf()
        &&& D * MAX_UNIFORM_BYTES <= usize::MAX
        &&& is_merged(self.spec_ops())
    }

    /// The protocol named `session`, without instructions.
    pub fn new(session: &str, field: BaseField, perm: Perm) -> (domsep: Self)
        requires
            field.wf(),
            D * MAX_UNIFORM_BYTES <= usize::MAX,
            !session.spec_bytes().contains(SEP_BYTE),
        ensures
            domsep.wf(),
            domsep.declaration() == session.spec_bytes(),
            domsep.spec_ops() == Seq::<Op>::empty(),
            domsep.spec_field() == field,
            domsep.spec_perm() == perm,
    {
        let mut io: Vec<u8> = Vec::new();
        io.extend_from_slice(session.as_bytes());
        DomainSeparator { io, ops: Vec::new(), field, perm, _unit: PhantomData }
    }

    /// Adds an instruction, joined with the last one where it can be.
    fn push_op(&mut self, op: Op)
        requires
            old(self).wf(),
            can_follow(old(self).spec_ops(), op),
        ensures
            final(self).wf(),
            final(self).spec_ops() == followed_by(old(self).spec_ops(), op),
            final(self).declaration() == old(self).declaration(),
            final(self).spec_field() == old(self).spec_field(),
            final(self).spec_perm() == old(self).spec_perm(),
    {
        let ghost before = self.ops@;
        let last: Option<Op> = self.ops.pop();
        let joined: Op = match (last, op) {
            (Some(Op::Absorb(done)), Op::Absorb(count)) => Op::Absorb(done + count),
            (Some(Op::Squeeze(done)), Op::Squeeze(count)) => Op::Squeeze(done + count),
            (Some(other), _) => {
                self.ops.push(other);
                assert(self.ops@ =~= before);
                op
            },
            (None, _) => op,
        };
        self.ops.push(joined);
        assert(self.ops@ =~= followed_by(before, op));
    }

    /// Writes an instruction with a count.
    fn push_counted(&mut self, letter: u8, count: usize, label: &str)
        ensures
            final(self).declaration() == old(self).declaration() + counted(
                letter,
                count as nat,
                label.spec_bytes(),
            ),
            final(self).spec_ops() == old(self).spec_ops(),
            final(self).spec_field() == old(self).spec_field(),
            final(self).spec_perm() == old(self).spec_perm(),
    {
        self.io.push(SEP_BYTE);
        self.io.push(letter);
        push_decimal(&mut self.io, count);
        self.io.extend_from_slice(label.as_bytes());
        assert(self.io@ =~= old(self).io@ + counted(letter, count as nat, label.spec_bytes()));
    }

    /// The protocol absorbs `count` units next.
    pub fn absorb(&mut self, count: usize, label: &str)
        requires
            old(self).wf(),
            count > 0,
            is_label(label.spec_bytes()),
            can_follow(old(self).spec_ops(), Op::Absorb(count)),
        ensures
            final(self).wf(),
            final(self).declaration() == old(self).declaration() + counted(
                ABSORB_LETTER,
                count as nat,
                label.spec_bytes(),
            ),
            final(self).spec_ops() == followed_by(old(self).spec_ops(), Op::Absorb(count)),
            final(self).spec_field() == old(self).spec_field(),
            final(self).spec_perm() == old(self).spec_perm(),
    {
        self.push_counted(ABSORB_LETTER, count, label);
        self.push_op(Op::Absorb(count));
    }

    /// The protocol squeezes `count` units next.
    pub fn squeeze(&mut self, count: usize, label: &str)
        requires
            old(self).wf(),
            count > 0,
            is_label(label.spec_bytes()),
            can_follow(old(self).spec_ops(), Op::Squeeze(count)),
        ensures
            final(self).wf(),
            final(self).declaration() == old(self).declaration() + counted(
                SQUEEZE_LETTER,
                count as nat,
                label.spec_bytes(),
            ),
            final(self).spec_ops() == followed_by(old(self).spec_ops(), Op::Squeeze(count)),
            final(self).spec_field() == old(self).spec_field(),
            final(self).spec_perm() == old(self).spec_perm(),
    {
        self.push_counted(SQUEEZE_LETTER, count, label);
        self.push_op(Op::Squeeze(count));
    }

    /// The protocol reads a hint next.
    pub fn hint(&mut self, label: &str)
        requires
            old(self).wf(),
            !label.spec_bytes().contains(SEP_BYTE),
        ensures
            final(self).wf(),
            final(self).declaration() == old(self).declaration() + seq![SEP_BYTE, HINT_LETTER]
                + label.spec_bytes(),
            final(self).spec_ops() == followed_by(old(self).spec_ops(), Op::Hint),
            final(self).spec_field() == old(self).spec_field(),
            final(self).spec_perm() == old(self).spec_perm(),
    {
        self.io.push(SEP_BYTE);
        self.io.push(HINT_LETTER);
        self.io.extend_from_slice(label.as_bytes());
        assert(self.io@ =~= old(self).io@ + seq![SEP_BYTE, HINT_LETTER] + label.spec_bytes());
        self.push_op(Op::Hint);
    }

    /// The number of bytes that the protocol absorbs for `count` scalars.
    pub open spec fn scalars_len(field: BaseField, count: nat) -> nat {
        count * (D as nat * spec_bytes_modp(field.spec_bits()))
    }

    /// The number of bytes that the protocol squeezes for `count` scalars.
    pub open spec fn challenges_len(field: BaseField, count: nat) -> nat {
        count * (D as nat * field.spec_uniform_bytes())
    }

    /// The protocol absorbs `count` scalars next.
    pub fn add_scalars(&mut self, count: usize, label: &str)
        requires
            old(self).wf(),
            count > 0,
            D > 0,
            is_label(label.spec_bytes()),
            Self::scalars_len(old(self).spec_field(), count as nat) <= usize::MAX,
            can_follow(
                old(self).spec_ops(),
                Op::Absorb(Self::scalars_len(old(self).spec_field(), count as nat) as usize),
            ),
        ensures
            final(self).wf(),
            ({
                let len = Self::scalars_len(old(self).spec_field(), count as nat);
                &&& final(self).declaration() == old(self).declaration() + counted(
                    ABSORB_LETTER,
                    len,
                    label.spec_bytes(),
                )
                &&& final(self).spec_ops() == followed_by(
                    old(self).spec_ops(),
                    Op::Absorb(len as usize),
                )
            }),
            final(self).spec_field() == old(self).spec_field(),
            final(self).spec_perm() == old(self).spec_perm(),
    {
        let size: usize = bytes_modp(self.field.bits());
        proof {
            lemma_sizes(D as int, size as int, count as int);
        }
        let total: usize = count * (D * size);
        self.absorb(total, label);
    }

    /// The protocol squeezes `count` scalars next.
    pub fn challenge_scalars(&mut self, count: usize, label: &str)
        requires
            old(self).wf(),
            count > 0,
            D > 0,
            is_label(label.spec_bytes()),
            Self::challenges_len(old(self).spec_field(), count as nat) <= usize::MAX,
            can_follow(
                old(self).spec_ops(),
                Op::Squeeze(Self::challenges_len(old(self).spec_field(), count as nat) as usize),
            ),
        ensures
            final(self).wf(),
            ({
                let len = Self::challenges_len(old(self).spec_field(), count as nat);
                &&& final(self).declaration() == old(self).declaration() + counted(
                    SQUEEZE_LETTER,
                    len,
                    label.spec_bytes(),
                )
                &&& final(self).spec_ops() == followed_by(
                    old(self).spec_ops(),
                    Op::Squeeze(len as usize),
                )
            }),
            final(self).spec_field() == old(self).spec_field(),
            final(self).spec_perm() == old(self).spec_perm(),
    {
        let size: usize = bytes_uniform_modp(self.field.bits());
        proof {
            lemma_sizes(D as int, size as int, count as int);
        }
        let total: usize = count * (D * size);
        self.squeeze(total, label);
    }

    /// The declaration in bytes.
    pub fn as_bytes(&self) -> (bytes: &[u8])
        ensures
            bytes@ == self.declaration(),
    {
        self.io.as_slice()
    }

    /// The base field of the scalars.
    pub fn field(&self) -> (field: BaseField)
        ensures
            field == self.spec_field(),
    {
        self.field
    }

    /// The permutation of the sponge.
    pub fn permutation(&self) -> (perm: &Perm)
        ensures
            *perm == self.spec_perm(),
    {
        &self.perm
    }

    /// The instructions, the first in front.
    pub fn finalize(&self) -> (stack: VecDeque<Op>)
        ensures
            stack@ == self.spec_ops(),
    {
        let mut stack: VecDeque<Op> = VecDeque::new();
        let mut i: usize = 0;
        while i < self.ops.len()
            invariant
                i <= self.ops@.len(),
                stack@ == self.ops@.take(i as int),
            decreases self.ops@.len() - i,
        {
            stack.push_back(self.ops[i]);
            assert(self.ops@.take(i + 1) =~= self.ops@.take(i as int).push(self.ops@[i as int]));
            i += 1;
        }
        assert(self.ops@.take(i as int) =~= self.ops@);
        stack
    }
}

/// The sizes that are multiplied to count the bytes of scalars stay in a machine word.
proof fn lemma_sizes(degree: int, size: int, count: int)
    requires
        degree > 0,
        0 < size <= MAX_UNIFORM_BYTES,
        count > 0,
        degree * MAX_UNIFORM_BYTES <= usize::MAX,
    ensures
        0 < degree * size <= usize::MAX,
        0 < count * (degree * size),
{
    assert(0 < degree * size <= degree * MAX_UNIFORM_BYTES) by (nonlinear_arith)
        requires
            degree > 0,
            0 < size <= MAX_UNIFORM_BYTES,
    ;
    assert(0 < count * (degree * size)) by (nonlinear_arith)
        requires
            count > 0,
            0 < degree * size,
    ;
}

} // verus!
