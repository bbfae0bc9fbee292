//! A sponge that only does what a protocol declares.

use std::collections::VecDeque;
use std::marker::PhantomData;

use vstd::prelude::*;

use crate::domain_separator::{is_merged, joins, DomainSeparator, Op};
use crate::duplex_sponge::{DuplexSpongeInterface, SpongeState};
use crate::errors::DomainSeparatorMismatch;
use crate::unit::{slice_from_u8_slice, units_of, Unit};

verus! {

/// The instructions that are left after absorbing `count` units, if they allow it.
pub open spec fn after_absorb(ops: Seq<Op>, count: usize) -> Result<
    Seq<Op>,
    DomainSeparatorMismatch,
> {
    if ops.len() == 0 {
        Err(DomainSeparatorMismatch::UnexpectedOp { requested: Op::Absorb(count), expected: None })
    } else {
        match ops[0] {
            Op::Absorb(length) if count < length => Ok(
                ops.update(0, Op::Absorb((length - count) as usize)),
            ),
            Op::Absorb(length) if count == length => Ok(ops.drop_first()),
            op => Err(
                DomainSeparatorMismatch::UnexpectedOp {
                    requested: Op::Absorb(count),
                    expected: Some(op),
                },
            ),
        }
    }
}

/// The instructions that are left after squeezing `count` units, if they allow it.
pub open spec fn after_squeeze(ops: Seq<Op>, count: usize) -> Result<
    Seq<Op>,
    DomainSeparatorMismatch,
> {
    if ops.len() == 0 {
        Err(DomainSeparatorMismatch::UnexpectedOp { requested: Op::Squeeze(count), expected: None })
    } else {
        match ops[0] {
            Op::Squeeze(length) if count < length => Ok(
                ops.update(0, Op::Squeeze((length - count) as usize)),
            ),
            Op::Squeeze(length) if count == length => Ok(ops.drop_first()),
            op => Err(
                DomainSeparatorMismatch::UnexpectedOp {
                    requested: Op::Squeeze(count),
                    expected: Some(op),
                },
            ),
        }
    }
}

/// Whether the instructions allow a hint.
pub open spec fn check_hint(ops: Seq<Op>) -> Result<(), DomainSeparatorMismatch> {
    if ops.len() == 0 {
        Err(DomainSeparatorMismatch::UnexpectedOp { requested: Op::Hint, expected: None })
    } else {
        match ops[0] {
            Op::Hint => Ok(()),
            op => Err(
                DomainSeparatorMismatch::UnexpectedOp { requested: Op::Hint, expected: Some(op) },
            ),
        }
    }
}

/// The instructions without the first one, if there is one.
pub open spec fn after_pop(ops: Seq<Op>) -> Seq<Op> {
    if ops.len() == 0 {
        ops
    } else {
        ops.drop_first()
    }
}

/// Instructions that are merged stay so, whatever is asked of the sponge.
pub proof fn law_stays_merged(ops: Seq<Op>, count: usize)
    requires
        is_merged(ops),
    ensures
        after_absorb(ops, count) matches Ok(left) ==> is_merged(left),
        after_squeeze(ops, count) matches Ok(left) ==> is_merged(left),
        is_merged(after_pop(ops)),
{
    if ops.len() > 0 {
        let rest = ops.drop_first();
        assert forall|i: int| 0 < i < rest.len() implies !joins(#[trigger] rest[i - 1], rest[i]) by {
            assert(!joins(ops[(i + 1) - 1], ops[i + 1]));
        }
        if after_absorb(ops, count) is Ok {
            let left = after_absorb(ops, count)->Ok_0;
            assert forall|i: int| 0 < i < left.len() implies !joins(
                #[trigger] left[i - 1],
                left[i],
            ) by {
                assert(!joins(ops[i - 1], ops[i]));
                assert(left == rest || left[i] == ops[i]);
            }
        }
        if after_squeeze(ops, count) is Ok {
            let left = after_squeeze(ops, count)->Ok_0;
            assert forall|i: int| 0 < i < left.len() implies !joins(
                #[trigger] left[i - 1],
                left[i],
            ) by {
                assert(!joins(ops[i - 1], ops[i]));
                assert(left == rest || left[i] == ops[i]);
            }
        }
    }
}

/// The state of a sponge over `perm` at the start of the protocol that `declaration` spells: its
/// initial value is a digest of the declaration, made by a sponge of the same kind over `tag_perm`.
pub open spec fn initial_sponge<
    H: DuplexSpongeInterface<Perm, U, WIDTH>,
    Perm: Clone,
    U: Unit,
    const WIDTH: usize,
>(perm: Perm, tag_perm: Perm, declaration: Seq<u8>, iv_size: nat) -> SpongeState<Perm, U> {
    let zeros = Seq::new(iv_size, |i: int| U::of_byte(0));
    let hashed = H::absorbed(H::initial(tag_perm, zeros), units_of::<U>(declaration));
    H::initial(perm, H::squeezed(hashed, iv_size).1)
}

/// Whether `sponge` is at the start of the protocol that `declaration` spells, over `perm`. A clone
/// of `perm` makes the digest of the declaration.
pub open spec fn starts<
    H: DuplexSpongeInterface<Perm, U, WIDTH>,
    Perm: Clone,
    U: Unit,
    const WIDTH: usize,
>(sponge: SpongeState<Perm, U>, perm: Perm, declaration: Seq<u8>, iv_size: nat) -> bool {
    exists|tag_perm: Perm| #[trigger]
        cloned(perm, tag_perm) && sponge == initial_sponge::<H, Perm, U, WIDTH>(
            perm,
            tag_perm,
            declaration,
            iv_size,
        )
}

/// A sponge with the instructions that are still to be carried out.
#[derive(Debug)]
pub struct HashStateWithInstructions<H, Perm, U, const WIDTH: usize> {
    ds: H,
    stack: VecDeque<Op>,
    _perm: PhantomData<Perm>,
    _unit: PhantomData<U>,
}

impl<
    H: DuplexSpongeInterface<Perm, U, WIDTH>,
    Perm: Clone,
    U: Unit,
    const WIDTH: usize,
> HashStateWithInstructions<H, Perm, U, WIDTH> {
    /// The sponge keeps its invariant.
    pub closed spec fn wf(self) -> bool {
        self.ds.wf()
    }

    /// The instructions that are still to be carried out.
    pub closed spec fn spec_ops(self) -> Seq<Op> {
        self.stack@
    }

    /// The state of the sponge.
    pub closed spec fn spec_sponge(self) -> SpongeState<Perm, U> {
        self.ds.state()
    }

    /// The sponge at the start of a protocol.
    pub fn new<const IV_SIZE: usize, const D: usize>(
        domain_separator: &DomainSeparator<Perm, U, WIDTH, D>,
        perm: Perm,
    ) -> (hash_state: Self)
        requires
            H::iv_fits(IV_SIZE as nat),
        ensures
            hash_state.wf(),
            hash_state.spec_ops() == domain_separator.spec_ops(),
            starts::<H, Perm, U, WIDTH>(
                hash_state.spec_sponge(),
                perm,
                domain_separator.declaration(),
                IV_SIZE as nat,
            ),
    {
        let stack = domain_separator.finalize();
        let tag_perm = perm.clone();
        let tag: [U; IV_SIZE] = Self::generate_tag::<IV_SIZE>(
            domain_separator.as_bytes(),
            tag_perm,
        );
        assert(cloned(perm, tag_perm));
        HashStateWithInstructions {
            ds: H::new(perm, tag),
            stack,
            _perm: PhantomData,
            _unit: PhantomData,
        }
    }

    /// The digest of a declaration.
    fn generate_tag<const IV_SIZE: usize>(declaration: &[u8], perm: Perm) -> (tag: [U; IV_SIZE])
        requires
            H::iv_fits(IV_SIZE as nat),
        ensures
            ({
                let zeros = Seq::new(IV_SIZE as nat, |i: int| U::of_byte(0));
                let hashed = H::absorbed(
                    H::initial(perm, zeros),
                    units_of::<U>(declaration@),
                );
                tag@ == H::squeezed(hashed, IV_SIZE as nat).1
            }),
    {
        let zeros: [U; IV_SIZE] = [U::from_u8(0); IV_SIZE];
        let units: Vec<U> = slice_from_u8_slice(declaration);
        assert(zeros@ =~= Seq::new(IV_SIZE as nat, |i: int| U::of_byte(0)));
        let mut hasher = H::new(perm, zeros);
        hasher.absorb_unchecked(units.as_slice());
        let mut tag: [U; IV_SIZE] = zeros;
        hasher.squeeze_unchecked(&mut tag);
        tag
    }

    /// Absorbs `input`, if the protocol expects it. If not, no instruction is left.
    pub fn absorb(&mut self, input: &[U]) -> (result: Result<(), DomainSeparatorMismatch>)
        requires
            old(self).wf(),
        ensures
            final(self).wf(),
            match after_absorb(old(self).spec_ops(), input@.len() as usize) {
                Ok(ops) => {
                    &&& result == Ok::<(), DomainSeparatorMismatch>(())
                    &&& final(self).spec_ops() == ops
                    &&& final(self).spec_sponge() == H::absorbed(
                        old(self).spec_sponge(),
                        input@,
                    )
                },
                Err(mismatch) => {
                    &&& result == Err::<(), DomainSeparatorMismatch>(mismatch)
                    &&& final(self).spec_ops() == Seq::<Op>::empty()
                    &&& final(self).spec_sponge() == old(self).spec_sponge()
                },
            },
    {
        let count: usize = input.len();
        let ghost ops = self.stack@;
        match self.stack.pop_front() {
            Some(Op::Absorb(length)) if length >= count => {
                if length > count {
                    self.stack.push_front(Op::Absorb(length - count));
                    assert(self.stack@ =~= ops.update(0, Op::Absorb((length - count) as usize)));
                } else {
                    assert(self.stack@ =~= ops.drop_first());
                }
                self.ds.absorb_unchecked(input);
                Ok(())
            },
            expected => {
                self.stack.clear();
                Err(DomainSeparatorMismatch::UnexpectedOp { requested: Op::Absorb(count), expected })
            },
        }
    }

    /// Fills `output` with squeezed units, if the protocol expects it. If not, no instruction is
    /// left.
    pub fn squeeze(&mut self, output: &mut [U]) -> (result: Result<(), DomainSeparatorMismatch>)
        requires
            old(self).wf(),
        ensures
            final(self).wf(),
            final(output)@.len() == old(output)@.len(),
            match after_squeeze(old(self).spec_ops(), old(output)@.len() as usize) {
                Ok(ops) => {
                    let squeezed = H::squeezed(old(self).spec_sponge(), old(output)@.len());
                    &&& result == Ok::<(), DomainSeparatorMismatch>(())
                    &&& final(self).spec_ops() == ops
                    &&& final(self).spec_sponge() == squeezed.0
                    &&& final(output)@ == squeezed.1
                },
                Err(mismatch) => {
                    &&& result == Err::<(), DomainSeparatorMismatch>(mismatch)
                    &&& final(self).spec_ops() == Seq::<Op>::empty()
                    &&& final(self).spec_sponge() == old(self).spec_sponge()
                    &&& final(output)@ == old(output)@
                },
            },
    {
        let count: usize = output.len();
        let ghost ops = self.stack@;
        let expected: Option<Op> = self.stack.pop_front();
        if let Some(Op::Squeeze(length)) = expected {
            if count <= length {
                self.ds.squeeze_unchecked(output);
                if length != count {
                    self.stack.push_front(Op::Squeeze(length - count));
                    assert(self.stack@ =~= ops.update(0, Op::Squeeze((length - count) as usize)));
                } else {
                    assert(self.stack@ =~= ops.drop_first());
                }
                return Ok(());
            }
        }
        self.stack.clear();
        Err(DomainSeparatorMismatch::UnexpectedOp { requested: Op::Squeeze(count), expected })
    }

    /// Passes over a hint, if the protocol expects one. The next instruction is gone either way.
    pub fn hint(&mut self) -> (result: Result<(), DomainSeparatorMismatch>)
        requires
            old(self).wf(),
        ensures
            final(self).wf(),
            result == check_hint(old(self).spec_ops()),
            final(self).spec_ops() == after_pop(old(self).spec_ops()),
            final(self).spec_sponge() == old(self).spec_sponge(),
    {
        let ghost ops = self.stack@;
        match self.stack.pop_front() {
            Some(Op::Hint) => {
                assert(self.stack@ =~= ops.drop_first());
                Ok(())
            },
            expected => {
                assert(self.stack@ =~= after_pop(ops));
                Err(DomainSeparatorMismatch::UnexpectedOp { requested: Op::Hint, expected })
            },
        }
    }

    /// The sponge.
    pub fn sponge(&self) -> (sponge: &H)
        ensures
            sponge.state() == self.spec_sponge(),
    {
        &self.ds
    }
}

} // verus!
