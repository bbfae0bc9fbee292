//! The interface of a duplex sponge.

use vstd::prelude::*;

verus! {

/// What a sponge has come to: its permutation, its cells, where the next unit is absorbed, and where
/// the next unit is squeezed from.
pub struct SpongeState<Perm, U> {
    pub perm: Perm,
    pub cells: Seq<U>,
    pub absorb_pos: nat,
    pub squeeze_pos: nat,
}

/// A duplex sponge of `WIDTH` units over the permutation `Perm`.
///
/// An implementor says with `initial`, `absorbed` and `squeezed` what its state is after each
/// operation. All that a sponge hands out is thereby a function of what went into it. An implementor
/// that is not verified leaves the model out.
pub trait DuplexSpongeInterface<Perm, U, const WIDTH: usize>: Sized {
    /// The invariant of the sponge.
    open spec fn wf(&self) -> bool {
        arbitrary()
    }

    /// The state of the sponge.
    open spec fn state(&self) -> SpongeState<Perm, U> {
        arbitrary()
    }

    /// Whether the sponge has room for an initial value of `len` units.
    open spec fn iv_fits(len: nat) -> bool {
        arbitrary()
    }

    /// The state of a new sponge.
    open spec fn initial(perm: Perm, iv: Seq<U>) -> SpongeState<Perm, U> {
        arbitrary()
    }

    /// The state after absorbing `input`.
    open spec fn absorbed(state: SpongeState<Perm, U>, input: Seq<U>) -> SpongeState<Perm, U> {
        arbitrary()
    }

    /// The state after squeezing `count` units, and those units.
    open spec fn squeezed(state: SpongeState<Perm, U>, count: nat) -> (
        SpongeState<Perm, U>,
        Seq<U>,
    ) {
        arbitrary()
    }

    /// A sponge over `perm` that starts from `iv`.
    fn new<const IV_SIZE: usize>(perm: Perm, iv: [U; IV_SIZE]) -> (sponge: Self)
        requires
            Self::iv_fits(IV_SIZE as nat),
        ensures
            sponge.wf(),
            sponge.state() == Self::initial(perm, iv@),
    ;

    /// Absorbs `input`, without asking whether a protocol expects it.
    fn absorb_unchecked(&mut self, input: &[U]) -> (sponge: &mut Self)
        requires
            old(self).wf(),
        ensures
            sponge.wf(),
            sponge.state() == Self::absorbed(old(self).state(), input@),
            *final(self) == *final(sponge),
    ;

    /// Fills `output` with squeezed units, without asking whether a protocol expects it.
    fn squeeze_unchecked(&mut self, output: &mut [U]) -> (sponge: &mut Self)
        requires
            old(self).wf(),
        ensures
            sponge.wf(),
            sponge.state() == Self::squeezed(old(self).state(), old(output)@.len()).0,
            final(output)@ == Self::squeezed(old(self).state(), old(output)@.len()).1,
            final(output)@.len() == old(output)@.len(),
            *final(self) == *final(sponge),
    ;
}

} // verus!
