//! Proofs of work.

use vstd::prelude::*;

verus! {

/// A way to make a nonce costly to find.
///
/// An implementor says with `accepts`, `challenge` and `difficulty` which nonces it takes. One that
/// is not verified leaves them out.
pub trait PowStrategy: Sized {
    /// The measure of the work that is asked for.
    type Difficulty;

    /// Whether `nonce` answers `challenge` at the given difficulty.
    open spec fn accepts(challenge: Seq<u8>, difficulty: Self::Difficulty, nonce: u64) -> bool {
        arbitrary()
    }

    /// The challenge of this instance.
    open spec fn challenge(&self) -> Seq<u8> {
        arbitrary()
    }

    /// The difficulty of this instance.
    open spec fn difficulty(&self) -> Self::Difficulty {
        arbitrary()
    }

    /// The instance for a challenge.
    fn new(challenge: [u8; 32], difficulty: Self::Difficulty) -> (strategy: Self)
        ensures
            strategy.challenge() == challenge@,
            strategy.difficulty() == difficulty,
    ;

    /// Whether `nonce` answers the challenge.
    fn check(&mut self, nonce: u64) -> (accepted: bool)
        ensures
            accepted == Self::accepts(old(self).challenge(), old(self).difficulty(), nonce),
    ;
}

} // verus!
