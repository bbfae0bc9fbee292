//! The duplex sponge over Keccak-f\[1600\].

use p3_keccak::KeccakF;
use p3_symmetric::Permutation;
use vstd::prelude::*;

use crate::duplex_sponge::{DuplexSpongeInterface, SpongeState};

verus! {

/// The bytes of a Keccak state.
pub const KECCAK_WIDTH: usize = 200;

/// The bytes of a Keccak state that data is absorbed into and squeezed from.
pub const KECCAK_RATE: usize = 136;

/// The Keccak-f permutation of `p3_keccak`.
#[verifier::external_type_specification]
#[verifier::external_body]
pub struct ExKeccakF(KeccakF);

/// The permutation that `p3_keccak::KeccakF` applies to a state of 200 bytes.
pub uninterp spec fn keccak_f(state: Seq<u8>) -> Seq<u8>;

/// Calls `permute_mut` of `p3_symmetric::Permutation<[u8; 200]>` for `p3_keccak::KeccakF`. Trusted:
/// the new state is a function of the old one alone, and `keccak_f` names that function.
#[verifier::external_body]
fn permute_state(perm: &KeccakF, state: &mut [u8; 200])
    ensures
        final(state)@ == keccak_f(old(state)@),
{
    perm.permute_mut(state)
}

/// The state of a sponge over Keccak-f.
pub type KeccakState = SpongeState<KeccakF, u8>;

/// The state with its cells permuted, and at the start of the rate for absorbing.
pub open spec fn permuted(state: KeccakState) -> KeccakState {
    SpongeState { cells: keccak_f(state.cells), absorb_pos: 0, ..state }
}

/// The state after one byte more: it overwrites the next cell of the rate, of a permuted state where
/// the rate is used up.
pub open spec fn absorbed_byte(state: KeccakState, byte: u8) -> KeccakState {
    let ready = if state.absorb_pos == KECCAK_RATE {
        permuted(state)
    } else {
        state
    };
    SpongeState {
        cells: ready.cells.update(ready.absorb_pos as int, byte),
        absorb_pos: ready.absorb_pos + 1,
        ..ready
    }
}

/// The state after the bytes of `input`, one after the other.
pub open spec fn absorbed_bytes(state: KeccakState, input: Seq<u8>) -> KeccakState
    decreases input.len(),
{
    if input.len() == 0 {
        state
    } else {
        absorbed_byte(absorbed_bytes(state, input.drop_last()), input.last())
    }
}

/// A state from which the next byte can be squeezed: a permuted one where the rate is used up.
pub open spec fn squeezable(state: KeccakState) -> KeccakState {
    if state.squeeze_pos == KECCAK_RATE {
        SpongeState { squeeze_pos: 0, ..permuted(state) }
    } else {
        state
    }
}

/// The state after squeezing `count` bytes, and those bytes.
pub open spec fn squeezed_bytes(state: KeccakState, count: nat) -> (KeccakState, Seq<u8>)
    decreases count,
{
    if count == 0 {
        (state, Seq::empty())
    } else {
        let (before, output) = squeezed_bytes(state, (count - 1) as nat);
        let ready = squeezable(before);
        (
            SpongeState { squeeze_pos: ready.squeeze_pos + 1, ..ready },
            output.push(ready.cells[ready.squeeze_pos as int]),
        )
    }
}

/// A byte-wise sponge over Keccak-f that absorbs by overwriting.
#[derive(Debug)]
pub struct KeccakSponge {
    perm: KeccakF,
    cells: [u8; 200],
    absorb_pos: usize,
    squeeze_pos: usize,
}

/// The hash that transcripts use where none is named.
pub type DefaultHash = KeccakSponge;

/// The permutation under [`DefaultHash`].
pub type DefaultPerm = KeccakF;

impl DuplexSpongeInterface<KeccakF, u8, 200> for KeccakSponge {
    closed spec fn wf(&self) -> bool {
        self.absorb_pos <= KECCAK_RATE && self.squeeze_pos <= KECCAK_RATE
    }

    closed spec fn state(&self) -> KeccakState {
        SpongeState {
            perm: self.perm,
            cells: self.cells@,
            absorb_pos: self.absorb_pos as nat,
            squeeze_pos: self.squeeze_pos as nat,
        }
    }

    /// The initial value has to fit behind the rate.
    open spec fn iv_fits(len: nat) -> bool {
        KECCAK_RATE + len <= KECCAK_WIDTH
    }

    /// The initial value stands behind the rate, and all other cells are zero.
    open spec fn initial(perm: KeccakF, iv: Seq<u8>) -> KeccakState {
        SpongeState {
            perm,
            cells: Seq::new(
                KECCAK_WIDTH as nat,
                |i: int|
                    if KECCAK_RATE <= i < KECCAK_RATE + iv.len() {
                        iv[i - KECCAK_RATE]
                    } else {
                        0
                    },
            ),
            absorb_pos: 0,
            squeeze_pos: KECCAK_RATE as nat,
        }
    }

    open spec fn absorbed(state: KeccakState, input: Seq<u8>) -> KeccakState {
        SpongeState { squeeze_pos: KECCAK_RATE as nat, ..absorbed_bytes(state, input) }
    }

    open spec fn squeezed(state: KeccakState, count: nat) -> (KeccakState, Seq<u8>) {
        squeezed_bytes(state, count)
    }

    fn new<const IV_SIZE: usize>(perm: KeccakF, iv: [u8; IV_SIZE]) -> (sponge: Self) {
        let mut cells: [u8; 200] = [0u8; 200];
        let mut i: usize = 0;
        while i < IV_SIZE
            invariant
                i <= IV_SIZE,
                KECCAK_RATE + IV_SIZE <= KECCAK_WIDTH,
                forall|j: int|
                    0 <= j < KECCAK_WIDTH ==> #[trigger] cells@[j] == if KECCAK_RATE <= j
                        < KECCAK_RATE + i {
                        iv@[j - KECCAK_RATE]
                    } else {
                        0
                    },
            decreases IV_SIZE - i,
        {
            cells[KECCAK_RATE + i] = iv[i];
            i += 1;
        }
        let sponge = KeccakSponge { perm, cells, absorb_pos: 0, squeeze_pos: KECCAK_RATE };
        assert(sponge.state().cells =~= Self::initial(perm, iv@).cells);
        sponge
    }

    fn absorb_unchecked(&mut self, input: &[u8]) -> (sponge: &mut Self) {
        let mut i: usize = 0;
        assert(input@.take(0) =~= Seq::<u8>::empty());
        while i < input.len()
            invariant
                i <= input@.len(),
                self.wf(),
                self.state() == absorbed_bytes(old(self).state(), input@.take(i as int)),
            decreases input@.len() - i,
        {
            if self.absorb_pos == KECCAK_RATE {
                permute_state(&self.perm, &mut self.cells);
                self.absorb_pos = 0;
            }
            self.cells[self.absorb_pos] = input[i];
            self.absorb_pos += 1;
            assert(input@.take(i + 1).drop_last() =~= input@.take(i as int));
            i += 1;
        }
        assert(input@.take(i as int) =~= input@);
        self.squeeze_pos = KECCAK_RATE;
        self
    }

    fn squeeze_unchecked(&mut self, output: &mut [u8]) -> (sponge: &mut Self) {
        let count: usize = output.len();
        let mut i: usize = 0;
        while i < count
            invariant
                i <= count,
                output@.len() == count,
                self.wf(),
                self.state() == squeezed_bytes(old(self).state(), i as nat).0,
                output@.take(i as int) == squeezed_bytes(old(self).state(), i as nat).1,
            decreases count - i,
        {
            let ghost before = output@;
            if self.squeeze_pos == KECCAK_RATE {
                self.squeeze_pos = 0;
                self.absorb_pos = 0;
                permute_state(&self.perm, &mut self.cells);
            }
            output[i] = self.cells[self.squeeze_pos];
            self.squeeze_pos += 1;
            assert(output@.take(i + 1) =~= before.take(i as int).push(output@[i as int]));
            i += 1;
        }
        assert(output@.take(i as int) =~= output@);
        self
    }
}

/// `KeccakF` is one permutation, whichever value stands for it: the cells and positions do not
/// depend on that value.
pub proof fn law_keccak_ignores_value(
    perm: KeccakF,
    state: KeccakState,
    input: Seq<u8>,
    count: nat,
)
    ensures
        KeccakSponge::absorbed(SpongeState { perm, ..state }, input) == (SpongeState {
            perm,
            ..KeccakSponge::absorbed(state, input)
        }),
        ({
            let (after, output) = KeccakSponge::squeezed(state, count);
            KeccakSponge::squeezed(SpongeState { perm, ..state }, count) == (
                SpongeState { perm, ..after },
                output,
            )
        }),
    decreases input.len() + count,
{
    if input.len() > 0 {
        law_keccak_ignores_value(perm, state, input.drop_last(), count);
    } else if count > 0 {
        law_keccak_ignores_value(perm, state, input, (count - 1) as nat);
    }
}

/// Where the next byte is squeezed from has no bearing on absorbing.
proof fn lemma_absorb_ignores_squeeze_pos(state: KeccakState, pos: nat, input: Seq<u8>)
    ensures
        absorbed_bytes(SpongeState { squeeze_pos: pos, ..state }, input) == (SpongeState {
            squeeze_pos: pos,
            ..absorbed_bytes(state, input)
        }),
    decreases input.len(),
{
    if input.len() > 0 {
        lemma_absorb_ignores_squeeze_pos(state, pos, input.drop_last());
    }
}

/// Absorbing bytes in two parts is absorbing them one after the other.
proof fn lemma_absorb_bytes_in_parts(state: KeccakState, first: Seq<u8>, second: Seq<u8>)
    ensures
        absorbed_bytes(absorbed_bytes(state, first), second) == absorbed_bytes(
            state,
            first + second,
        ),
    decreases second.len(),
{
    if second.len() == 0 {
        assert(first + second =~= first);
    } else {
        lemma_absorb_bytes_in_parts(state, first, second.drop_last());
        assert((first + second).drop_last() =~= first + second.drop_last());
    }
}

/// Absorbing in parts leaves the sponge as absorbing at once does.
pub proof fn law_keccak_absorbs_in_parts(state: KeccakState, first: Seq<u8>, second: Seq<u8>)
    ensures
        KeccakSponge::absorbed(KeccakSponge::absorbed(state, first), second)
            == KeccakSponge::absorbed(state, first + second),
{
    lemma_absorb_bytes_in_parts(state, first, second);
    lemma_absorb_ignores_squeeze_pos(absorbed_bytes(state, first), KECCAK_RATE as nat, second);
}

/// As many bytes are squeezed as are asked for.
pub proof fn lemma_squeezed_len(state: KeccakState, count: nat)
    ensures
        squeezed_bytes(state, count).1.len() == count,
    decreases count,
{
    if count > 0 {
        lemma_squeezed_len(state, (count - 1) as nat);
    }
}

/// Squeezing in parts gives the bytes that squeezing at once does, and leaves the same sponge.
pub proof fn law_keccak_squeezes_in_parts(state: KeccakState, first: nat, second: nat)
    ensures
        ({
            let (between, head) = KeccakSponge::squeezed(state, first);
            let (after, tail) = KeccakSponge::squeezed(between, second);
            KeccakSponge::squeezed(state, first + second) == (after, head + tail)
        }),
    decreases second,
{
    let (between, head) = KeccakSponge::squeezed(state, first);
    if second == 0 {
        assert(head + Seq::<u8>::empty() =~= head);
    } else {
        law_keccak_squeezes_in_parts(state, first, (second - 1) as nat);
        let before = squeezed_bytes(between, (second - 1) as nat);
        let ready = squeezable(before.0);
        let byte = ready.cells[ready.squeeze_pos as int];
        assert(head + before.1.push(byte) =~= (head + before.1).push(byte));
        assert((first + second - 1) as nat == first + (second - 1) as nat);
    }
}

} // verus!
