//! Laws on the sponge over Keccak-f: which cells hold what, and when they are permuted.

use p3_keccak::KeccakF;
use vstd::prelude::*;

use crate::duplex_sponge::{DuplexSpongeInterface, SpongeState};
use crate::keccak::{
    absorbed_bytes,
    keccak_f,
    law_keccak_ignores_value,
    law_keccak_squeezes_in_parts,
    lemma_squeezed_len,
    squeezed_bytes,
    KeccakSponge,
    KeccakState,
};
use crate::sho::{initial_sponge, starts};
use crate::unit::{units_of, Unit};

verus! {

/// A new sponge is blank but for its initial value, which stands behind the rate. It absorbs from
/// the first cell on, and has nothing to be squeezed yet.
pub proof fn law_new_sponge_is_blank(perm: KeccakF, iv: Seq<u8>)
    ensures
        KeccakSponge::iv_fits(iv.len()) <==> iv.len() <= 64,
        iv.len() <= 64 ==> KeccakSponge::initial(perm, iv) == (SpongeState {
            perm,
            cells: Seq::new(136, |i: int| 0u8) + iv + Seq::new(
                (64 - iv.len()) as nat,
                |i: int| 0u8,
            ),
            absorb_pos: 0,
            squeeze_pos: 136,
        }),
{
    if iv.len() <= 64 {
        assert(KeccakSponge::initial(perm, iv).cells =~= Seq::new(136, |i: int| 0u8) + iv
            + Seq::new((64 - iv.len()) as nat, |i: int| 0u8));
    }
}

/// Absorbing overwrites the cells that come next.
proof fn lemma_absorb_overwrites(state: KeccakState, input: Seq<u8>)
    requires
        state.cells.len() == 200,
        state.absorb_pos + input.len() <= 136,
    ensures
        absorbed_bytes(state, input) == (SpongeState {
            cells: state.cells.take(state.absorb_pos as int) + input + state.cells.skip(
                (state.absorb_pos + input.len()) as int,
            ),
            absorb_pos: state.absorb_pos + input.len(),
            ..state
        }),
    decreases input.len(),
{
    let pos = state.absorb_pos as int;
    if input.len() > 0 {
        lemma_absorb_overwrites(state, input.drop_last());
    }
    assert(absorbed_bytes(state, input).cells =~= state.cells.take(pos) + input + state.cells.skip(
        pos + input.len(),
    ));
}

/// Absorbing what the rate has room for overwrites the cells that come next and nothing else, and
/// leaves nothing to be squeezed before the next permutation, whatever was squeezed before.
pub proof fn law_absorb_overwrites(state: KeccakState, input: Seq<u8>)
    requires
        state.cells.len() == 200,
        state.absorb_pos + input.len() <= 136,
    ensures
        KeccakSponge::absorbed(state, input) == (SpongeState {
            perm: state.perm,
            cells: state.cells.take(state.absorb_pos as int) + input + state.cells.skip(
                (state.absorb_pos + input.len()) as int,
            ),
            absorb_pos: state.absorb_pos + input.len(),
            squeeze_pos: 136,
        }),
{
    lemma_absorb_overwrites(state, input);
}

/// Where the rate is used up, absorbing permutes the cells and overwrites them from the first one on.
pub proof fn law_absorb_permutes_full_rate(state: KeccakState, input: Seq<u8>)
    requires
        state.absorb_pos == 136,
        keccak_f(state.cells).len() == 200,
        0 < input.len() <= 136,
    ensures
        KeccakSponge::absorbed(state, input) == (SpongeState {
            perm: state.perm,
            cells: input + keccak_f(state.cells).skip(input.len() as int),
            absorb_pos: input.len(),
            squeeze_pos: 136,
        }),
{
    lemma_absorb_permutes(state, input);
}

/// The first byte behind a full rate permutes the cells.
proof fn lemma_absorb_permutes(state: KeccakState, input: Seq<u8>)
    requires
        state.absorb_pos == 136,
        keccak_f(state.cells).len() == 200,
        0 < input.len() <= 136,
    ensures
        absorbed_bytes(state, input) == (SpongeState {
            cells: input + keccak_f(state.cells).skip(input.len() as int),
            absorb_pos: input.len(),
            ..state
        }),
    decreases input.len(),
{
    let front = input.drop_last();
    if front.len() == 0 {
        assert(absorbed_bytes(state, front) == state);
    } else {
        lemma_absorb_permutes(state, front);
    }
    assert(absorbed_bytes(state, input).cells =~= input + keccak_f(state.cells).skip(
        input.len() as int,
    ));
}

/// However much is absorbed, nothing is left to be squeezed before the next permutation.
pub proof fn law_absorb_ends_squeezing(state: KeccakState, input: Seq<u8>)
    ensures
        KeccakSponge::absorbed(state, input).squeeze_pos == 136,
        KeccakSponge::absorbed(state, input).perm == state.perm,
{
    lemma_absorb_keeps_perm(state, input);
}

/// Absorbing keeps the permutation.
proof fn lemma_absorb_keeps_perm(state: KeccakState, input: Seq<u8>)
    ensures
        absorbed_bytes(state, input).perm == state.perm,
    decreases input.len(),
{
    if input.len() > 0 {
        lemma_absorb_keeps_perm(state, input.drop_last());
    }
}

/// Squeezing what is left of the rate hands out the cells that come next, and changes none.
pub proof fn law_squeeze_hands_out_cells(state: KeccakState, count: nat)
    requires
        count == 0 || state.squeeze_pos + count <= 136,
    ensures
        ({
            let (after, output) = KeccakSponge::squeezed(state, count);
            &&& after == (SpongeState { squeeze_pos: state.squeeze_pos + count, ..state })
            &&& output == Seq::new(count, |i: int| state.cells[state.squeeze_pos + i])
        }),
    decreases count,
{
    if count > 0 {
        law_squeeze_hands_out_cells(state, (count - 1) as nat);
    }
    assert(KeccakSponge::squeezed(state, count).1 =~= Seq::new(
        count,
        |i: int| state.cells[state.squeeze_pos + i],
    ));
}

/// Where the rate is used up, squeezing permutes the cells and hands them out from the first one on.
pub proof fn law_squeeze_permutes_full_rate(state: KeccakState, count: nat)
    requires
        state.squeeze_pos == 136,
        0 < count <= 136,
    ensures
        ({
            let (after, output) = KeccakSponge::squeezed(state, count);
            &&& after == (SpongeState {
                perm: state.perm,
                cells: keccak_f(state.cells),
                absorb_pos: 0,
                squeeze_pos: count,
            })
            &&& output == Seq::new(count, |i: int| keccak_f(state.cells)[i])
        }),
    decreases count,
{
    if count == 1 {
        reveal_with_fuel(squeezed_bytes, 2);
    } else {
        law_squeeze_permutes_full_rate(state, (count - 1) as nat);
    }
    assert(KeccakSponge::squeezed(state, count).1 =~= Seq::new(
        count,
        |i: int| keccak_f(state.cells)[i],
    ));
}

/// What is squeezed after absorbing comes from a fresh permutation of the cells that hold what was
/// absorbed, whatever was squeezed before.
pub proof fn law_squeeze_after_absorb_is_fresh(
    state: KeccakState,
    input: Seq<u8>,
    count: nat,
    i: int,
)
    requires
        0 <= i < count,
        i < 136,
    ensures
        KeccakSponge::squeezed(KeccakSponge::absorbed(state, input), count).1[i] == keccak_f(
            KeccakSponge::absorbed(state, input).cells,
        )[i],
{
    let full = KeccakSponge::absorbed(state, input);
    law_absorb_ends_squeezing(state, input);
    let first = if count <= 136 {
        count
    } else {
        136
    };
    law_squeeze_permutes_full_rate(full, first);
    law_keccak_squeezes_in_parts(full, first, (count - first) as nat);
    lemma_squeezed_len(full, first);
}

/// What is squeezed after absorbing a message that the rate has room for is the permutation of the
/// cells with the message in them: the message itself, among what the cells held before.
pub proof fn law_squeeze_depends_on_message(state: KeccakState, input: Seq<u8>, count: nat, i: int)
    requires
        state.cells.len() == 200,
        state.absorb_pos + input.len() <= 136,
        0 <= i < count,
        i < 136,
    ensures
        KeccakSponge::squeezed(KeccakSponge::absorbed(state, input), count).1[i] == keccak_f(
            state.cells.take(state.absorb_pos as int) + input + state.cells.skip(
                (state.absorb_pos + input.len()) as int,
            ),
        )[i],
{
    law_squeeze_after_absorb_is_fresh(state, input, count, i);
    law_absorb_overwrites(state, input);
}

/// A sponge at the start of a protocol has a digest of the declaration as its initial value. A sponge
/// over a clone of the permutation makes the digest, from an initial value of zeros.
pub proof fn law_start_is_digest_of_declaration<
    H: DuplexSpongeInterface<Perm, U, WIDTH>,
    Perm: Clone,
    U: Unit,
    const WIDTH: usize,
>(sponge: SpongeState<Perm, U>, perm: Perm, declaration: Seq<u8>, iv_size: nat)
    requires
        starts::<H, Perm, U, WIDTH>(sponge, perm, declaration, iv_size),
    ensures
        exists|tag_perm: Perm| #[trigger]
            cloned(perm, tag_perm) && sponge == H::initial(
                perm,
                H::squeezed(
                    H::absorbed(
                        H::initial(tag_perm, Seq::new(iv_size, |i: int| U::of_byte(0))),
                        Seq::new(declaration.len(), |i: int| U::of_byte(declaration[i])),
                    ),
                    iv_size,
                ).1,
            ),
{
    let tag_perm = choose|tag_perm: Perm| #[trigger]
        cloned(perm, tag_perm) && sponge == initial_sponge::<H, Perm, U, WIDTH>(
            perm,
            tag_perm,
            declaration,
            iv_size,
        );
    assert(units_of::<U>(declaration) =~= Seq::new(
        declaration.len(),
        |i: int| U::of_byte(declaration[i]),
    ));
    assert(cloned(perm, tag_perm));
}

/// With the sponge over Keccak-f, the digest stands behind the rate of an otherwise blank sponge, and
/// is what a blank sponge gives that has absorbed the declaration.
pub proof fn law_keccak_start(
    sponge: KeccakState,
    perm: KeccakF,
    declaration: Seq<u8>,
    iv_size: nat,
    i: int,
)
    requires
        starts::<KeccakSponge, KeccakF, u8, 200>(sponge, perm, declaration, iv_size),
        0 <= i < iv_size <= 64,
    ensures
        sponge.perm == perm,
        sponge.absorb_pos == 0,
        sponge.squeeze_pos == 136,
        sponge.cells.len() == 200,
        forall|j: int|
            0 <= j < 200 && !(136 <= j < 136 + iv_size) ==> #[trigger] sponge.cells[j] == 0,
        sponge.cells[136 + i] == keccak_f(
            KeccakSponge::absorbed(
                SpongeState {
                    perm,
                    cells: Seq::new(200, |j: int| 0u8),
                    absorb_pos: 0,
                    squeeze_pos: 136,
                },
                declaration,
            ).cells,
        )[i],
{
    let blank = SpongeState {
        perm,
        cells: Seq::new(200, |j: int| 0u8),
        absorb_pos: 0,
        squeeze_pos: 136,
    };
    let zeros = Seq::new(iv_size, |j: int| 0u8);
    law_start_is_digest_of_declaration::<KeccakSponge, KeccakF, u8, 200>(
        sponge,
        perm,
        declaration,
        iv_size,
    );
    assert(Seq::new(iv_size, |j: int| u8::of_byte(0)) =~= zeros);
    assert(Seq::new(declaration.len(), |j: int| u8::of_byte(declaration[j])) =~= declaration);
    let tag_perm = choose|tag_perm: KeccakF| #[trigger]
        cloned(perm, tag_perm) && sponge == KeccakSponge::initial(
            perm,
            KeccakSponge::squeezed(
                KeccakSponge::absorbed(KeccakSponge::initial(tag_perm, zeros), declaration),
                iv_size,
            ).1,
        );
    let start = KeccakSponge::initial(tag_perm, zeros);
    law_new_sponge_is_blank(tag_perm, zeros);
    assert(start.cells =~= blank.cells);
    law_keccak_ignores_value(perm, start, declaration, 0);
    let hashed = KeccakSponge::absorbed(start, declaration);
    let tag = KeccakSponge::squeezed(hashed, iv_size).1;
    lemma_squeezed_len(hashed, iv_size);
    law_squeeze_after_absorb_is_fresh(start, declaration, iv_size, i);
    law_new_sponge_is_blank(perm, tag);
    assert(sponge.cells[136 + i] == tag[i]);
}

} // verus!
