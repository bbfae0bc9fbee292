//! Runs of requests, and what the challenges of a run depend on.

use vstd::prelude::*;

use crate::domain_separator::Op;
use crate::duplex_sponge::{DuplexSpongeInterface, SpongeState};
use crate::errors::DomainSeparatorMismatch;
use crate::field::{encoded_all, BaseField};
use crate::keccak::{law_keccak_ignores_value, DefaultHash, DefaultPerm, KeccakState};
use crate::laws::{law_read_takes_from_front, law_same_declaration_same_start, scalar_len};
use crate::sho::{initial_sponge, starts};
use crate::transcript::{
    absorb_units,
    draw_scalars_step,
    hint_step,
    pow_step,
    read_scalars_step,
    read_units_step,
    squeeze_units_step,
    Transcript,
};
use crate::unit::{units_of, Unit};

verus! {

/// One request of a verifier.
pub enum Request {
    /// `fill_next_units`, `next_units` or `read_digest`, of so many units.
    ReadUnits(nat),
    /// `fill_next_scalars` or `next_scalars`, of so many scalars.
    ReadScalars(nat),
    /// `public_scalars`, of these scalars.
    PublicScalars(Seq<Seq<u64>>),
    /// `fill_challenge_units` or `challenge_units`, of so many units.
    DrawUnits(nat),
    /// `fill_challenge_scalars` or `challenge_scalars`, of so many scalars.
    DrawScalars(nat),
    /// `challenge_pow`.
    Pow,
    /// `hint_bytes` or `hint`.
    Hint,
}

/// What a request that is granted gives.
pub enum Answer<U> {
    /// Units that were read or drawn.
    Units(Seq<U>),
    /// Scalars that were read or drawn.
    Scalars(Seq<Seq<u64>>),
    /// The bytes that were absorbed.
    Absorbed(Seq<u8>),
    /// The challenge and the nonce of a proof of work.
    Work(Seq<U>, Seq<U>),
    /// The bytes of a hint.
    Hint(Seq<u8>),
}

/// The transcript after a request, and the answer.
pub open spec fn request_step<
    H: DuplexSpongeInterface<Perm, U, WIDTH>,
    Perm: Clone,
    U: Unit,
    const WIDTH: usize,
>(t: Transcript<Perm, U>, field: BaseField, degree: nat, request: Request) -> (
    Transcript<Perm, U>,
    Result<Answer<U>, DomainSeparatorMismatch>,
) {
    match request {
        Request::ReadUnits(count) => {
            match read_units_step::<H, Perm, U, WIDTH>(t, count) {
                (after, Ok(units)) => (after, Ok(Answer::Units(units))),
                (after, Err(mismatch)) => (after, Err(mismatch)),
            }
        },
        Request::ReadScalars(count) => {
            match read_scalars_step::<H, Perm, U, WIDTH>(t, field, degree, count) {
                (after, done, Ok(_)) => (after, Ok(Answer::Scalars(done))),
                (after, _, Err(mismatch)) => (after, Err(mismatch)),
            }
        },
        Request::PublicScalars(scalars) => {
            let bytes = encoded_all(field, scalars);
            match absorb_units::<H, Perm, U, WIDTH>(t, units_of::<U>(bytes)) {
                (after, Ok(_)) => (after, Ok(Answer::Absorbed(bytes))),
                (after, Err(mismatch)) => (after, Err(mismatch)),
            }
        },
        Request::DrawUnits(count) => {
            match squeeze_units_step::<H, Perm, U, WIDTH>(t, count) {
                (after, Ok(units)) => (after, Ok(Answer::Units(units))),
                (after, Err(mismatch)) => (after, Err(mismatch)),
            }
        },
        Request::DrawScalars(count) => {
            match draw_scalars_step::<H, Perm, U, WIDTH>(t, field, degree, count) {
                (after, done, Ok(_)) => (after, Ok(Answer::Scalars(done))),
                (after, _, Err(mismatch)) => (after, Err(mismatch)),
            }
        },
        Request::Pow => {
            match pow_step::<H, Perm, U, WIDTH>(t) {
                (after, Ok((challenge, nonce))) => (after, Ok(Answer::Work(challenge, nonce))),
                (after, Err(mismatch)) => (after, Err(mismatch)),
            }
        },
        Request::Hint => {
            match hint_step(t) {
                (after, Ok(bytes)) => (after, Ok(Answer::Hint(bytes))),
                (after, Err(mismatch)) => (after, Err(mismatch)),
            }
        },
    }
}

/// The bytes that a request takes from the NARG string to absorb them. Those of a hint are not
/// absorbed.
pub open spec fn heard<
    H: DuplexSpongeInterface<Perm, U, WIDTH>,
    Perm: Clone,
    U: Unit,
    const WIDTH: usize,
>(t: Transcript<Perm, U>, field: BaseField, degree: nat, request: Request) -> Seq<u8> {
    if request is Hint {
        Seq::empty()
    } else {
        let after = request_step::<H, Perm, U, WIDTH>(t, field, degree, request).0;
        t.narg.take(t.narg.len() - after.narg.len())
    }
}

/// The transcript after a run of requests, and the answer to each.
pub open spec fn run<
    H: DuplexSpongeInterface<Perm, U, WIDTH>,
    Perm: Clone,
    U: Unit,
    const WIDTH: usize,
>(t: Transcript<Perm, U>, field: BaseField, degree: nat, requests: Seq<Request>) -> (
    Transcript<Perm, U>,
    Seq<Result<Answer<U>, DomainSeparatorMismatch>>,
)
    decreases requests.len(),
{
    if requests.len() == 0 {
        (t, Seq::empty())
    } else {
        let (before, answers) = run::<H, Perm, U, WIDTH>(t, field, degree, requests.drop_last());
        let (after, answer) = request_step::<H, Perm, U, WIDTH>(
            before,
            field,
            degree,
            requests.last(),
        );
        (after, answers.push(answer))
    }
}

/// The bytes that each request of a run takes from the NARG string to absorb them.
pub open spec fn run_heard<
    H: DuplexSpongeInterface<Perm, U, WIDTH>,
    Perm: Clone,
    U: Unit,
    const WIDTH: usize,
>(t: Transcript<Perm, U>, field: BaseField, degree: nat, requests: Seq<Request>) -> Seq<Seq<u8>>
    decreases requests.len(),
{
    if requests.len() == 0 {
        Seq::empty()
    } else {
        let before = run::<H, Perm, U, WIDTH>(t, field, degree, requests.drop_last()).0;
        run_heard::<H, Perm, U, WIDTH>(t, field, degree, requests.drop_last()).push(
            heard::<H, Perm, U, WIDTH>(before, field, degree, requests.last()),
        )
    }
}

/// Whether every request of a run is granted.
pub open spec fn granted<U>(answers: Seq<Result<Answer<U>, DomainSeparatorMismatch>>) -> bool {
    forall|i: int| 0 <= i < answers.len() ==> #[trigger] answers[i] is Ok
}

/// Whether two sponges are the same but for the value that stands for the permutation.
pub open spec fn same_sponge<Perm, U>(
    one: SpongeState<Perm, U>,
    other: SpongeState<Perm, U>,
) -> bool {
    other == SpongeState { perm: other.perm, ..one }
}

/// Whether what a sponge does is the same whichever value stands for the permutation.
pub open spec fn ignores_value<
    H: DuplexSpongeInterface<Perm, U, WIDTH>,
    Perm: Clone,
    U: Unit,
    const WIDTH: usize,
>() -> bool {
    &&& forall|one: SpongeState<Perm, U>, other: SpongeState<Perm, U>, input: Seq<U>|
        same_sponge(one, other) ==> same_sponge(
            #[trigger] H::absorbed(one, input),
            #[trigger] H::absorbed(other, input),
        )
    &&& forall|one: SpongeState<Perm, U>, other: SpongeState<Perm, U>, count: nat|
        #![trigger H::squeezed(one, count), H::squeezed(other, count)]
        same_sponge(one, other) ==> {
            &&& same_sponge(H::squeezed(one, count).0, H::squeezed(other, count).0)
            &&& H::squeezed(one, count).1 == H::squeezed(other, count).1
        }
}

/// The default hash does the same whichever value stands for its permutation.
pub proof fn law_default_hash_ignores_value()
    ensures
        ignores_value::<DefaultHash, DefaultPerm, u8, 200>(),
{
    assert forall|one: KeccakState, other: KeccakState, input: Seq<u8>|
        same_sponge(one, other) implies same_sponge(
        #[trigger] DefaultHash::absorbed(one, input),
        #[trigger] DefaultHash::absorbed(other, input),
    ) by {
        law_keccak_ignores_value(other.perm, one, input, 0);
    }
    assert forall|one: KeccakState, other: KeccakState, count: nat|
        #![trigger DefaultHash::squeezed(one, count), DefaultHash::squeezed(other, count)]
        same_sponge(one, other) implies {
        &&& same_sponge(DefaultHash::squeezed(one, count).0, DefaultHash::squeezed(other, count).0)
        &&& DefaultHash::squeezed(one, count).1 == DefaultHash::squeezed(other, count).1
    } by {
        law_keccak_ignores_value(other.perm, one, Seq::empty(), count);
    }
}

/// Whether two transcripts stand alike: the same instructions are left, and the sponges do the same.
/// The NARG strings may differ.
pub open spec fn alike<
    H: DuplexSpongeInterface<Perm, U, WIDTH>,
    Perm: Clone,
    U: Unit,
    const WIDTH: usize,
>(one: Transcript<Perm, U>, other: Transcript<Perm, U>) -> bool {
    &&& one.ops == other.ops
    &&& {
        ||| one.sponge == other.sponge
        ||| ignores_value::<H, Perm, U, WIDTH>() && same_sponge(one.sponge, other.sponge)
    }
}

/// Transcripts that stand alike absorb alike.
proof fn lemma_absorbs_alike<
    H: DuplexSpongeInterface<Perm, U, WIDTH>,
    Perm: Clone,
    U: Unit,
    const WIDTH: usize,
>(one: Transcript<Perm, U>, other: Transcript<Perm, U>, units: Seq<U>)
    requires
        alike::<H, Perm, U, WIDTH>(one, other),
    ensures
        alike::<H, Perm, U, WIDTH>(
            absorb_units::<H, Perm, U, WIDTH>(one, units).0,
            absorb_units::<H, Perm, U, WIDTH>(other, units).0,
        ),
        absorb_units::<H, Perm, U, WIDTH>(one, units).1 == absorb_units::<H, Perm, U, WIDTH>(
            other,
            units,
        ).1,
{
    assert(ignores_value::<H, Perm, U, WIDTH>() && same_sponge(one.sponge, other.sponge)
        ==> same_sponge(H::absorbed(one.sponge, units), H::absorbed(other.sponge, units)));
}

/// Transcripts that stand alike draw the same units, or are both refused.
proof fn lemma_squeezes_alike<
    H: DuplexSpongeInterface<Perm, U, WIDTH>,
    Perm: Clone,
    U: Unit,
    const WIDTH: usize,
>(one: Transcript<Perm, U>, other: Transcript<Perm, U>, count: nat)
    requires
        alike::<H, Perm, U, WIDTH>(one, other),
    ensures
        alike::<H, Perm, U, WIDTH>(
            squeeze_units_step::<H, Perm, U, WIDTH>(one, count).0,
            squeeze_units_step::<H, Perm, U, WIDTH>(other, count).0,
        ),
        squeeze_units_step::<H, Perm, U, WIDTH>(one, count).1 == squeeze_units_step::<
            H,
            Perm,
            U,
            WIDTH,
        >(other, count).1,
{
    let one_squeezed = H::squeezed(one.sponge, count);
    let other_squeezed = H::squeezed(other.sponge, count);
    assert(ignores_value::<H, Perm, U, WIDTH>() && same_sponge(one.sponge, other.sponge)
        ==> same_sponge(one_squeezed.0, other_squeezed.0) && one_squeezed.1 == other_squeezed.1);
}

/// Transcripts that stand alike draw the same scalars, or stop at the same one.
proof fn lemma_draws_alike<
    H: DuplexSpongeInterface<Perm, U, WIDTH>,
    Perm: Clone,
    U: Unit,
    const WIDTH: usize,
>(
    one: Transcript<Perm, U>,
    other: Transcript<Perm, U>,
    field: BaseField,
    degree: nat,
    count: nat,
)
    requires
        alike::<H, Perm, U, WIDTH>(one, other),
    ensures
        ({
            let one_drawn = draw_scalars_step::<H, Perm, U, WIDTH>(one, field, degree, count);
            let other_drawn = draw_scalars_step::<H, Perm, U, WIDTH>(other, field, degree, count);
            &&& alike::<H, Perm, U, WIDTH>(one_drawn.0, other_drawn.0)
            &&& one_drawn.1 == other_drawn.1
            &&& one_drawn.2 == other_drawn.2
        }),
    decreases count,
{
    if count > 0 {
        let less = (count - 1) as nat;
        lemma_draws_alike::<H, Perm, U, WIDTH>(one, other, field, degree, less);
        lemma_squeezes_alike::<H, Perm, U, WIDTH>(
            draw_scalars_step::<H, Perm, U, WIDTH>(one, field, degree, less).0,
            draw_scalars_step::<H, Perm, U, WIDTH>(other, field, degree, less).0,
            degree * field.spec_uniform_bytes(),
        );
    }
}

/// Transcripts that stand alike, with the same bytes in front, read the same scalars from them and
/// stand alike then.
proof fn lemma_reads_alike<
    H: DuplexSpongeInterface<Perm, U, WIDTH>,
    Perm: Clone,
    U: Unit,
    const WIDTH: usize,
>(
    one: Transcript<Perm, U>,
    other: Transcript<Perm, U>,
    field: BaseField,
    degree: nat,
    count: nat,
)
    requires
        alike::<H, Perm, U, WIDTH>(one, other),
        read_scalars_step::<H, Perm, U, WIDTH>(one, field, degree, count).2 is Ok,
        read_scalars_step::<H, Perm, U, WIDTH>(other, field, degree, count).2 is Ok,
        one.narg.take((count * scalar_len(field, degree)) as int) == other.narg.take(
            (count * scalar_len(field, degree)) as int,
        ),
    ensures
        ({
            let one_read = read_scalars_step::<H, Perm, U, WIDTH>(one, field, degree, count);
            let other_read = read_scalars_step::<H, Perm, U, WIDTH>(other, field, degree, count);
            &&& alike::<H, Perm, U, WIDTH>(one_read.0, other_read.0)
            &&& one_read.1 == other_read.1
        }),
    decreases count,
{
    if count > 0 {
        let size = scalar_len(field, degree);
        let less = (count - 1) as nat;
        let first = (less * size) as int;
        let total = (count * size) as int;
        assert(total == first + size && 0 <= first) by (nonlinear_arith)
            requires
                first == less * size,
                total == count * size,
                count == less + 1,
                0 <= less,
                0 <= size,
        ;
        law_read_takes_from_front::<H, Perm, U, WIDTH>(one, field, degree, count);
        law_read_takes_from_front::<H, Perm, U, WIDTH>(other, field, degree, count);
        law_read_takes_from_front::<H, Perm, U, WIDTH>(one, field, degree, less);
        law_read_takes_from_front::<H, Perm, U, WIDTH>(other, field, degree, less);
        assert(one.narg.take(first) =~= one.narg.take(total).take(first));
        assert(other.narg.take(first) =~= other.narg.take(total).take(first));
        lemma_reads_alike::<H, Perm, U, WIDTH>(one, other, field, degree, less);
        let one_before = read_scalars_step::<H, Perm, U, WIDTH>(one, field, degree, less).0;
        let other_before = read_scalars_step::<H, Perm, U, WIDTH>(other, field, degree, less).0;
        let piece = one_before.narg.take(size as int);
        assert(piece =~= one.narg.take(total).skip(first));
        assert(other_before.narg.take(size as int) =~= other.narg.take(total).skip(first));
        lemma_absorbs_alike::<H, Perm, U, WIDTH>(
            Transcript { narg: one_before.narg.skip(size as int), ..one_before },
            Transcript { narg: other_before.narg.skip(size as int), ..other_before },
            units_of::<U>(piece),
        );
    }
}

/// Transcripts that stand alike, with the same bytes in front, read the same units from them and
/// stand alike then.
proof fn lemma_reads_units_alike<
    H: DuplexSpongeInterface<Perm, U, WIDTH>,
    Perm: Clone,
    U: Unit,
    const WIDTH: usize,
>(one: Transcript<Perm, U>, other: Transcript<Perm, U>, count: nat)
    requires
        alike::<H, Perm, U, WIDTH>(one, other),
        count <= one.narg.len(),
        count <= other.narg.len(),
        one.narg.take(count as int) == other.narg.take(count as int),
    ensures
        alike::<H, Perm, U, WIDTH>(
            read_units_step::<H, Perm, U, WIDTH>(one, count).0,
            read_units_step::<H, Perm, U, WIDTH>(other, count).0,
        ),
        read_units_step::<H, Perm, U, WIDTH>(one, count).1 == read_units_step::<H, Perm, U, WIDTH>(
            other,
            count,
        ).1,
{
    lemma_absorbs_alike::<H, Perm, U, WIDTH>(
        Transcript { narg: one.narg.skip(count as int), ..one },
        Transcript { narg: other.narg.skip(count as int), ..other },
        units_of::<U>(one.narg.take(count as int)),
    );
}

/// A request that is granted in two transcripts that stand alike, and takes the same bytes from both
/// NARG strings to absorb, is answered alike, unless it is for a hint, and leaves them alike.
pub proof fn law_request_keeps_alike<
    H: DuplexSpongeInterface<Perm, U, WIDTH>,
    Perm: Clone,
    U: Unit,
    const WIDTH: usize,
>(
    one: Transcript<Perm, U>,
    other: Transcript<Perm, U>,
    field: BaseField,
    degree: nat,
    request: Request,
)
    requires
        alike::<H, Perm, U, WIDTH>(one, other),
        request_step::<H, Perm, U, WIDTH>(one, field, degree, request).1 is Ok,
        request_step::<H, Perm, U, WIDTH>(other, field, degree, request).1 is Ok,
        heard::<H, Perm, U, WIDTH>(one, field, degree, request) == heard::<H, Perm, U, WIDTH>(
            other,
            field,
            degree,
            request,
        ),
    ensures
        ({
            let (one_after, one_answer) = request_step::<H, Perm, U, WIDTH>(
                one,
                field,
                degree,
                request,
            );
            let (other_after, other_answer) = request_step::<H, Perm, U, WIDTH>(
                other,
                field,
                degree,
                request,
            );
            &&& alike::<H, Perm, U, WIDTH>(one_after, other_after)
            &&& request is Hint || one_answer == other_answer
        }),
{
    match request {
        Request::ReadUnits(count) => {
            lemma_reads_units_alike::<H, Perm, U, WIDTH>(one, other, count);
        },
        Request::ReadScalars(count) => {
            law_read_takes_from_front::<H, Perm, U, WIDTH>(one, field, degree, count);
            law_read_takes_from_front::<H, Perm, U, WIDTH>(other, field, degree, count);
            lemma_reads_alike::<H, Perm, U, WIDTH>(one, other, field, degree, count);
        },
        Request::PublicScalars(scalars) => {
            lemma_absorbs_alike::<H, Perm, U, WIDTH>(
                one,
                other,
                units_of::<U>(encoded_all(field, scalars)),
            );
        },
        Request::DrawUnits(count) => {
            lemma_squeezes_alike::<H, Perm, U, WIDTH>(one, other, count);
        },
        Request::DrawScalars(count) => {
            lemma_draws_alike::<H, Perm, U, WIDTH>(one, other, field, degree, count);
        },
        Request::Pow => {
            lemma_squeezes_alike::<H, Perm, U, WIDTH>(one, other, 32);
            lemma_reads_units_alike::<H, Perm, U, WIDTH>(
                squeeze_units_step::<H, Perm, U, WIDTH>(one, 32).0,
                squeeze_units_step::<H, Perm, U, WIDTH>(other, 32).0,
                8,
            );
        },
        Request::Hint => {},
    }
}

/// A challenge depends on what was absorbed alone, never on hints or on bytes that are not read yet.
///
/// Two transcripts stand alike, the same requests are granted in both, and these take the same bytes
/// from both NARG strings to absorb. Then all answers but those to hints are the same, the
/// transcripts stand alike still, and whatever challenge is asked for next is the same, or refused in
/// both.
pub proof fn law_challenges_depend_on_absorbed<
    H: DuplexSpongeInterface<Perm, U, WIDTH>,
    Perm: Clone,
    U: Unit,
    const WIDTH: usize,
>(
    one: Transcript<Perm, U>,
    other: Transcript<Perm, U>,
    field: BaseField,
    degree: nat,
    requests: Seq<Request>,
    count: nat,
)
    requires
        alike::<H, Perm, U, WIDTH>(one, other),
        granted(run::<H, Perm, U, WIDTH>(one, field, degree, requests).1),
        granted(run::<H, Perm, U, WIDTH>(other, field, degree, requests).1),
        run_heard::<H, Perm, U, WIDTH>(one, field, degree, requests) == run_heard::<
            H,
            Perm,
            U,
            WIDTH,
        >(other, field, degree, requests),
    ensures
        ({
            let (one_after, one_answers) = run::<H, Perm, U, WIDTH>(one, field, degree, requests);
            let (other_after, other_answers) = run::<H, Perm, U, WIDTH>(
                other,
                field,
                degree,
                requests,
            );
            let one_drawn = draw_scalars_step::<H, Perm, U, WIDTH>(one_after, field, degree, count);
            let other_drawn = draw_scalars_step::<H, Perm, U, WIDTH>(
                other_after,
                field,
                degree,
                count,
            );
            &&& alike::<H, Perm, U, WIDTH>(one_after, other_after)
            &&& one_answers.len() == other_answers.len() == requests.len()
            &&& forall|i: int|
                0 <= i < requests.len() && !(requests[i] is Hint) ==> #[trigger] one_answers[i]
                    == other_answers[i]
            &&& squeeze_units_step::<H, Perm, U, WIDTH>(one_after, count).1 == squeeze_units_step::<
                H,
                Perm,
                U,
                WIDTH,
            >(other_after, count).1
            &&& one_drawn.1 == other_drawn.1
            &&& one_drawn.2 == other_drawn.2
        }),
    decreases requests.len(),
{
    let (one_after, one_answers) = run::<H, Perm, U, WIDTH>(one, field, degree, requests);
    let (other_after, other_answers) = run::<H, Perm, U, WIDTH>(other, field, degree, requests);
    if requests.len() > 0 {
        let front = requests.drop_last();
        let (one_before, one_earlier) = run::<H, Perm, U, WIDTH>(one, field, degree, front);
        let (other_before, other_earlier) = run::<H, Perm, U, WIDTH>(other, field, degree, front);
        lemma_run_len::<H, Perm, U, WIDTH>(one, field, degree, front);
        lemma_run_len::<H, Perm, U, WIDTH>(other, field, degree, front);
        assert forall|i: int| 0 <= i < front.len() implies #[trigger] one_earlier[i] is Ok by {
            assert(one_answers[i] is Ok);
        }
        assert forall|i: int| 0 <= i < front.len() implies #[trigger] other_earlier[i] is Ok by {
            assert(other_answers[i] is Ok);
        }
        let one_heard = run_heard::<H, Perm, U, WIDTH>(one, field, degree, requests);
        let other_heard = run_heard::<H, Perm, U, WIDTH>(other, field, degree, requests);
        assert(one_heard.drop_last() =~= run_heard::<H, Perm, U, WIDTH>(one, field, degree, front));
        assert(other_heard.drop_last() =~= run_heard::<H, Perm, U, WIDTH>(
            other,
            field,
            degree,
            front,
        ));
        law_challenges_depend_on_absorbed::<H, Perm, U, WIDTH>(
            one,
            other,
            field,
            degree,
            front,
            count,
        );
        assert(one_answers.last() is Ok && other_answers.last() is Ok);
        assert(one_heard.last() == other_heard.last());
        law_request_keeps_alike::<H, Perm, U, WIDTH>(
            one_before,
            other_before,
            field,
            degree,
            requests.last(),
        );
        assert forall|i: int| 0 <= i < requests.len() && !(requests[i] is Hint) implies
            #[trigger] one_answers[i] == other_answers[i] by {
            if i < front.len() {
                assert(front[i] == requests[i]);
                assert(one_earlier[i] == other_earlier[i]);
            }
        }
    }
    lemma_squeezes_alike::<H, Perm, U, WIDTH>(one_after, other_after, count);
    lemma_draws_alike::<H, Perm, U, WIDTH>(one_after, other_after, field, degree, count);
}

/// A run has an answer for each request.
proof fn lemma_run_len<
    H: DuplexSpongeInterface<Perm, U, WIDTH>,
    Perm: Clone,
    U: Unit,
    const WIDTH: usize,
>(t: Transcript<Perm, U>, field: BaseField, degree: nat, requests: Seq<Request>)
    ensures
        run::<H, Perm, U, WIDTH>(t, field, degree, requests).1.len() == requests.len(),
    decreases requests.len(),
{
    if requests.len() > 0 {
        lemma_run_len::<H, Perm, U, WIDTH>(t, field, degree, requests.drop_last());
    }
}

/// With the default hash, two verifiers at the start of the same protocol stand alike, whatever
/// their NARG strings hold.
pub proof fn law_default_hash_starts_alike(
    one: Transcript<DefaultPerm, u8>,
    one_perm: DefaultPerm,
    other: Transcript<DefaultPerm, u8>,
    other_perm: DefaultPerm,
    ops: Seq<Op>,
    declaration: Seq<u8>,
    iv_size: nat,
)
    requires
        one.ops == ops,
        other.ops == ops,
        starts::<DefaultHash, DefaultPerm, u8, 200>(one.sponge, one_perm, declaration, iv_size),
        starts::<DefaultHash, DefaultPerm, u8, 200>(other.sponge, other_perm, declaration, iv_size),
    ensures
        alike::<DefaultHash, DefaultPerm, u8, 200>(one, other),
{
    law_same_declaration_same_start(
        one.sponge,
        one_perm,
        other.sponge,
        other_perm,
        declaration,
        iv_size,
    );
    law_default_hash_ignores_value();
}

/// Where a clone of a permutation is the permutation, two verifiers at the start of the same
/// protocol over the same permutation stand alike, whatever their NARG strings hold.
pub proof fn law_starts_alike<
    H: DuplexSpongeInterface<Perm, U, WIDTH>,
    Perm: Clone,
    U: Unit,
    const WIDTH: usize,
>(
    one: Transcript<Perm, U>,
    other: Transcript<Perm, U>,
    perm: Perm,
    ops: Seq<Op>,
    declaration: Seq<u8>,
    iv_size: nat,
)
    requires
        forall|copy: Perm| #[trigger] cloned(perm, copy) ==> copy == perm,
        one.ops == ops,
        other.ops == ops,
        starts::<H, Perm, U, WIDTH>(one.sponge, perm, declaration, iv_size),
        starts::<H, Perm, U, WIDTH>(other.sponge, perm, declaration, iv_size),
    ensures
        alike::<H, Perm, U, WIDTH>(one, other),
{
    let start = initial_sponge::<H, Perm, U, WIDTH>(perm, perm, declaration, iv_size);
    assert(one.sponge == start && other.sponge == start);
}

/// With the default hash, two verifiers of the same protocol draw the same challenges: where the same
/// requests are granted to both, and these take the same bytes from both NARG strings to absorb, all
/// answers but those to hints are the same, and so is whatever challenge is asked for next, or it is
/// refused to both.
pub proof fn law_default_hash_same_challenges(
    one: Transcript<DefaultPerm, u8>,
    one_perm: DefaultPerm,
    other: Transcript<DefaultPerm, u8>,
    other_perm: DefaultPerm,
    ops: Seq<Op>,
    declaration: Seq<u8>,
    iv_size: nat,
    field: BaseField,
    degree: nat,
    requests: Seq<Request>,
    count: nat,
)
    requires
        one.ops == ops,
        other.ops == ops,
        starts::<DefaultHash, DefaultPerm, u8, 200>(one.sponge, one_perm, declaration, iv_size),
        starts::<DefaultHash, DefaultPerm, u8, 200>(other.sponge, other_perm, declaration, iv_size),
        granted(run::<DefaultHash, DefaultPerm, u8, 200>(one, field, degree, requests).1),
        granted(run::<DefaultHash, DefaultPerm, u8, 200>(other, field, degree, requests).1),
        run_heard::<DefaultHash, DefaultPerm, u8, 200>(one, field, degree, requests) == run_heard::<
            DefaultHash,
            DefaultPerm,
            u8,
            200,
        >(other, field, degree, requests),
    ensures
        ({
            let (one_after, one_answers) = run::<DefaultHash, DefaultPerm, u8, 200>(
                one,
                field,
                degree,
                requests,
            );
            let (other_after, other_answers) = run::<DefaultHash, DefaultPerm, u8, 200>(
                other,
                field,
                degree,
                requests,
            );
            let one_drawn = draw_scalars_step::<DefaultHash, DefaultPerm, u8, 200>(
                one_after,
                field,
                degree,
                count,
            );
            let other_drawn = draw_scalars_step::<DefaultHash, DefaultPerm, u8, 200>(
                other_after,
                field,
                degree,
                count,
            );
            &&& forall|i: int|
                0 <= i < requests.len() && !(requests[i] is Hint) ==> #[trigger] one_answers[i]
                    == other_answers[i]
            &&& squeeze_units_step::<DefaultHash, DefaultPerm, u8, 200>(one_after, count).1
                == squeeze_units_step::<DefaultHash, DefaultPerm, u8, 200>(other_after, count).1
            &&& one_drawn.1 == other_drawn.1
            &&& one_drawn.2 == other_drawn.2
        }),
{
    law_default_hash_starts_alike(
        one,
        one_perm,
        other,
        other_perm,
        ops,
        declaration,
        iv_size,
    );
    law_challenges_depend_on_absorbed::<DefaultHash, DefaultPerm, u8, 200>(
        one,
        other,
        field,
        degree,
        requests,
        count,
    );
}

} // verus!
