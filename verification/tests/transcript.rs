use fiat_shamir::domain_separator::{DomainSeparator, Op};
use fiat_shamir::duplex_sponge::DuplexSpongeInterface;
use fiat_shamir::errors::{DomainSeparatorMismatch, ProofError};
use fiat_shamir::field::{encode_all, BaseField, Scalar};
use fiat_shamir::hint::{decode_hint, hint_value};
use fiat_shamir::keccak::{DefaultHash, DefaultPerm, KeccakSponge};
use fiat_shamir::pow::PowStrategy;
use fiat_shamir::utils::{
    bytes_modp, bytes_uniform_modp, from_be_bytes_mod_order, from_le_bytes_mod_order,
    u32_from_le_bytes, u64_from_be_bytes,
};
use fiat_shamir::verifier_state::{UnitToBytes, VerifierState};
use p3_baby_bear::BabyBear;
use p3_keccak::KeccakF;

const BABY_BEAR: u64 = 2013265921;
const GOLDILOCKS: u64 = 18446744069414584321;

type Protocol<const D: usize> = DomainSeparator<DefaultPerm, u8, 200, D>;

fn baby_bear() -> BaseField {
    BaseField::new(BABY_BEAR, 4).unwrap()
}

fn goldilocks() -> BaseField {
    BaseField::new(GOLDILOCKS, 8).unwrap()
}

fn protocol<const D: usize>(session: &str) -> Protocol<D> {
    DomainSeparator::new(session, baby_bear(), KeccakF)
}

fn start<'a, const D: usize>(
    domsep: &Protocol<D>,
    narg: &'a [u8],
) -> VerifierState<'a, DefaultPerm, DefaultHash, u8, 200, D> {
    domsep.to_verifier_state::<DefaultHash, 32>(narg)
}

fn framed(data: &[u8]) -> Vec<u8> {
    let mut narg = (data.len() as u32).to_le_bytes().to_vec();
    narg.extend_from_slice(data);
    narg
}

fn unexpected(requested: Op, expected: Option<Op>) -> DomainSeparatorMismatch {
    DomainSeparatorMismatch::UnexpectedOp { requested, expected }
}

#[test]
fn reads_then_draws_a_challenge() {
    let mut domsep = protocol::<1>("📝");
    domsep.absorb(1, "inhale 🫁");
    domsep.squeeze(32, "exhale 🎏");
    let mut state = start(&domsep, &[0x42]);
    assert_eq!(state.next_units().unwrap(), [0x42]);
    let challenge = state.challenge_units::<32>();
    assert!(challenge.is_ok());
    assert_ne!(challenge.unwrap(), [0; 32]);
}

#[test]
fn declaration_spells_the_instructions() {
    let mut domsep = protocol::<4>("s");
    domsep.absorb(3, "in");
    domsep.squeeze(120, "out");
    domsep.hint("data");
    domsep.add_scalars(2, "xs");
    domsep.challenge_scalars(1, "cs");
    assert_eq!(domsep.as_bytes(), b"s\0A3in\0S120out\0Hdata\0A32xs\0S76cs");
    let ops: Vec<Op> = domsep.finalize().into_iter().collect();
    assert_eq!(
        ops,
        [Op::Absorb(3), Op::Squeeze(120), Op::Hint, Op::Absorb(32), Op::Squeeze(76)]
    );
    assert_eq!(domsep.field(), baby_bear());
}

#[test]
fn neighbours_of_one_kind_are_one_instruction() {
    let mut domsep = protocol::<1>("s");
    domsep.absorb(2, "a");
    domsep.absorb(3, "b");
    domsep.squeeze(1, "c");
    domsep.squeeze(4, "d");
    domsep.hint("e");
    domsep.hint("f");
    assert_eq!(domsep.as_bytes(), b"s\0A2a\0A3b\0S1c\0S4d\0He\0Hf");
    let ops: Vec<Op> = domsep.finalize().into_iter().collect();
    assert_eq!(ops, [Op::Absorb(5), Op::Squeeze(5), Op::Hint, Op::Hint]);

    let mut state = start(&domsep, b"abcde");
    assert_eq!(state.next_units::<5>(), Ok(*b"abcde"));
}

#[test]
fn permuting_the_zero_state_gives_the_known_state() {
    let mut sponge = KeccakSponge::new(KeccakF, [0u8; 32]);
    let mut output = [0u8; 32];
    sponge.squeeze_unchecked(&mut output);
    assert_eq!(
        output,
        [
            0xe7, 0xdd, 0xe1, 0x40, 0x79, 0x8f, 0x25, 0xf1, 0x8a, 0x47, 0xc0, 0x33, 0xf9, 0xcc,
            0xd5, 0x84, 0xee, 0xa9, 0x5a, 0xa6, 0x1e, 0x26, 0x98, 0xd5, 0x4d, 0x49, 0x80, 0x6f,
            0x30, 0x47, 0x15, 0xbd,
        ]
    );
}

#[test]
fn initial_value_reaches_the_output() {
    let mut one = KeccakSponge::new(KeccakF, [0u8; 32]);
    let mut other = KeccakSponge::new(KeccakF, [1u8; 32]);
    let mut one_output = [0u8; 16];
    let mut other_output = [0u8; 16];
    one.squeeze_unchecked(&mut one_output);
    other.squeeze_unchecked(&mut other_output);
    assert_ne!(one_output, other_output);
}

#[test]
fn sponge_absorbs_in_parts() {
    let input: Vec<u8> = (0..300u32).map(|i| (i % 251) as u8).collect();
    let mut whole = KeccakSponge::new(KeccakF, [7u8; 32]);
    whole.absorb_unchecked(&input);
    let mut parts = KeccakSponge::new(KeccakF, [7u8; 32]);
    parts.absorb_unchecked(&input[..100]).absorb_unchecked(&input[100..]);
    let mut whole_output = [0u8; 40];
    let mut parts_output = [0u8; 40];
    whole.squeeze_unchecked(&mut whole_output);
    parts.squeeze_unchecked(&mut parts_output);
    assert_eq!(whole_output, parts_output);
}

#[test]
fn sponge_squeezes_in_parts() {
    let mut whole = KeccakSponge::new(KeccakF, [7u8; 32]);
    whole.absorb_unchecked(b"seed");
    let mut whole_output = [0u8; 300];
    whole.squeeze_unchecked(&mut whole_output);
    let mut parts = KeccakSponge::new(KeccakF, [7u8; 32]);
    parts.absorb_unchecked(b"seed");
    let mut parts_output = [0u8; 300];
    let (head, tail) = parts_output.split_at_mut(130);
    parts.squeeze_unchecked(head).squeeze_unchecked(tail);
    assert_eq!(whole_output, parts_output);
}

#[test]
fn absorbing_after_squeezing_starts_the_rate_anew() {
    let mut one = KeccakSponge::new(KeccakF, [0u8; 32]);
    one.absorb_unchecked(b"a");
    let mut output = [0u8; 8];
    one.squeeze_unchecked(&mut output);
    one.absorb_unchecked(b"b");
    let mut again = [0u8; 8];
    one.squeeze_unchecked(&mut again);

    let mut other = KeccakSponge::new(KeccakF, [0u8; 32]);
    other.absorb_unchecked(b"ab");
    let mut joined = [0u8; 8];
    other.squeeze_unchecked(&mut joined);
    assert_ne!(again, joined);
}

#[test]
fn reading_in_parts_is_reading_at_once() {
    let mut domsep = protocol::<1>("parts");
    domsep.absorb(5, "in");
    domsep.squeeze(16, "out");
    let mut whole = start(&domsep, b"abcde");
    assert_eq!(whole.next_units::<5>(), Ok(*b"abcde"));
    let mut parts = start(&domsep, b"abcde");
    assert_eq!(parts.next_units::<2>(), Ok(*b"ab"));
    assert_eq!(parts.narg_string(), b"cde");
    assert_eq!(parts.next_units::<3>(), Ok(*b"cde"));
    assert_eq!(whole.challenge_units::<16>(), parts.challenge_units::<16>());
}

#[test]
fn drawing_in_parts_is_drawing_at_once() {
    let mut domsep = protocol::<1>("parts");
    domsep.squeeze(16, "out");
    let mut whole = start(&domsep, &[]);
    let all = whole.challenge_units::<16>().unwrap();
    let mut parts = start(&domsep, &[]);
    let head = parts.challenge_units::<6>().unwrap();
    let tail = parts.challenge_units::<10>().unwrap();
    assert_eq!(all[..6], head);
    assert_eq!(all[6..], tail);
}

#[test]
fn scalars_drawn_are_sampled_from_one_squeeze() {
    let mut domsep = protocol::<2>("draw");
    domsep.challenge_scalars(3, "cs");
    let mut state = start(&domsep, &[]);
    let drawn = state.challenge_scalars::<3>().unwrap();
    let mut raw = start(&domsep, &[]);
    let bytes = raw.challenge_units::<114>().unwrap();
    let expected: Vec<Scalar<2>> =
        bytes.chunks(38).map(|piece| Scalar::sample(&baby_bear(), piece)).collect();
    assert_eq!(drawn.to_vec(), expected);
    assert_eq!(
        drawn[1].coeffs[1],
        from_be_bytes_mod_order(&bytes[57..76], BABY_BEAR)
    );
}

#[test]
fn written_scalars_are_read_back() {
    let scalars = [
        Scalar { coeffs: [0, 1, BABY_BEAR - 1] },
        Scalar { coeffs: [123456789, 2, 3] },
    ];
    let mut narg = encode_all(&baby_bear(), &scalars);
    assert_eq!(narg[..12], [0, 0, 0, 0, 1, 0, 0, 0, 0, 0, 0, 0x78]);
    narg.extend_from_slice(b"rest");
    let mut domsep = protocol::<3>("back");
    domsep.add_scalars(2, "xs");
    let mut state = start(&domsep, &narg);
    assert_eq!(state.next_scalars::<2>(), Ok(scalars));
    assert_eq!(state.narg_string(), b"rest");
    assert_eq!(
        state.next_units::<1>(),
        Err(unexpected(Op::Absorb(1), None))
    );
}

#[test]
fn reading_scalars_matches_absorbing_them_as_public() {
    let scalars = [Scalar { coeffs: [5, 6] }, Scalar { coeffs: [7, 8] }];
    let mut domsep = protocol::<2>("match");
    domsep.add_scalars(2, "xs");
    domsep.challenge_scalars(1, "c");
    let mut writer = start(&domsep, &[]);
    let narg = writer.public_scalars(&scalars).unwrap();
    assert_eq!(narg, encode_all(&baby_bear(), &scalars));
    let mut reader = start(&domsep, &narg);
    assert_eq!(reader.next_scalars::<2>(), Ok(scalars));
    assert_eq!(reader.challenge_scalars::<1>(), writer.challenge_scalars::<1>());
}

#[test]
fn numbers_off_the_wire_are_reduced() {
    let mut narg = (BABY_BEAR as u32).to_le_bytes().to_vec();
    narg.extend_from_slice(&u32::MAX.to_le_bytes());
    let mut domsep = protocol::<1>("reduce");
    domsep.add_scalars(2, "xs");
    let mut state = start(&domsep, &narg);
    assert_eq!(
        state.next_scalars::<2>(),
        Ok([Scalar { coeffs: [0] }, Scalar { coeffs: [268435453] }])
    );
}

#[test]
fn eight_byte_fields_are_read_whole() {
    let mut narg = GOLDILOCKS.to_le_bytes().to_vec();
    narg.extend_from_slice(&(GOLDILOCKS - 1).to_le_bytes());
    let mut domsep: Protocol<2> = DomainSeparator::new("g", goldilocks(), KeccakF);
    domsep.add_scalars(1, "x");
    let mut state = start(&domsep, &narg);
    assert_eq!(state.next_scalars::<1>(), Ok([Scalar { coeffs: [0, GOLDILOCKS - 1] }]));
}

#[test]
fn scalars_stop_where_the_narg_string_ends() {
    let mut domsep = protocol::<1>("stop");
    domsep.add_scalars(3, "xs");
    let mut state = start(&domsep, &[1, 0, 0, 0, 2, 0, 0, 0, 3, 0]);
    let mut output = [Scalar { coeffs: [9] }; 3];
    assert_eq!(
        state.fill_next_scalars(&mut output),
        Err(ProofError::InvalidDomainSeparator(DomainSeparatorMismatch::TranscriptExhausted {
            got: 2,
            need: 4,
        }))
    );
    assert_eq!(output, [Scalar { coeffs: [1] }, Scalar { coeffs: [2] }, Scalar { coeffs: [9] }]);
    assert_eq!(state.narg_string(), [3, 0]);
}

#[test]
fn scalars_stop_where_the_instruction_ends() {
    let mut domsep = protocol::<1>("stop");
    domsep.add_scalars(1, "xs");
    domsep.squeeze(19, "c");
    let mut state = start(&domsep, &[1, 0, 0, 0, 2, 0, 0, 0]);
    let mut output = [Scalar::zero(); 2];
    assert_eq!(
        state.fill_next_scalars(&mut output),
        Err(ProofError::InvalidDomainSeparator(unexpected(
            Op::Absorb(4),
            Some(Op::Squeeze(19)),
        )))
    );
    assert_eq!(output, [Scalar { coeffs: [1] }, Scalar { coeffs: [0] }]);

    let mut state = start(&domsep, &[1, 0, 0, 0]);
    assert!(state.next_scalars::<1>().is_ok());
    let mut drawn = [Scalar { coeffs: [9] }; 2];
    assert_eq!(
        state.fill_challenge_scalars(&mut drawn),
        Err(ProofError::InvalidDomainSeparator(unexpected(Op::Squeeze(19), None)))
    );
    assert!(drawn[0].coeffs[0] < BABY_BEAR);
    assert_eq!(drawn[1], Scalar { coeffs: [9] });
}

#[test]
fn no_scalars_take_nothing() {
    let domsep = protocol::<1>("none");
    let mut state = start(&domsep, b"x");
    assert_eq!(state.fill_next_scalars(&mut []), Ok(()));
    assert_eq!(state.fill_challenge_scalars(&mut []), Ok(()));
    assert_eq!(state.narg_string(), b"x");
}

#[test]
fn scalars_are_canonical() {
    let mut domsep = protocol::<4>("canon");
    domsep.add_scalars(2, "xs");
    domsep.challenge_scalars(2, "cs");
    let mut state = start(&domsep, &[0xff; 32]);
    let read = state.next_scalars::<2>().unwrap();
    let drawn = state.challenge_scalars::<2>().unwrap();
    for scalar in read.iter().chain(drawn.iter()) {
        assert!(scalar.coeffs.iter().all(|coeff| *coeff < BABY_BEAR));
    }
}

#[test]
fn declared_scalars_use_up_their_instruction() {
    let mut domsep = protocol::<4>("declared");
    domsep.add_scalars(3, "xs");
    domsep.challenge_scalars(2, "cs");
    domsep.absorb(1, "end");
    let mut narg = vec![1u8; 48];
    narg.push(7);
    let mut state = start(&domsep, &narg);
    assert!(state.next_scalars::<3>().is_ok());
    assert!(state.challenge_scalars::<2>().is_ok());
    assert_eq!(state.narg_string(), [7]);
    assert_eq!(state.next_units::<1>(), Ok([7]));
}

#[test]
fn what_is_not_expected_is_refused_for_good() {
    let mut domsep = protocol::<1>("refuse");
    domsep.absorb(2, "in");
    domsep.squeeze(4, "out");
    domsep.hint("data");
    let narg = b"abcdef";

    let mut state = start(&domsep, narg);
    assert_eq!(
        state.challenge_units::<4>(),
        Err(unexpected(Op::Squeeze(4), Some(Op::Absorb(2))))
    );
    assert_eq!(state.next_units::<2>(), Err(unexpected(Op::Absorb(2), None)));
    assert_eq!(state.challenge_units::<4>(), Err(unexpected(Op::Squeeze(4), None)));
    assert_eq!(state.hint_bytes(), Err(unexpected(Op::Hint, None)));

    let mut state = start(&domsep, narg);
    let mut buffer = [0u8; 3];
    assert_eq!(
        state.fill_next_units(&mut buffer),
        Err(unexpected(Op::Absorb(3), Some(Op::Absorb(2))))
    );
    assert_eq!(buffer, *b"abc");
    assert_eq!(state.narg_string(), b"def");
    assert_eq!(state.next_units::<2>(), Err(unexpected(Op::Absorb(2), None)));
}

#[test]
fn refused_challenge_leaves_the_buffer() {
    let domsep = protocol::<1>("refuse");
    let mut state = start(&domsep, &[]);
    let mut buffer = [3u8; 2];
    assert_eq!(
        state.fill_challenge_units(&mut buffer),
        Err(unexpected(Op::Squeeze(2), None))
    );
    assert_eq!(buffer, [3, 3]);
}

#[test]
fn too_short_a_narg_string_leaves_everything() {
    let mut domsep = protocol::<1>("short");
    domsep.absorb(3, "in");
    let mut state = start(&domsep, b"ab");
    let mut buffer = [9u8; 3];
    let mismatch = DomainSeparatorMismatch::TranscriptExhausted { got: 2, need: 3 };
    assert_eq!(state.fill_next_units(&mut buffer), Err(mismatch));
    assert_eq!(buffer, [9; 3]);
    assert_eq!(state.next_units::<2>(), Ok(*b"ab"));
}

#[test]
fn refused_hint_uses_up_one_instruction() {
    let mut domsep = protocol::<1>("hint");
    domsep.absorb(2, "in");
    domsep.hint("data");
    let mut narg = framed(b"payload");
    narg.extend_from_slice(b"tail");
    let mut state = start(&domsep, &narg);
    assert_eq!(state.hint_bytes(), Err(unexpected(Op::Hint, Some(Op::Absorb(2)))));
    assert_eq!(state.hint_bytes(), Ok(&b"payload"[..]));
    assert_eq!(state.narg_string(), b"tail");
}

#[test]
fn truncated_hints_leave_the_narg_string() {
    let mut domsep = protocol::<1>("hint");
    domsep.hint("one");
    domsep.hint("two");
    let mut state = start(&domsep, &[5, 0, 0, 0, 1, 2]);
    assert_eq!(
        state.hint_bytes(),
        Err(DomainSeparatorMismatch::HintTruncated { got: 2, need: 5 })
    );
    assert_eq!(state.narg_string(), [5, 0, 0, 0, 1, 2]);

    let mut state = start(&domsep, &[5, 0, 0]);
    assert_eq!(state.hint_bytes(), Err(DomainSeparatorMismatch::HintLengthMissing));
    assert_eq!(state.narg_string(), [5, 0, 0]);
}

#[test]
fn hints_bypass_the_sponge() {
    let mut domsep = protocol::<1>("bypass");
    domsep.hint("data");
    domsep.squeeze(16, "out");
    let one_narg = framed(b"one");
    let other_narg = framed(b"another");
    let mut one = start(&domsep, &one_narg);
    let mut other = start(&domsep, &other_narg);
    assert_eq!(one.hint_bytes(), Ok(&b"one"[..]));
    assert_eq!(other.hint_bytes(), Ok(&b"another"[..]));
    assert_eq!(one.challenge_units::<16>(), other.challenge_units::<16>());
}

#[test]
fn challenges_leave_the_narg_string() {
    let mut domsep = protocol::<1>("leave");
    domsep.squeeze(4, "c");
    domsep.challenge_scalars(1, "cs");
    let mut state = start(&domsep, b"narg");
    assert!(state.challenge_units::<4>().is_ok());
    assert!(state.challenge_scalars::<1>().is_ok());
    assert_eq!(state.narg_string(), b"narg");
}

#[test]
fn challenges_depend_on_declaration_and_input() {
    let mut one = protocol::<1>("one");
    one.absorb(1, "in");
    one.squeeze(16, "out");
    let mut other = protocol::<1>("other");
    other.absorb(1, "in");
    other.squeeze(16, "out");
    let challenge = |domsep: &Protocol<1>, narg: &[u8]| {
        let mut state = start(domsep, narg);
        state.next_units::<1>().unwrap();
        state.challenge_units::<16>().unwrap()
    };
    assert_eq!(challenge(&one, b"a"), challenge(&one, b"a"));
    assert_ne!(challenge(&one, b"a"), challenge(&one, b"b"));
    assert_ne!(challenge(&one, b"a"), challenge(&other, b"a"));
}

#[test]
fn hints_decode_or_report_bad_data() {
    let config = bincode::config::standard();
    let mut narg = framed(&bincode::serde::encode_to_vec(&(300u32, true), config).unwrap());
    narg.extend_from_slice(&framed(&[]));
    narg.extend_from_slice(&framed(&[2]));
    let mut domsep = protocol::<1>("decode");
    domsep.hint("pair");
    domsep.hint("nothing");
    domsep.hint("no bool");
    let mut state = start(&domsep, &narg);
    assert_eq!(state.hint::<(u32, bool)>(), Ok((300, true)));
    assert_eq!(state.hint::<u32>(), Err(ProofError::SerializationError));
    assert_eq!(state.hint::<bool>(), Err(ProofError::SerializationError));
    assert_eq!(
        state.hint::<bool>(),
        Err(ProofError::InvalidDomainSeparator(unexpected(Op::Hint, None)))
    );
}

#[test]
fn data_behind_a_decoded_value_is_passed_over() {
    let narg = framed(&[7, 8, 9]);
    let mut domsep = protocol::<1>("behind");
    domsep.hint("byte");
    let mut state = start(&domsep, &narg);
    assert_eq!(state.hint::<u8>(), Ok(7));
    assert!(state.narg_string().is_empty());
}

#[test]
fn data_that_claim_more_than_memory_do_not_decode() {
    let mut data = vec![253];
    data.extend_from_slice(&u64::MAX.to_le_bytes());
    let narg = framed(&data);
    let mut domsep = protocol::<1>("claim");
    domsep.hint("text");
    let mut state = start(&domsep, &narg);
    assert_eq!(state.hint::<String>(), Err(ProofError::SerializationError));
    assert!(state.narg_string().is_empty());
    assert_eq!(
        hint_value(decode_hint::<Vec<String>>(&[[1].as_slice(), data.as_slice()].concat())),
        Err(ProofError::SerializationError)
    );
}

#[test]
fn decoding_goes_through_bincode() {
    let decoded = decode_hint::<u32>(&[251, 0x2c, 0x01]);
    assert!(matches!(decoded, Ok(300)));
    assert_eq!(hint_value(decoded), Ok(300));
    assert_eq!(hint_value(decode_hint::<u32>(&[])), Err(ProofError::SerializationError));
}

/// Takes nonces that end in enough zero bits, and that the challenge is not all zero for.
struct TrailingZeros {
    challenge: [u8; 32],
    bits: f64,
}

impl PowStrategy for TrailingZeros {
    type Difficulty = f64;

    fn new(challenge: [u8; 32], bits: f64) -> Self {
        Self { challenge, bits }
    }

    fn check(&mut self, nonce: u64) -> bool {
        self.challenge != [0; 32] && f64::from(nonce.trailing_zeros()) >= self.bits
    }
}

#[test]
fn work_is_accepted_or_refused() {
    let mut domsep = protocol::<1>("pow");
    domsep.squeeze(32, "challenge");
    domsep.absorb(8, "nonce");

    let narg = 0x0102_0304_0506_0800u64.to_be_bytes();
    let mut state = start(&domsep, &narg);
    assert_eq!(state.challenge_pow::<TrailingZeros>(11.0), Ok(()));
    assert!(state.narg_string().is_empty());

    let mut state = start(&domsep, &narg);
    assert_eq!(state.challenge_pow::<TrailingZeros>(11.5), Err(ProofError::InvalidProof));

    let mut state = start(&domsep, &narg[..7]);
    assert_eq!(
        state.challenge_pow::<TrailingZeros>(0.0),
        Err(ProofError::InvalidDomainSeparator(DomainSeparatorMismatch::TranscriptExhausted {
            got: 7,
            need: 8,
        }))
    );

    let empty = protocol::<1>("pow");
    let mut state = start(&empty, &narg);
    assert_eq!(
        state.challenge_pow::<TrailingZeros>(0.0),
        Err(ProofError::InvalidDomainSeparator(unexpected(Op::Squeeze(32), None)))
    );
}

#[test]
fn digests_are_read_as_they_stand() {
    let mut domsep = protocol::<1>("digest");
    domsep.absorb(4, "digest");
    let mut state = start(&domsep, &[9, 8, 7, 6, 5]);
    let digest: p3_symmetric::Hash<BabyBear, u8, 4> = state.read_digest().unwrap();
    assert_eq!(digest, [9, 8, 7, 6]);
    assert_eq!(digest, p3_symmetric::Hash::from([9, 8, 7, 6]));
    assert_eq!(<[u8; 4]>::from(digest), [9, 8, 7, 6]);
    assert_eq!(state.narg_string(), [5]);
    assert_eq!(
        state.read_digest::<BabyBear, 4>(),
        Err(ProofError::InvalidDomainSeparator(DomainSeparatorMismatch::TranscriptExhausted {
            got: 1,
            need: 4,
        }))
    );
}

#[test]
fn public_scalars_are_refused_where_not_expected() {
    let domsep = protocol::<1>("public");
    let mut state = start(&domsep, &[]);
    assert_eq!(
        state.public_scalars(&[Scalar { coeffs: [1] }]),
        Err(ProofError::InvalidDomainSeparator(unexpected(Op::Absorb(4), None)))
    );
}

#[test]
fn messages_name_what_went_wrong() {
    assert_eq!(
        unexpected(Op::Absorb(120), Some(Op::Squeeze(7))).message(),
        "Invalid tag. Got Absorb(120), expected Squeeze(7)"
    );
    assert_eq!(
        unexpected(Op::Hint, None).message(),
        "Invalid tag. Stack empty, got Hint"
    );
    assert_eq!(
        DomainSeparatorMismatch::TranscriptExhausted { got: 0, need: 10 }.message(),
        "Insufficient transcript remaining, got 0, need 10"
    );
    assert_eq!(
        DomainSeparatorMismatch::HintTruncated { got: 2, need: 5 }.message(),
        "Insufficient transcript remaining, got 2, need 5"
    );
    assert_eq!(
        DomainSeparatorMismatch::HintLengthMissing.message(),
        "Insufficient transcript remaining for hint"
    );
}

#[test]
fn fields_have_their_sizes() {
    assert_eq!(baby_bear().bits(), 31);
    assert_eq!(goldilocks().bits(), 64);
    assert_eq!(baby_bear().order(), BABY_BEAR);
    assert_eq!(goldilocks().num_bytes(), 8);
    assert_eq!(bytes_modp(31), 4);
    assert_eq!(bytes_modp(64), 8);
    assert_eq!(bytes_uniform_modp(31), 19);
    assert_eq!(bytes_uniform_modp(64), 24);
    assert!(BaseField::new(1, 4).is_none());
    assert!(BaseField::new(7, 0).is_none());
    assert!(BaseField::new(7, 9).is_none());
    assert!(BaseField::new(257, 1).is_none());
    assert!(BaseField::new(256, 1).is_some());
}

#[test]
fn bytes_are_numbers() {
    assert_eq!(from_le_bytes_mod_order(&[1, 2, 3], 1000), 0x030201 % 1000);
    assert_eq!(from_be_bytes_mod_order(&[1, 2, 3], 1000), 0x010203 % 1000);
    assert_eq!(from_be_bytes_mod_order(&[0xff; 10], GOLDILOCKS), 281474976645119);
    assert_eq!(from_be_bytes_mod_order(&[0xff; 24], GOLDILOCKS), 0);
    assert_eq!(from_le_bytes_mod_order(&[], 5), 0);
    assert_eq!(u32_from_le_bytes(&[4, 3, 2, 1]), 0x01020304);
    assert_eq!(u64_from_be_bytes(&[1, 2, 3, 4, 5, 6, 7, 8]), 0x0102030405060708);
}

#[test]
fn challenges_of_a_run_ignore_hints_and_unread_bytes() {
    let mut domsep = protocol::<2>("run");
    domsep.absorb(2, "units");
    domsep.hint("first");
    domsep.squeeze(8, "drawn");
    domsep.add_scalars(2, "scalars");
    domsep.hint("second");
    domsep.squeeze(32, "work");
    domsep.absorb(8, "nonce");
    domsep.challenge_scalars(1, "end");

    let narg = |first: &[u8], second: &[u8], unread: &[u8]| {
        let mut narg = b"ab".to_vec();
        narg.extend_from_slice(&framed(first));
        narg.extend_from_slice(&[1, 0, 0, 0, 2, 0, 0, 0]);
        narg.extend_from_slice(&framed(second));
        narg.extend_from_slice(&256u64.to_be_bytes());
        narg.extend_from_slice(unread);
        narg
    };
    let one_narg = narg(b"short", b"", b"");
    let other_narg = narg(b"something longer", b"more", b"tail");
    let public = [Scalar { coeffs: [3, 4] }];

    let run = |narg: &[u8]| {
        let mut state = start(&domsep, narg);
        assert_eq!(state.next_units::<2>(), Ok(*b"ab"));
        state.hint_bytes().unwrap();
        let drawn = state.challenge_units::<8>().unwrap();
        let read = state.next_scalars::<1>().unwrap();
        state.public_scalars(&public).unwrap();
        state.hint_bytes().unwrap();
        assert_eq!(state.challenge_pow::<TrailingZeros>(8.0), Ok(()));
        let end = state.challenge_scalars::<1>().unwrap();
        let refused = state.challenge_units::<1>();
        (drawn, read, end, refused, state.narg_string().to_vec())
    };
    let one = run(&one_narg);
    let other = run(&other_narg);
    assert_eq!((one.0, one.1, one.2, one.3), (other.0, other.1, other.2, other.3));
    assert_eq!(one.1, [Scalar { coeffs: [1, 2] }]);
    assert_eq!(one.3, Err(unexpected(Op::Squeeze(1), None)));
    assert_eq!(one.4, b"");
    assert_eq!(other.4, b"tail");
}

#[test]
fn hints_in_a_row_are_read_back_in_order() {
    let data: [&[u8]; 4] = [b"one", b"", b"three", &[0; 300]];
    let mut domsep = protocol::<1>("row");
    let mut narg = Vec::new();
    for piece in data {
        domsep.hint("data");
        narg.extend_from_slice(&framed(piece));
    }
    let mut state = start(&domsep, &narg);
    for piece in data {
        assert_eq!(state.hint_bytes(), Ok(piece));
    }
    assert!(state.narg_string().is_empty());
}

#[test]
fn values_in_a_row_are_read_back_in_order() {
    let config = bincode::config::standard();
    let mut domsep = protocol::<1>("row");
    let mut narg = Vec::new();
    for piece in [
        bincode::serde::encode_to_vec(7u64, config).unwrap(),
        bincode::serde::encode_to_vec("text", config).unwrap(),
        bincode::serde::encode_to_vec(vec![(1u8, false), (2, true)], config).unwrap(),
    ] {
        domsep.hint("value");
        narg.extend_from_slice(&framed(&piece));
    }
    let mut state = start(&domsep, &narg);
    assert_eq!(state.hint::<u64>(), Ok(7));
    assert_eq!(state.hint::<String>(), Ok("text".to_string()));
    assert_eq!(state.hint::<Vec<(u8, bool)>>(), Ok(vec![(1, false), (2, true)]));
    assert!(state.narg_string().is_empty());
}

#[test]
fn canonical_bytes_are_written_as_they_were_read() {
    let bytes = [5, 1, 0, 0, 0, 0, 0, 0x78, 9, 8, 7, 6, 0, 0, 0, 0];
    let scalar: Scalar<4> = Scalar::decode(&baby_bear(), &bytes);
    assert_eq!(scalar.coeffs, [261, BABY_BEAR - 1, 101124105, 0]);
    assert_eq!(encode_all(&baby_bear(), &[scalar]), bytes);

    let mut domsep = protocol::<2>("write");
    domsep.add_scalars(2, "xs");
    let mut state = start(&domsep, &bytes);
    let read = state.next_scalars::<2>().unwrap();
    assert_eq!(encode_all(&baby_bear(), &read), bytes);

    let order = (BABY_BEAR as u32).to_le_bytes();
    let reduced: Scalar<1> = Scalar::decode(&baby_bear(), &order);
    assert_ne!(encode_all(&baby_bear(), &[reduced]), order);
}

/// Draws two challenges, one after the other.
fn draw_twice<T: UnitToBytes<u8>>(transcript: &mut T) -> ([u8; 4], [u8; 4]) {
    let mut first = [0u8; 4];
    let mut second = [0u8; 4];
    transcript.fill_challenge_units(&mut first).unwrap();
    transcript.fill_challenge_units(&mut second).unwrap();
    (first, second)
}

#[test]
fn challenges_are_drawn_through_the_interface() {
    let mut domsep = protocol::<1>("interface");
    domsep.squeeze(8, "out");
    let (first, second) = draw_twice(&mut start(&domsep, &[]));
    let all = start(&domsep, &[]).challenge_units::<8>().unwrap();
    assert_eq!(all[..4], first);
    assert_eq!(all[4..], second);
}
