use std::{cell::RefCell, rc::Rc};

use fiat_shamir::domain_separator::DomainSeparator;
use fiat_shamir::duplex_sponge::DuplexSpongeInterface;
use fiat_shamir::field::{BaseField, Scalar};
use fiat_shamir::keccak::{DefaultHash, DefaultPerm};
use fiat_shamir::verifier_state::{UnitToBytes, VerifierState};
use p3_baby_bear::BabyBear;
use p3_field::extension::BinomialExtensionField;
use p3_field::{BasedVectorSpace, ExtensionField, Field, PrimeCharacteristicRing, PrimeField64};
use p3_goldilocks::Goldilocks;
use p3_keccak::KeccakF;
use rand::rngs::SmallRng;
use rand::{Rng, SeedableRng};

type F = BabyBear;
type EF4 = BinomialExtensionField<F, 4>;

type G = Goldilocks;
type EG2 = BinomialExtensionField<G, 2>;

type H = DefaultHash;

/// The base field `B`, as transcripts see it.
fn base_field<B: PrimeField64>() -> BaseField {
    BaseField::new(B::ORDER_U64, B::NUM_BYTES).unwrap()
}

/// The coefficients of a field element.
fn scalar<B: PrimeField64, E: ExtensionField<B>, const D: usize>(element: &E) -> Scalar<D> {
    let coeffs: Vec<u64> = element
        .as_basis_coefficients_slice()
        .iter()
        .map(|coeff| coeff.as_canonical_u64())
        .collect();
    Scalar { coeffs: coeffs.try_into().unwrap() }
}

/// The coefficients of field elements.
fn scalars<B: PrimeField64, E: ExtensionField<B>, const D: usize>(elements: &[E]) -> Vec<Scalar<D>> {
    elements.iter().map(scalar::<B, E, D>).collect()
}

/// The field elements with the given coefficients.
fn elements<B: PrimeField64, E: ExtensionField<B>, const D: usize>(scalars: &[Scalar<D>]) -> Vec<E> {
    scalars
        .iter()
        .map(|scalar| {
            E::from_basis_coefficients_iter(scalar.coeffs.iter().map(|coeff| B::from_u64(*coeff)))
                .unwrap()
        })
        .collect()
}

/// A prover: the sponge of the protocol, and the NARG string that it writes.
struct Prover<const D: usize> {
    state: VerifierState<'static, DefaultPerm, H, u8, 200, D>,
    narg: Vec<u8>,
}

impl<const D: usize> Prover<D> {
    fn new(domsep: &DomainSeparator<DefaultPerm, u8, 200, D>) -> Self {
        Self { state: domsep.to_verifier_state::<H, 32>(&[]), narg: Vec::new() }
    }

    fn hint_bytes(&mut self, data: &[u8]) -> Result<(), String> {
        let len = u32::try_from(data.len()).map_err(|error| error.to_string())?;
        self.narg.extend_from_slice(&len.to_le_bytes());
        self.narg.extend_from_slice(data);
        Ok(())
    }

    fn hint<T: serde::Serialize>(&mut self, value: &T) -> Result<(), String> {
        let data = bincode::serde::encode_to_vec(value, bincode::config::standard())
            .map_err(|error| error.to_string())?;
        self.hint_bytes(&data)
    }

    fn add_scalars(&mut self, scalars: &[Scalar<D>]) -> Result<(), String> {
        let bytes = self.state.public_scalars(scalars).map_err(|error| format!("{error:?}"))?;
        self.narg.extend_from_slice(&bytes);
        Ok(())
    }

    fn narg_string(&self) -> &[u8] {
        &self.narg
    }
}

#[derive(Default, Clone)]
struct DummySponge {
    pub absorbed: Rc<RefCell<Vec<u8>>>,
    pub squeezed: Rc<RefCell<Vec<u8>>>,
}

impl DummySponge {
    fn new_inner() -> Self {
        Self {
            absorbed: Rc::new(RefCell::new(Vec::new())),
            squeezed: Rc::new(RefCell::new(Vec::new())),
        }
    }
}

impl DuplexSpongeInterface<KeccakF, u8, 200> for DummySponge {
    fn new<const IV_SIZE: usize>(_keccak: KeccakF, _iv: [u8; IV_SIZE]) -> Self {
        Self::new_inner()
    }

    fn absorb_unchecked(&mut self, input: &[u8]) -> &mut Self {
        self.absorbed.borrow_mut().extend_from_slice(input);
        self
    }

    fn squeeze_unchecked(&mut self, output: &mut [u8]) -> &mut Self {
        for (i, byte) in output.iter_mut().enumerate() {
            *byte = i as u8;
        }
        self.squeezed.borrow_mut().extend_from_slice(output);
        self
    }
}

#[test]
fn test_new_verifier_state_constructs_correctly() {
    let ds = DomainSeparator::<DefaultPerm, u8, 200, 1>::new("test", base_field::<F>(), KeccakF);
    let transcript = b"abc";
    let vs = VerifierState::<_, DefaultHash, _, 200, 1>::new::<32>(&ds, transcript, KeccakF);
    assert_eq!(vs.narg_string(), b"abc");
}

#[test]
fn test_fill_next_units_reads_and_absorbs() {
    let mut ds = DomainSeparator::<DefaultPerm, u8, 200, 1>::new("x", base_field::<F>(), KeccakF);
    ds.absorb(3, "input");
    let mut vs =
        VerifierState::<_, DummySponge, u8, 200, 1>::new::<32>(&ds, b"abc", KeccakF);
    let mut buf = [0u8; 3];
    let res = vs.fill_next_units(&mut buf);
    assert!(res.is_ok());
    assert_eq!(buf, *b"abc");
    assert_eq!(*vs.sponge().absorbed.borrow(), b"abc");
}

#[test]
fn test_fill_next_units_with_insufficient_data_errors() {
    let mut ds = DomainSeparator::<DefaultPerm, u8, 200, 1>::new("x", base_field::<F>(), KeccakF);
    ds.absorb(4, "fail");
    let mut vs = VerifierState::<_, DummySponge, u8, 200, 1>::new::<32>(&ds, b"xy", KeccakF);
    let mut buf = [0u8; 4];
    let res = vs.fill_next_units(&mut buf);
    assert!(res.is_err());
}

#[test]
fn test_unit_transcript_fill_challenge_bytes() {
    let mut ds = DomainSeparator::<DefaultPerm, u8, 200, 1>::new("x", base_field::<F>(), KeccakF);
    ds.squeeze(4, "c");
    let mut vs =
        VerifierState::<_, DummySponge, u8, 200, 1>::new::<32>(&ds, b"abcd", KeccakF);
    let mut out = [0u8; 4];
    assert!(vs.fill_challenge_units(&mut out).is_ok());
    assert_eq!(out, [0, 1, 2, 3]);
}

#[test]
fn test_fill_next_units_impl() {
    let mut ds = DomainSeparator::<DefaultPerm, u8, 200, 1>::new("x", base_field::<F>(), KeccakF);
    ds.absorb(3, "byte");
    let mut vs =
        VerifierState::<_, DummySponge, u8, 200, 1>::new::<32>(&ds, b"xyz", KeccakF);
    let mut out = [0u8; 3];
    assert!(vs.fill_next_units(&mut out).is_ok());
    assert_eq!(out, *b"xyz");
}

#[test]
fn test_fill_next_scalars_babybear() {
    // Step 1: Define two known F scalars to test deserialization
    let values = [F::from_u64(123), F::from_u64(456)];

    // Step 2: Manually serialize the scalars to raw bytes in little-endian u32 format
    // This matches the encoding done in `public_scalars`

    // How many bytes are needed to sample a single base field element
    let num_bytes = F::bits().div_ceil(8);

    let mut raw_bytes = vec![];
    for x in &values {
        let bytes = x.as_canonical_u64().to_le_bytes();
        raw_bytes.extend_from_slice(&bytes[..num_bytes]);
    }

    // Step 3: Create a domain separator that commits to absorbing 2 scalars
    // The label "scalars" is just metadata to distinguish this absorb phase
    let mut domsep: DomainSeparator<DefaultPerm, u8, 200, 1> =
        DomainSeparator::new("test", base_field::<F>(), KeccakF);
    domsep.add_scalars(values.len(), "scalars");

    // Step 4: Create a verifier from the domain separator, loaded with the raw bytes
    let mut verifier = domsep.to_verifier_state::<H, 32>(&raw_bytes);

    // Step 5: Allocate output buffer and deserialize scalars from transcript
    let mut out = [Scalar::<1>::zero(); 2];
    verifier.fill_next_scalars(&mut out).unwrap();

    // Step 6: Check that deserialized scalars exactly match the given ones
    assert_eq!(elements::<F, F, 1>(&out), values);
}

#[test]
fn test_fill_next_scalars_ef4() {
    // Step 1: Construct two known EF4 extension field elements from explicit basis coefficients
    // These test that field elements composed of multiple base field limbs are correctly parsed
    let ef0 = EF4::from_basis_coefficients_iter(
        [
            F::from_u64(16231546437525696111),
            F::from_u64(3260480306969229290),
            F::from_u64(16069356457323344778),
            F::from_u64(18093877879687808447),
        ]
        .into_iter(),
    )
    .unwrap();

    let ef1 = EF4::from_basis_coefficients_iter(
        [
            F::from_u64(4745602262162961622),
            F::from_u64(7823278364822041281),
            F::from_u64(2045790219489339023),
            F::from_u64(9614754510566682848),
        ]
        .into_iter(),
    )
    .unwrap();

    // Step 2: Store the known expected values into a slice
    let values = [ef0, ef1];

    // Step 3: Precomputed raw bytes matching the encoding of `public_scalars`
    // Each EF4 element has 4 F limbs, each limb serialized as 4 LE bytes
    // Total = 2 elements * 4 limbs * 4 bytes = 32 bytes
    let raw_bytes = vec![
        106, 13, 109, 83, // limb 0 of ef0
        132, 35, 135, 77, // limb 1 of ef0
        127, 148, 35, 12, // limb 2 of ef0
        40, 78, 103, 12, // limb 3 of ef0
        153, 244, 3, 21, // limb 0 of ef1
        244, 220, 153, 42, // limb 1 of ef1
        30, 27, 16, 97, // limb 2 of ef1
        224, 9, 66, 40, // limb 3 of ef1
    ];

    // Step 4: Create a domain separator for absorbing 2 EF4 values
    let mut domsep: DomainSeparator<DefaultPerm, u8, 200, 4> =
        DomainSeparator::new("ext", base_field::<F>(), KeccakF);
    domsep.add_scalars(values.len(), "ext-scalars");

    // Step 5: Construct a verifier state from the domain separator and raw byte input
    let mut verifier = domsep.to_verifier_state::<H, 32>(&raw_bytes);

    // Step 6: Allocate an output array and deserialize into it from the verifier
    let mut out = [Scalar::<4>::zero(); 2];
    verifier.fill_next_scalars(&mut out).unwrap();

    // Step 7: Ensure the decoded extension field elements match the given values
    assert_eq!(elements::<F, EF4, 4>(&out), values);
}

#[test]
fn scalar_challenge_single_basefield_case_1() {
    // Generate a domain separator with known tag and one challenge scalar
    let mut domsep: DomainSeparator<DefaultPerm, u8, 200, 1> =
        DomainSeparator::new("chal", base_field::<F>(), KeccakF);
    domsep.challenge_scalars(1, "tag");
    let mut prover = domsep.to_verifier_state::<H, 32>(&[]);

    // Sample a single scalar
    let mut out = [Scalar::<1>::zero(); 1];
    prover.fill_challenge_scalars(&mut out).unwrap();

    assert_eq!(elements::<F, F, 1>(&out), [F::from_u64(941695054)]);
}

#[test]
fn scalar_challenge_single_basefield_case_2() {
    let mut domsep: DomainSeparator<DefaultPerm, u8, 200, 1> =
        DomainSeparator::new("chal2", base_field::<F>(), KeccakF);
    domsep.challenge_scalars(1, "tag");
    let mut prover = domsep.to_verifier_state::<H, 32>(&[]);

    let mut out = [Scalar::<1>::zero(); 1];
    prover.fill_challenge_scalars(&mut out).unwrap();

    assert_eq!(elements::<F, F, 1>(&out), [F::from_u64(1368000007)]);
}

#[test]
fn scalar_challenge_multiple_basefield_scalars() {
    let mut domsep: DomainSeparator<DefaultPerm, u8, 200, 1> =
        DomainSeparator::new("chal", base_field::<F>(), KeccakF);
    domsep.challenge_scalars(10, "tag");
    let mut prover = domsep.to_verifier_state::<H, 32>(&[]);

    let mut out = [Scalar::<1>::zero(); 10];
    prover.fill_challenge_scalars(&mut out).unwrap();

    assert_eq!(
        elements::<F, F, 1>(&out),
        [
            F::from_u64(1339394730),
            F::from_u64(299253387),
            F::from_u64(639309475),
            F::from_u64(291978),
            F::from_u64(693273190),
            F::from_u64(79969777),
            F::from_u64(1282539175),
            F::from_u64(1950046278),
            F::from_u64(1245120766),
            F::from_u64(1108619098)
        ]
    );
}

#[test]
fn scalar_challenge_single_extension_scalar() {
    let mut domsep: DomainSeparator<DefaultPerm, u8, 200, 4> =
        DomainSeparator::new("chal", base_field::<F>(), KeccakF);
    domsep.challenge_scalars(1, "tag");
    let mut prover = domsep.to_verifier_state::<H, 32>(&[]);

    let mut out = [Scalar::<4>::zero(); 1];
    prover.fill_challenge_scalars(&mut out).unwrap();

    let expected = EF4::from_basis_coefficients_iter(
        [
            F::new(766723793),
            F::new(142148826),
            F::new(1747592655),
            F::new(1079604003),
        ]
        .into_iter(),
    )
    .unwrap();

    assert_eq!(elements::<F, EF4, 4>(&out), [expected]);
}

#[test]
fn scalar_challenge_multiple_extension_scalars() {
    let mut domsep: DomainSeparator<DefaultPerm, u8, 200, 4> =
        DomainSeparator::new("chal", base_field::<F>(), KeccakF);
    domsep.challenge_scalars(5, "tag");
    let mut prover = domsep.to_verifier_state::<H, 32>(&[]);

    let mut out = [Scalar::<4>::zero(); 5];
    prover.fill_challenge_scalars(&mut out).unwrap();

    let ef0 = EF4::from_basis_coefficients_iter(
        [
            F::new(221219480),
            F::new(1982332342),
            F::new(625475973),
            F::new(421782538),
        ]
        .into_iter(),
    )
    .unwrap();

    let ef1 = EF4::from_basis_coefficients_iter(
        [
            F::new(1967478349),
            F::new(966593806),
            F::new(1839663095),
            F::new(878608238),
        ]
        .into_iter(),
    )
    .unwrap();

    let ef2 = EF4::from_basis_coefficients_iter(
        [
            F::new(1330039744),
            F::new(410562161),
            F::new(825994336),
            F::new(1112934023),
        ]
        .into_iter(),
    )
    .unwrap();

    let ef3 = EF4::from_basis_coefficients_iter(
        [
            F::new(111882429),
            F::new(1246071646),
            F::new(1718768295),
            F::new(1127778746),
        ]
        .into_iter(),
    )
    .unwrap();

    let ef4 = EF4::from_basis_coefficients_iter(
        [
            F::new(1533982496),
            F::new(1606406037),
            F::new(1075981915),
            F::new(1199951082),
        ]
        .into_iter(),
    )
    .unwrap();

    assert_eq!(elements::<F, EF4, 4>(&out), [ef0, ef1, ef2, ef3, ef4]);
}

#[test]
fn test_common_field_to_unit_bytes_babybear() {
    // Generate some random F values
    let values = [F::from_u64(111), F::from_u64(222)];

    // Create a domain separator indicating we will absorb 2 public scalars
    let mut domsep: DomainSeparator<DefaultPerm, u8, 200, 1> =
        DomainSeparator::new("field", base_field::<F>(), KeccakF);
    domsep.add_scalars(2, "test");

    // Create prover and serialize expected values manually
    let expected_bytes = [111, 0, 0, 0, 222, 0, 0, 0];

    let mut prover = domsep.to_verifier_state::<H, 32>(&[]);
    let actual = prover.public_scalars(&scalars::<F, F, 1>(&values)).unwrap();

    assert_eq!(
        actual, expected_bytes,
        "Public scalars should serialize to expected bytes"
    );

    // Determinism: same input, same transcript = same output
    let mut prover2 = domsep.to_verifier_state::<H, 32>(&[]);
    let actual2 = prover2.public_scalars(&scalars::<F, F, 1>(&values)).unwrap();

    assert_eq!(
        actual, actual2,
        "Transcript serialization should be deterministic"
    );
}

#[test]
fn test_common_field_to_unit_bytes_goldilocks() {
    // Generate some random Goldilocks values
    let values = [G::from_u64(111), G::from_u64(222)];

    // Create a domain separator indicating we will absorb 2 public scalars
    let mut domsep: DomainSeparator<DefaultPerm, u8, 200, 1> =
        DomainSeparator::new("field", base_field::<G>(), KeccakF);
    domsep.add_scalars(2, "test");

    // Create prover and serialize expected values manually
    let expected_bytes = [111, 0, 0, 0, 0, 0, 0, 0, 222, 0, 0, 0, 0, 0, 0, 0];

    let mut prover = domsep.to_verifier_state::<H, 32>(&[]);
    let actual = prover.public_scalars(&scalars::<G, G, 1>(&values)).unwrap();

    assert_eq!(
        actual, expected_bytes,
        "Public scalars should serialize to expected bytes"
    );

    // Determinism: same input, same transcript = same output
    let mut prover2 = domsep.to_verifier_state::<H, 32>(&[]);
    let actual2 = prover2.public_scalars(&scalars::<G, G, 1>(&values)).unwrap();

    assert_eq!(
        actual, actual2,
        "Transcript serialization should be deterministic"
    );
}

#[test]
fn test_common_field_to_unit_bytes_babybear_extension() {
    // Construct two extension field elements using known u64 inputs
    let values = [EF4::from_u64(111), EF4::from_u64(222)];

    // Create a domain separator committing to 2 public scalars
    let mut domsep: DomainSeparator<DefaultPerm, u8, 200, 4> =
        DomainSeparator::new("field", base_field::<F>(), KeccakF);
    domsep.add_scalars(2, "test");

    // Compute expected bytes manually: serialize each coefficient of EF4
    let expected_bytes = [
        111, 0, 0, 0, 0, 0, 0, 0, 0, 0, 0, 0, 0, 0, 0, 0, 222, 0, 0, 0, 0, 0, 0, 0, 0, 0, 0, 0,
        0, 0, 0, 0,
    ];

    // Serialize the values through the transcript
    let mut prover = domsep.to_verifier_state::<H, 32>(&[]);
    let actual = prover.public_scalars(&scalars::<F, EF4, 4>(&values)).unwrap();

    // Check that the actual bytes match expected ones
    assert_eq!(
        actual, expected_bytes,
        "Public scalars should serialize to expected bytes"
    );

    // Check determinism: same input = same output
    let mut prover2 = domsep.to_verifier_state::<H, 32>(&[]);
    let actual2 = prover2.public_scalars(&scalars::<F, EF4, 4>(&values)).unwrap();

    assert_eq!(
        actual, actual2,
        "Transcript serialization should be deterministic"
    );
}

#[test]
fn test_common_field_to_unit_bytes_goldilocks_extension() {
    // Construct two extension field elements using known u64 inputs
    let values = [EG2::from_u64(111), EG2::from_u64(222)];

    // Create a domain separator committing to 2 public scalars
    let mut domsep: DomainSeparator<DefaultPerm, u8, 200, 2> =
        DomainSeparator::new("field", base_field::<G>(), KeccakF);
    domsep.add_scalars(2, "test");

    // Compute expected bytes manually: serialize each coefficient of EF4
    let expected_bytes = [
        111, 0, 0, 0, 0, 0, 0, 0, 0, 0, 0, 0, 0, 0, 0, 0, 222, 0, 0, 0, 0, 0, 0, 0, 0, 0, 0, 0,
        0, 0, 0, 0,
    ];

    // Serialize the values through the transcript
    let mut prover = domsep.to_verifier_state::<H, 32>(&[]);
    let actual = prover.public_scalars(&scalars::<G, EG2, 2>(&values)).unwrap();

    // Check that the actual bytes match expected ones
    assert_eq!(
        actual, expected_bytes,
        "Public scalars should serialize to expected bytes"
    );

    // Check determinism: same input = same output
    let mut prover2 = domsep.to_verifier_state::<H, 32>(&[]);
    let actual2 = prover2.public_scalars(&scalars::<G, EG2, 2>(&values)).unwrap();

    assert_eq!(
        actual, actual2,
        "Transcript serialization should be deterministic"
    );
}

#[test]
fn test_common_field_to_unit_mixed_values() {
    let values = [F::ZERO, F::ONE, F::from_u64(123456), F::from_u64(7891011)];

    let mut domsep: DomainSeparator<DefaultPerm, u8, 200, 1> =
        DomainSeparator::new("mixed", base_field::<F>(), KeccakF);
    domsep.add_scalars(values.len(), "mix");

    let mut prover = domsep.to_verifier_state::<H, 32>(&[]);
    let actual = prover.public_scalars(&scalars::<F, F, 1>(&values)).unwrap();

    let expected = vec![0, 0, 0, 0, 1, 0, 0, 0, 64, 226, 1, 0, 67, 104, 120, 0];

    assert_eq!(actual, expected, "Mixed values should serialize correctly");

    let mut prover2 = domsep.to_verifier_state::<H, 32>(&[]);
    assert_eq!(
        actual,
        prover2.public_scalars(&scalars::<F, F, 1>(&values)).unwrap(),
        "Serialization must be deterministic"
    );
}

#[test]
fn test_hint_bytes_verifier_valid_hint() {
    // Domain separator commits to a hint
    let mut domsep: DomainSeparator<DefaultPerm, u8, 200, 1> =
        DomainSeparator::new("valid", base_field::<F>(), KeccakF);
    domsep.hint("hint");

    let mut prover = Prover::new(&domsep);

    let hint = b"abc123";
    prover.hint_bytes(hint).unwrap();

    let narg = prover.narg_string();

    let mut verifier = domsep.to_verifier_state::<H, 32>(narg);
    let result = verifier.hint_bytes().unwrap();
    assert_eq!(result, hint);
}

#[test]
fn test_hint_bytes_verifier_empty_hint() {
    // Commit to a hint instruction
    let mut domsep: DomainSeparator<DefaultPerm, u8, 200, 1> =
        DomainSeparator::new("empty", base_field::<F>(), KeccakF);
    domsep.hint("hint");

    let mut prover = Prover::new(&domsep);

    let hint = b"";
    prover.hint_bytes(hint).unwrap();

    let narg = prover.narg_string();

    let mut verifier = domsep.to_verifier_state::<H, 32>(narg);
    let result = verifier.hint_bytes().unwrap();
    assert_eq!(result, b"");
}

#[test]
fn test_hint_bytes_verifier_no_hint_op() {
    // No hint instruction in domain separator
    let domsep: DomainSeparator<DefaultPerm, u8, 200, 1> =
        DomainSeparator::new("nohint", base_field::<F>(), KeccakF);

    // Manually construct a hint buffer (length = 6, followed by bytes)
    let mut narg = vec![6, 0, 0, 0]; // length prefix for 6
    narg.extend_from_slice(b"abc123");

    let mut verifier = domsep.to_verifier_state::<H, 32>(&narg);

    assert!(verifier.hint_bytes().is_err());
}

#[test]
fn test_hint_bytes_verifier_length_prefix_too_short() {
    // Valid hint domain separator
    let mut domsep: DomainSeparator<DefaultPerm, u8, 200, 1> =
        DomainSeparator::new("short", base_field::<F>(), KeccakF);
    domsep.hint("hint");

    // Provide only 3 bytes, which is not enough for a u32 length
    let narg = &[1, 2, 3]; // less than 4 bytes

    let mut verifier = domsep.to_verifier_state::<H, 32>(narg);

    let err = verifier.hint_bytes().unwrap_err();
    assert!(
        err.message().contains("Insufficient transcript remaining for hint"),
        "Expected error for short prefix, got: {}",
        err.message()
    );
}

#[test]
fn test_hint_bytes_verifier_declared_hint_too_long() {
    // Valid hint domain separator
    let mut domsep: DomainSeparator<DefaultPerm, u8, 200, 1> =
        DomainSeparator::new("overflow", base_field::<F>(), KeccakF);
    domsep.hint("hint");

    // Prefix says "5 bytes", but we only supply 2
    let narg = &[5, 0, 0, 0, b'a', b'b'];

    let mut verifier = domsep.to_verifier_state::<H, 32>(narg);

    let err = verifier.hint_bytes().unwrap_err();
    assert!(
        err.message().contains("Insufficient transcript remaining"),
        "Expected error for hint length > actual NARG bytes, got: {}",
        err.message()
    );
}

#[test]
fn test_hint_single_field_and_extension_round_trip() {
    // Create a domain separator tagged with "hint-single"
    // This will record all instructions for the Fiat-Shamir transcript
    let mut domsep: DomainSeparator<DefaultPerm, u8, 200, 1> =
        DomainSeparator::new("hint-single", base_field::<F>(), KeccakF);

    // Register two hints in the domain separator: one for the base field, one for the extension field
    domsep.hint("base-field-hint");
    domsep.hint("extension-field-hint");

    // Construct the prover state from the domain separator
    let mut prover = Prover::new(&domsep);

    // Define a single base field element to be used as a hint
    let elem = F::from_u64(42);

    // Define a corresponding extension field element (EF4)
    let elem_extension = EF4::from_u64(420);

    // Serialize and insert the base field hint into the prover transcript
    prover.hint(&elem).unwrap();

    // Serialize and insert the extension field hint into the prover transcript
    prover.hint(&elem_extension).unwrap();

    // Finalize the prover and extract the serialized transcript (narg string)
    let narg = prover.narg_string();

    // Create a verifier state using the same domain separator and prover-generated NARG string
    let mut verifier = domsep.to_verifier_state::<H, 32>(narg);

    // Read and deserialize the base field hint on the verifier side
    let hint = verifier.hint::<F>().unwrap();

    // Ensure the deserialized base field element matches the given one
    assert_eq!(hint, elem);

    // Read and deserialize the extension field hint on the verifier side
    let hint_extension = verifier.hint::<EF4>().unwrap();

    // Ensure the deserialized extension field element matches the given one
    assert_eq!(hint_extension, elem_extension);
}

#[test]
fn test_hint_vec_field_and_extension_round_trip() {
    // Create domain separator labeled "hint-vec"
    let mut domsep: DomainSeparator<DefaultPerm, u8, 200, 1> =
        DomainSeparator::new("hint-vec", base_field::<F>(), KeccakF);

    // Register two hints: one for Vec<F> and one for Vec<EF4>
    domsep.hint("vec-base");
    domsep.hint("vec-extension");

    // Create prover from the domain separator
    let mut prover = Prover::new(&domsep);

    // Base field vector to hint
    let elems = vec![
        F::from_u64(1),
        F::from_u64(2),
        F::from_u64(3),
        F::from_u64(42),
    ];

    // Extension field vector to hint
    let elems_extension = vec![
        EF4::from_u64(5),
        EF4::from_u64(6),
        EF4::from_u64(7),
        EF4::from_u64(88),
    ];

    // Write base field vector to prover hint
    prover.hint(&elems).unwrap();

    // Write extension field vector to prover hint
    prover.hint(&elems_extension).unwrap();

    // Finalize prover
    let narg = prover.narg_string();

    // Create verifier using the same domain separator
    let mut verifier = domsep.to_verifier_state::<H, 32>(narg);

    // Read and check base field vector hint
    let hint = verifier.hint::<Vec<F>>().unwrap();
    assert_eq!(hint, elems);

    // Read and check extension field vector hint
    let hint_extension = verifier.hint::<Vec<EF4>>().unwrap();
    assert_eq!(hint_extension, elems_extension);
}

#[test]
fn test_hint_vec_vec_field_and_extension_round_trip() {
    // Domain separator for nested vectors
    let mut domsep: DomainSeparator<DefaultPerm, u8, 200, 1> =
        DomainSeparator::new("hint-vec-vec", base_field::<F>(), KeccakF);

    // Register hints for nested base and extension field vectors
    domsep.hint("nested-base");
    domsep.hint("nested-extension");

    // Build prover state
    let mut prover = Prover::new(&domsep);

    // Nested base field vector
    let elems = vec![
        vec![F::from_u64(1), F::from_u64(2)],
        vec![F::from_u64(3)],
        vec![],
        vec![F::from_u64(42)],
    ];

    // Nested extension field vector
    let elems_extension = vec![
        vec![EF4::from_u64(10), EF4::from_u64(20)],
        vec![],
        vec![EF4::from_u64(30)],
    ];

    // Serialize both into prover
    prover.hint(&elems).unwrap();
    prover.hint(&elems_extension).unwrap();

    // Finalize and extract NARG string
    let narg = prover.narg_string();

    // Build verifier
    let mut verifier = domsep.to_verifier_state::<H, 32>(narg);

    // Check nested base field round-trip
    let hint = verifier.hint::<Vec<Vec<F>>>().unwrap();
    assert_eq!(hint, elems);

    // Check nested extension field round-trip
    let hint_extension = verifier.hint::<Vec<Vec<EF4>>>().unwrap();
    assert_eq!(hint_extension, elems_extension);
}

#[test]
fn test_hint_vec_vec_digest_round_trip() {
    const DIGEST_ELEMS: usize = 4;

    // Domain separator for digest hint
    let mut domsep: DomainSeparator<DefaultPerm, u8, 200, 1> =
        DomainSeparator::new("hint-digest", base_field::<F>(), KeccakF);

    // Register hint labeled "digest"
    domsep.hint("digest");

    // Build prover
    let mut prover = Prover::new(&domsep);

    // Nested digest array hint
    let elems: Vec<Vec<[u8; DIGEST_ELEMS]>> = vec![
        vec![[1, 2, 3, 4], [5, 6, 7, 8]],
        vec![[9, 10, 11, 12]],
        vec![],
    ];

    // Write to prover
    prover.hint(&elems).unwrap();

    // Finalize and serialize
    let narg = prover.narg_string();

    // Build verifier
    let mut verifier = domsep.to_verifier_state::<H, 32>(narg);

    // Deserialize and verify match
    let hint = verifier.hint::<Vec<Vec<[u8; DIGEST_ELEMS]>>>().unwrap();
    assert_eq!(hint, elems);
}

#[test]
fn test_public_scalars_round_trip_to_verifier_challenge_scalars() {
    // Number of public scalars to generate
    const NUM_SCALARS: usize = 5;

    let mut rng = SmallRng::seed_from_u64(1);

    // Create domain separator
    let mut domsep: DomainSeparator<DefaultPerm, u8, 200, 4> =
        DomainSeparator::new("roundtrip", base_field::<F>(), KeccakF);

    // Generate random EF4 scalars
    let random_scalars: Vec<EF4> = (0..NUM_SCALARS).map(|_| rng.random()).collect();

    // Record public scalars in the transcript
    domsep.add_scalars(NUM_SCALARS, "public-scalars");

    // Create prover and absorb public scalars
    let mut prover = Prover::new(&domsep);
    prover.add_scalars(&scalars::<F, EF4, 4>(&random_scalars)).unwrap();

    // Extract transcript (narg string)
    let narg = prover.narg_string();

    // Create verifier
    let mut verifier = domsep.to_verifier_state::<H, 32>(narg);

    // Read back absorbed scalars
    let mut verifier_scalars = [Scalar::<4>::zero(); NUM_SCALARS];
    verifier.fill_next_scalars(&mut verifier_scalars).unwrap();
    assert_eq!(
        elements::<F, EF4, 4>(&verifier_scalars),
        random_scalars,
        "Verifier absorbed scalars should match"
    );
}
