//! The fields that scalars are taken from, and scalars as their basis coefficients.

use vstd::arithmetic::power::{lemma_pow0, lemma_pow_increases, pow};
use vstd::prelude::*;
use vstd::slice::slice_subrange;

use crate::utils::{
    be_value,
    bit_length,
    bit_length_u64,
    bytes_uniform_modp,
    from_be_bytes_mod_order,
    from_le_bytes_mod_order,
    le_bytes,
    le_value,
    lemma_le_bytes_len,
    lemma_pow_256,
    push_le_bytes,
    spec_bytes_uniform_modp,
};

verus! {

/// A prime field whose order fits in 64 bits, as far as a transcript depends on it.
#[derive(Clone, Copy, Debug, PartialEq, Eq, Structural)]
pub struct BaseField {
    order: u64,
    num_bytes: usize,
}

impl BaseField {
    /// The number of elements of the field.
    pub closed spec fn spec_order(self) -> u64 {
        self.order
    }

    /// The number of bytes that an element takes on the wire.
    pub closed spec fn spec_num_bytes(self) -> usize {
        self.num_bytes
    }

    /// The field has at least two elements, and `num_bytes` bytes, at most eight, hold each of
    /// them.
    pub open spec fn wf(self) -> bool {
        &&& self.spec_order() >= 2
        &&& 1 <= self.spec_num_bytes() <= 8
        &&& self.spec_order() <= pow(256, self.spec_num_bytes() as nat)
    }

    /// The number of bits of the order.
    pub open spec fn spec_bits(self) -> nat {
        bit_length(self.spec_order() as nat)
    }

    /// The number of bytes that one coefficient of a challenge is sampled from.
    pub open spec fn spec_uniform_bytes(self) -> nat {
        spec_bytes_uniform_modp(self.spec_bits())
    }

    /// The field of `order` elements, written with `num_bytes` bytes each, if there is one.
    pub fn new(order: u64, num_bytes: usize) -> (field: Option<BaseField>)
        ensures
            field is Some <==> order >= 2 && 1 <= num_bytes <= 8 && order <= pow(
                256,
                num_bytes as nat,
            ),
            field matches Some(f) ==> f.wf() && f.spec_order() == order && f.spec_num_bytes()
                == num_bytes,
    {
        if order < 2 || num_bytes < 1 || num_bytes > 8 {
            return None;
        }
        let mut capacity: u128 = 1;
        let mut i: usize = 0;
        proof {
            lemma_pow_256();
            lemma_pow0(256);
        }
        while i < num_bytes
            invariant
                i <= num_bytes <= 8,
                capacity == pow(256, i as nat),
                capacity <= pow(256, 8),
                pow(256, 8) == 0x1_0000_0000_0000_0000,
            decreases num_bytes - i,
        {
            proof {
                reveal(pow);
                lemma_pow_increases(256, (i + 1) as nat, 8);
            }
            capacity = capacity * 256;
            i += 1;
        }
        if order as u128 > capacity {
            return None;
        }
        Some(BaseField { order, num_bytes })
    }

    /// The number of elements of the field.
    pub fn order(&self) -> (order: u64)
        ensures
            order == self.spec_order(),
    {
        self.order
    }

    /// The number of bytes that an element takes on the wire.
    pub fn num_bytes(&self) -> (count: usize)
        ensures
            count == self.spec_num_bytes(),
    {
        self.num_bytes
    }

    /// The number of bits of the order.
    pub fn bits(&self) -> (bits: u32)
        ensures
            bits == self.spec_bits(),
            bits <= 64,
    {
        bit_length_u64(self.order)
    }
}

/// An element of an extension of degree `D` over a base field: its coefficients over the basis of
/// the extension, each the canonical representative of an element of the base field. An element of
/// the base field itself is one of degree 1.
#[derive(Clone, Copy, Debug, PartialEq, Eq)]
pub struct Scalar<const D: usize> {
    pub coeffs: [u64; D],
}

impl<const D: usize> View for Scalar<D> {
    type V = Seq<u64>;

    /// The coefficients.
    open spec fn view(&self) -> Seq<u64> {
        self.coeffs@
    }
}

/// Whether every coefficient is the canonical representative of an element of `field`.
pub open spec fn is_canonical(field: BaseField, coeffs: Seq<u64>) -> bool {
    forall|i: int| 0 <= i < coeffs.len() ==> #[trigger] coeffs[i] < field.spec_order()
}

/// The coefficients of a number of scalars.
pub open spec fn coeffs_of<const D: usize>(scalars: Seq<Scalar<D>>) -> Seq<Seq<u64>> {
    scalars.map_values(|scalar: Scalar<D>| scalar@)
}

/// The piece of `bytes` that belongs to coefficient `i`, where each takes `size` bytes.
pub open spec fn chunk(bytes: Seq<u8>, size: nat, i: int) -> Seq<u8> {
    bytes.subrange(i * size, (i + 1) * size)
}

/// The coefficients that `bytes` spell on the wire: each is a little-endian number, reduced modulo
/// the order of the field.
pub open spec fn decoded(field: BaseField, degree: nat, bytes: Seq<u8>) -> Seq<u64> {
    Seq::new(
        degree,
        |i: int|
            {
                let value = le_value(chunk(bytes, field.spec_num_bytes() as nat, i));
                (value % field.spec_order() as nat) as u64
            },
    )
}

/// The coefficients that are sampled from `bytes`: each is a big-endian number, reduced modulo the
/// order of the field.
pub open spec fn sampled(field: BaseField, degree: nat, bytes: Seq<u8>) -> Seq<u64> {
    Seq::new(
        degree,
        |i: int|
            {
                let value = be_value(chunk(bytes, field.spec_uniform_bytes(), i));
                (value % field.spec_order() as nat) as u64
            },
    )
}

/// The wire form of the coefficients of one scalar.
pub open spec fn encoded(field: BaseField, coeffs: Seq<u64>) -> Seq<u8>
    decreases coeffs.len(),
{
    if coeffs.len() == 0 {
        Seq::empty()
    } else {
        encoded(field, coeffs.drop_last()) + le_bytes(
            coeffs.last() as nat,
            field.spec_num_bytes() as nat,
        )
    }
}

/// The wire form of the coefficients of a number of scalars.
pub open spec fn encoded_all(field: BaseField, scalars: Seq<Seq<u64>>) -> Seq<u8>
    decreases scalars.len(),
{
    if scalars.len() == 0 {
        Seq::empty()
    } else {
        encoded_all(field, scalars.drop_last()) + encoded(field, scalars.last())
    }
}

impl<const D: usize> Scalar<D> {
    /// The scalar whose coefficients are all zero.
    pub fn zero() -> (scalar: Self)
        ensures
            scalar@ == Seq::new(D as nat, |i: int| 0u64),
    {
        let scalar = Scalar { coeffs: [0u64; D] };
        assert(scalar@ =~= Seq::new(D as nat, |i: int| 0u64));
        scalar
    }

    /// The scalar that `bytes` spell on the wire.
    pub fn decode(field: &BaseField, bytes: &[u8]) -> (scalar: Self)
        requires
            field.wf(),
            bytes@.len() == D * field.spec_num_bytes(),
        ensures
            scalar@ == decoded(*field, D as nat, bytes@),
    {
        let size: usize = field.num_bytes();
        let len: usize = bytes.len();
        let mut coeffs: [u64; D] = [0u64; D];
        let mut i: usize = 0;
        while i < D
            invariant
                i <= D,
                field.wf(),
                size == field.spec_num_bytes(),
                bytes@.len() == len == D * size,
                forall|j: int|
                    0 <= j < i ==> #[trigger] coeffs@[j] == decoded(*field, D as nat, bytes@)[j],
            decreases D - i,
        {
            assert(0 <= i * size && i * size + size == (i + 1) * size <= D * size) by (nonlinear_arith)
                requires
                    0 <= i < D,
                    0 <= size,
            ;
            let piece: &[u8] = slice_subrange(bytes, i * size, i * size + size);
            coeffs[i] = from_le_bytes_mod_order(piece, field.order());
            i += 1;
        }
        let scalar = Scalar { coeffs };
        assert(scalar@ =~= decoded(*field, D as nat, bytes@));
        scalar
    }

    /// The scalar that is sampled from `bytes`.
    pub fn sample(field: &BaseField, bytes: &[u8]) -> (scalar: Self)
        requires
            field.wf(),
            bytes@.len() == D * field.spec_uniform_bytes(),
        ensures
            scalar@ == sampled(*field, D as nat, bytes@),
    {
        let size: usize = bytes_uniform_modp(field.bits());
        let len: usize = bytes.len();
        let mut coeffs: [u64; D] = [0u64; D];
        let mut i: usize = 0;
        while i < D
            invariant
                i <= D,
                field.wf(),
                size == field.spec_uniform_bytes(),
                bytes@.len() == len == D * size,
                forall|j: int|
                    0 <= j < i ==> #[trigger] coeffs@[j] == sampled(*field, D as nat, bytes@)[j],
            decreases D - i,
        {
            assert(0 <= i * size && i * size + size == (i + 1) * size <= D * size) by (nonlinear_arith)
                requires
                    0 <= i < D,
                    0 <= size,
            ;
            let piece: &[u8] = slice_subrange(bytes, i * size, i * size + size);
            coeffs[i] = from_be_bytes_mod_order(piece, field.order());
            i += 1;
        }
        let scalar = Scalar { coeffs };
        assert(scalar@ =~= sampled(*field, D as nat, bytes@));
        scalar
    }

    /// Appends the wire form of the scalar.
    pub fn encode(&self, field: &BaseField, output: &mut Vec<u8>)
        ensures
            final(output)@ == old(output)@ + encoded(*field, self@),
    {
        let mut i: usize = 0;
        assert(self@.take(0) =~= Seq::<u64>::empty());
        assert(output@ + Seq::<u8>::empty() =~= output@);
        while i < D
            invariant
                i <= D,
                output@ == old(output)@ + encoded(*field, self@.take(i as int)),
            decreases D - i,
        {
            push_le_bytes(output, self.coeffs[i], field.num_bytes());
            proof {
                assert(self@.take(i + 1).drop_last() =~= self@.take(i as int));
                assert(output@ =~= old(output)@ + encoded(*field, self@.take(i + 1)));
            }
            i += 1;
        }
        assert(self@.take(i as int) =~= self@);
    }
}

/// The wire form of `scalars`.
pub fn encode_all<const D: usize>(field: &BaseField, scalars: &[Scalar<D>]) -> (bytes: Vec<u8>)
    ensures
        bytes@ == encoded_all(*field, coeffs_of(scalars@)),
{
    let mut bytes: Vec<u8> = Vec::new();
    let mut i: usize = 0;
    let ghost all = coeffs_of(scalars@);
    assert(all.take(0) =~= Seq::<Seq<u64>>::empty());
    while i < scalars.len()
        invariant
            i <= scalars@.len(),
            all == coeffs_of(scalars@),
            bytes@ == encoded_all(*field, all.take(i as int)),
        decreases scalars@.len() - i,
    {
        scalars[i].encode(field, &mut bytes);
        assert(all.take(i + 1).drop_last() =~= all.take(i as int));
        i += 1;
    }
    assert(all.take(i as int) =~= all);
    bytes
}

/// The wire form of a scalar takes `num_bytes` bytes for each coefficient.
pub proof fn lemma_encoded_len(field: BaseField, coeffs: Seq<u64>)
    ensures
        encoded(field, coeffs).len() == coeffs.len() * field.spec_num_bytes(),
    decreases coeffs.len(),
{
    let size = field.spec_num_bytes() as int;
    if coeffs.len() > 0 {
        lemma_encoded_len(field, coeffs.drop_last());
        lemma_le_bytes_len(coeffs.last() as nat, size as nat);
        assert((coeffs.len() - 1) * size + size == coeffs.len() * size) by (nonlinear_arith);
    }
}

} // verus!
