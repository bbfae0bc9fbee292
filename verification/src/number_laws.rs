//! Laws on numbers as bytes: what each byte is worth, and what each byte is.

use vstd::arithmetic::div_mod::{lemma_div_denominator, lemma_mod_bound};
use vstd::arithmetic::power::{lemma_pow0, lemma_pow_positive, pow};
use vstd::arithmetic::power2::{lemma2_to64, lemma_pow2_unfold, pow2};
use vstd::prelude::*;

use crate::errors::decimal_text;
use crate::field::{
    chunk,
    decoded,
    encoded,
    encoded_all,
    lemma_encoded_len,
    sampled,
    BaseField,
};
use crate::utils::{
    be_value,
    bit_length,
    decimal,
    le_bytes,
    le_value,
    lemma_le_bytes_len,
    spec_bytes_modp,
    spec_bytes_uniform_modp,
};

verus! {

/// The sum of some numbers.
spec fn sum(terms: Seq<int>) -> int {
    terms.fold_left(0int, |total: int, term: int| total + term)
}

/// A factor can be taken out of a sum.
proof fn lemma_sum_scaled(terms: Seq<int>, scaled: Seq<int>, factor: int)
    requires
        scaled.len() == terms.len(),
        forall|k: int| 0 <= k < terms.len() ==> #[trigger] scaled[k] == factor * terms[k],
    ensures
        sum(scaled) == factor * sum(terms),
    decreases terms.len(),
{
    if terms.len() > 0 {
        lemma_sum_scaled(terms.drop_last(), scaled.drop_last(), factor);
        assert(scaled.last() == factor * terms.last());
        assert(factor * (sum(terms.drop_last()) + terms.last()) == factor * sum(terms.drop_last())
            + factor * terms.last()) by (nonlinear_arith);
    } else {
        assert(factor * 0 == 0) by (nonlinear_arith);
    }
}

/// A big-endian number is the sum of its bytes, each times the power of 256 of its place, the last
/// byte worth 1.
pub proof fn law_big_endian_places(bytes: Seq<u8>)
    ensures
        be_value(bytes) == Seq::new(
            bytes.len(),
            |k: int| bytes[k] as int * pow(256, (bytes.len() - 1 - k) as nat),
        ).fold_left(0int, |total: int, term: int| total + term),
    decreases bytes.len(),
{
    let n = bytes.len();
    let terms = Seq::new(n, |k: int| bytes[k] as int * pow(256, (n - 1 - k) as nat));
    if n > 0 {
        let front = bytes.drop_last();
        let fewer = Seq::new(
            front.len(),
            |k: int| front[k] as int * pow(256, (front.len() - 1 - k) as nat),
        );
        law_big_endian_places(front);
        assert forall|k: int| 0 <= k < fewer.len() implies #[trigger] terms.drop_last()[k] == 256
            * fewer[k] by {
            reveal(pow);
            let place = pow(256, (n - 2 - k) as nat);
            assert(pow(256, (n - 1 - k) as nat) == 256 * place);
            let byte = bytes[k] as int;
            assert(byte * (256 * place) == 256 * (byte * place)) by (nonlinear_arith);
        }
        lemma_sum_scaled(fewer, terms.drop_last(), 256);
        lemma_pow0(256);
        assert(terms.last() == bytes.last());
        assert(be_value(front) == sum(fewer));
    }
    assert(be_value(bytes) == sum(terms));
}

/// The last byte of a little-endian number is worth the most.
proof fn lemma_le_last(bytes: Seq<u8>)
    requires
        bytes.len() > 0,
    ensures
        le_value(bytes) == le_value(bytes.drop_last()) + bytes.last() * pow(
            256,
            (bytes.len() - 1) as nat,
        ),
    decreases bytes.len(),
{
    let n = bytes.len();
    if n == 1 {
        lemma_pow0(256);
        assert(le_value(bytes.drop_first()) == 0);
        assert(le_value(bytes.drop_last()) == 0);
    } else {
        let tail = bytes.drop_first();
        lemma_le_last(tail);
        assert(tail.drop_last() =~= bytes.drop_last().drop_first());
        reveal(pow);
        let place = pow(256, (n - 2) as nat);
        let last = bytes.last() as int;
        assert(256 * (last * place) == last * (256 * place)) by (nonlinear_arith);
    }
}

/// A little-endian number is the sum of its bytes, each times the power of 256 of its place, the
/// first byte worth 1.
pub proof fn law_little_endian_places(bytes: Seq<u8>)
    ensures
        le_value(bytes) == Seq::new(
            bytes.len(),
            |k: int| bytes[k] as int * pow(256, k as nat),
        ).fold_left(0int, |total: int, term: int| total + term),
    decreases bytes.len(),
{
    let terms = Seq::new(bytes.len(), |k: int| bytes[k] as int * pow(256, k as nat));
    if bytes.len() > 0 {
        let front = bytes.drop_last();
        law_little_endian_places(front);
        lemma_le_last(bytes);
        assert(terms.drop_last() =~= Seq::new(
            front.len(),
            |k: int| front[k] as int * pow(256, k as nat),
        ));
    }
    assert(le_value(bytes) == sum(terms));
}

/// Byte `k` of the bytes of a number is the digit of that place to base 256.
pub proof fn law_bytes_are_digits(value: nat, count: nat, k: int)
    requires
        0 <= k < count,
    ensures
        le_bytes(value, count).len() == count,
        le_bytes(value, count)[k] == (value as int / pow(256, k as nat)) % 256,
    decreases count,
{
    lemma_le_bytes_len(value, count);
    let rest = le_bytes(value / 256, (count - 1) as nat);
    lemma_le_bytes_len(value / 256, (count - 1) as nat);
    if k == 0 {
        lemma_pow0(256);
    } else {
        law_bytes_are_digits(value / 256, (count - 1) as nat, k - 1);
        assert(le_bytes(value, count)[k] == rest[k - 1]);
        lemma_pow_positive(256, (k - 1) as nat);
        lemma_div_denominator(value as int, 256, pow(256, (k - 1) as nat));
        reveal(pow);
    }
}

/// A number has as many binary digits as it takes to hold it.
pub proof fn law_bit_length(value: nat)
    ensures
        value < pow2(bit_length(value)),
        value > 0 ==> bit_length(value) > 0 && pow2((bit_length(value) - 1) as nat) <= value,
        value == 0 ==> bit_length(value) == 0,
    decreases value,
{
    lemma2_to64();
    if value > 0 {
        law_bit_length(value / 2);
        lemma_pow2_unfold(bit_length(value));
        if value / 2 > 0 {
            lemma_pow2_unfold((bit_length(value) - 1) as nat);
        }
    }
}

/// The bytes of an element on the wire are the fewest that hold all its bits.
pub proof fn law_wire_bytes_are_fewest(modulus_bits: nat)
    ensures
        8 * spec_bytes_modp(modulus_bits) >= modulus_bits,
        8 * spec_bytes_modp(modulus_bits) < modulus_bits + 8,
{
}

/// The bytes of a sample are the most that 128 bits over those of the order fill.
pub proof fn law_sample_bytes_are_most(modulus_bits: nat)
    ensures
        8 * spec_bytes_uniform_modp(modulus_bits) <= modulus_bits + 128,
        8 * spec_bytes_uniform_modp(modulus_bits) + 8 > modulus_bits + 128,
{
}

/// The sizes of a field follow from its order: `bits` is the number of binary digits of the order,
/// and a sample takes as many whole bytes as 128 bits more than these fill.
pub proof fn law_field_sizes(field: BaseField)
    requires
        field.wf(),
    ensures
        field.spec_bits() > 0,
        pow2((field.spec_bits() - 1) as nat) <= field.spec_order() < pow2(field.spec_bits()),
        8 * field.spec_uniform_bytes() <= field.spec_bits() + 128 < 8 * field.spec_uniform_bytes()
            + 8,
{
    law_bit_length(field.spec_order() as nat);
}

/// The decimal digits of a number are digits, the first is not zero unless it is the only one, and
/// they spell the number.
pub proof fn law_decimal_spells(value: nat)
    ensures
        decimal(value).len() > 0,
        forall|i: int| 0 <= i < decimal(value).len() ==> 48 <= #[trigger] decimal(value)[i] <= 57,
        decimal(value)[0] == 48 ==> decimal(value).len() == 1,
        decimal(value).fold_left(0int, |total: int, digit: u8| 10 * total + (digit - 48)) == value,
    decreases value,
{
    let digits = decimal(value);
    if value < 10 {
        assert(digits.drop_last() =~= Seq::<u8>::empty());
        reveal_with_fuel(Seq::fold_left, 2);
    } else {
        law_decimal_spells(value / 10);
        assert(digits.drop_last() =~= decimal(value / 10));
        assert(digits[0] == decimal(value / 10)[0]);
        if decimal(value / 10)[0] == 48 {
            reveal_with_fuel(Seq::fold_left, 2);
            assert(decimal(value / 10).drop_last() =~= Seq::<u8>::empty());
        }
    }
}

/// The digits in a message are those of the declaration.
pub proof fn law_decimal_text_is_decimal(value: nat)
    ensures
        decimal_text(value).len() == decimal(value).len(),
        forall|i: int|
            0 <= i < decimal(value).len() ==> #[trigger] decimal_text(value)[i] as nat == decimal(
                value,
            )[i] as nat,
    decreases value,
{
    if value >= 10 {
        law_decimal_text_is_decimal(value / 10);
    }
}

/// Each coefficient of a scalar that is sampled from `bytes` is an element of the field: the
/// big-endian number of its own piece of the bytes, modulo the order.
pub proof fn law_sampled_coefficient(field: BaseField, degree: nat, bytes: Seq<u8>, i: int)
    requires
        field.wf(),
        bytes.len() == degree * field.spec_uniform_bytes(),
        0 <= i < degree,
    ensures
        ({
            let n = field.spec_uniform_bytes();
            let coeffs = sampled(field, degree, bytes);
            &&& coeffs.len() == degree
            &&& coeffs[i] < field.spec_order()
            &&& coeffs[i] == Seq::new(
                n,
                |k: int| bytes[i * n + k] as int * pow(256, (n - 1 - k) as nat),
            ).fold_left(0int, |total: int, term: int| total + term) % field.spec_order() as int
        }),
{
    let n = field.spec_uniform_bytes();
    let piece = chunk(bytes, n, i);
    assert(0 <= i * n && i * n + n == (i + 1) * n && (i + 1) * n <= degree * n) by (nonlinear_arith)
        requires
            0 <= i,
            i + 1 <= degree,
            0 <= n,
    ;
    law_big_endian_places(piece);
    assert(Seq::new(piece.len(), |k: int| piece[k] as int * pow(256, (piece.len() - 1 - k) as nat))
        =~= Seq::new(n, |k: int| bytes[i * n + k] as int * pow(256, (n - 1 - k) as nat)));
    lemma_mod_bound(be_value(piece) as int, field.spec_order() as int);
}

/// Each coefficient of a scalar that `bytes` spell on the wire is an element of the field: the
/// little-endian number of its own piece of the bytes, modulo the order.
pub proof fn law_decoded_coefficient(field: BaseField, degree: nat, bytes: Seq<u8>, i: int)
    requires
        field.wf(),
        bytes.len() == degree * field.spec_num_bytes(),
        0 <= i < degree,
    ensures
        ({
            let n = field.spec_num_bytes() as nat;
            let coeffs = decoded(field, degree, bytes);
            &&& coeffs.len() == degree
            &&& coeffs[i] < field.spec_order()
            &&& coeffs[i] == Seq::new(
                n,
                |k: int| bytes[i * n + k] as int * pow(256, k as nat),
            ).fold_left(0int, |total: int, term: int| total + term) % field.spec_order() as int
        }),
{
    let n = field.spec_num_bytes() as nat;
    let piece = chunk(bytes, n, i);
    assert(0 <= i * n && i * n + n == (i + 1) * n && (i + 1) * n <= degree * n) by (nonlinear_arith)
        requires
            0 <= i,
            i + 1 <= degree,
            0 <= n,
    ;
    law_little_endian_places(piece);
    assert(Seq::new(piece.len(), |k: int| piece[k] as int * pow(256, k as nat)) =~= Seq::new(
        n,
        |k: int| bytes[i * n + k] as int * pow(256, k as nat),
    ));
    lemma_mod_bound(le_value(piece) as int, field.spec_order() as int);
}

/// Byte `k` of coefficient `i` on the wire is the digit of that place to base 256.
pub proof fn law_encoded_byte(field: BaseField, coeffs: Seq<u64>, i: int, k: int)
    requires
        0 <= i < coeffs.len(),
        0 <= k < field.spec_num_bytes(),
    ensures
        encoded(field, coeffs).len() == coeffs.len() * field.spec_num_bytes(),
        encoded(field, coeffs)[i * field.spec_num_bytes() + k] == (coeffs[i] as int / pow(
            256,
            k as nat,
        )) % 256,
    decreases coeffs.len(),
{
    let n = field.spec_num_bytes() as int;
    let front = coeffs.drop_last();
    lemma_encoded_len(field, coeffs);
    lemma_encoded_len(field, front);
    lemma_le_bytes_len(coeffs.last() as nat, n as nat);
    if i == front.len() {
        law_bytes_are_digits(coeffs.last() as nat, n as nat, k);
        assert(i * n + k - encoded(field, front).len() == k);
    } else {
        law_encoded_byte(field, front, i, k);
        assert(0 <= i * n + k < front.len() * n) by (nonlinear_arith)
            requires
                0 <= i,
                i + 1 <= front.len(),
                0 <= k < n,
        ;
    }
}

/// Byte `k` of coefficient `j` of scalar `i` on the wire is the digit of that place to base 256.
pub proof fn law_encoded_all_byte(
    field: BaseField,
    degree: nat,
    scalars: Seq<Seq<u64>>,
    i: int,
    j: int,
    k: int,
)
    requires
        forall|s: int| 0 <= s < scalars.len() ==> (#[trigger] scalars[s]).len() == degree,
        0 <= i < scalars.len(),
        0 <= j < degree,
        0 <= k < field.spec_num_bytes(),
    ensures
        ({
            let size = degree * field.spec_num_bytes();
            let bytes = encoded_all(field, scalars);
            &&& bytes.len() == scalars.len() * size
            &&& bytes[i * size + (j * field.spec_num_bytes() + k)] == (scalars[i][j] as int / pow(
                256,
                k as nat,
            )) % 256
        }),
    decreases scalars.len(),
{
    let n = field.spec_num_bytes() as int;
    let size = degree * n;
    let front = scalars.drop_last();
    let last = scalars.last();
    lemma_encoded_len(field, last);
    assert(0 <= j * n + k < size) by (nonlinear_arith)
        requires
            size == degree * n,
            0 <= j,
            j + 1 <= degree,
            0 <= k < n,
    ;
    assert(front.len() * size + size == (front.len() + 1) * size) by (nonlinear_arith);
    if front.len() == 0 {
        assert(encoded_all(field, front) =~= Seq::<u8>::empty());
        assert(front.len() * size == 0) by (nonlinear_arith)
            requires
                front.len() == 0,
        ;
    } else {
        law_encoded_all_byte(
            field,
            degree,
            front,
            if i < front.len() {
                i
            } else {
                0
            },
            j,
            k,
        );
    }
    if i == front.len() {
        law_encoded_byte(field, last, j, k);
    } else {
        assert(0 <= i * size && i * size + size <= front.len() * size) by (nonlinear_arith)
            requires
                0 <= i,
                i + 1 <= front.len(),
                0 <= size,
        ;
    }
}

} // verus!
