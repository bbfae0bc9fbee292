//! The units that a sponge works on.

use vstd::prelude::*;

verus! {

/// A cell of a sponge. On the wire a unit is one byte.
pub trait Unit: Copy {
    /// The byte that stands for this unit.
    spec fn as_byte(self) -> u8;

    /// The unit that a byte stands for.
    spec fn of_byte(byte: u8) -> Self;

    /// A byte survives the way to a unit and back.
    proof fn lemma_byte_round_trip(byte: u8)
        ensures
            Self::of_byte(byte).as_byte() == byte,
    ;

    /// The byte that stands for this unit.
    fn to_u8(self) -> (byte: u8)
        ensures
            byte == self.as_byte(),
    ;

    /// The unit that a byte stands for.
    fn from_u8(byte: u8) -> (unit: Self)
        ensures
            unit == Self::of_byte(byte),
    ;
}

impl Unit for u8 {
    open spec fn as_byte(self) -> u8 {
        self
    }

    open spec fn of_byte(byte: u8) -> Self {
        byte
    }

    proof fn lemma_byte_round_trip(byte: u8) {
    }

    fn to_u8(self) -> (byte: u8) {
        self
    }

    fn from_u8(byte: u8) -> (unit: Self) {
        byte
    }
}

/// The units that a string of bytes stands for.
pub open spec fn units_of<U: Unit>(bytes: Seq<u8>) -> Seq<U> {
    bytes.map_values(|byte: u8| U::of_byte(byte))
}

/// The bytes that stand for a string of units.
pub open spec fn bytes_of<U: Unit>(units: Seq<U>) -> Seq<u8> {
    units.map_values(|unit: U| unit.as_byte())
}

/// A string of bytes survives the way to units and back.
pub proof fn lemma_units_round_trip<U: Unit>(bytes: Seq<u8>)
    ensures
        bytes_of(units_of::<U>(bytes)) == bytes,
{
    assert forall|i: int| 0 <= i < bytes.len() implies bytes_of(units_of::<U>(bytes))[i]
        == bytes[i] by {
        U::lemma_byte_round_trip(bytes[i]);
    }
    assert(bytes_of(units_of::<U>(bytes)) =~= bytes);
}

/// The units that `bytes` stand for.
pub fn slice_from_u8_slice<U: Unit>(bytes: &[u8]) -> (units: Vec<U>)
    ensures
        units@ == units_of::<U>(bytes@),
{
    let mut units: Vec<U> = Vec::new();
    let mut i: usize = 0;
    while i < bytes.len()
        invariant
            i <= bytes@.len(),
            units@ == units_of::<U>(bytes@.take(i as int)),
        decreases bytes@.len() - i,
    {
        units.push(U::from_u8(bytes[i]));
        assert(units_of::<U>(bytes@.take(i + 1)) =~= units_of::<U>(bytes@.take(i as int)).push(
            U::of_byte(bytes@[i as int]),
        ));
        i += 1;
    }
    assert(bytes@.take(i as int) =~= bytes@);
    units
}

/// The bytes that stand for `units`.
pub fn slice_to_u8_slice<U: Unit>(units: &[U]) -> (bytes: Vec<u8>)
    ensures
        bytes@ == bytes_of(units@),
{
    let mut bytes: Vec<u8> = Vec::new();
    let mut i: usize = 0;
    while i < units.len()
        invariant
            i <= units@.len(),
            bytes@ == bytes_of(units@.take(i as int)),
        decreases units@.len() - i,
    {
        bytes.push(units[i].to_u8());
        assert(bytes_of(units@.take(i + 1)) =~= bytes_of(units@.take(i as int)).push(
            units@[i as int].as_byte(),
        ));
        i += 1;
    }
    assert(units@.take(i as int) =~= units@);
    bytes
}

/// The bytes that stand for an array of units.
pub fn array_to_u8_array<U: Unit, const N: usize>(units: &[U; N]) -> (bytes: [u8; N])
    ensures
        bytes@ == bytes_of(units@),
{
    let mut bytes: [u8; N] = [0u8; N];
    let mut i: usize = 0;
    while i < N
        invariant
            i <= N,
            forall|j: int| 0 <= j < i ==> bytes@[j] == units@[j].as_byte(),
        decreases N - i,
    {
        bytes[i] = units[i].to_u8();
        i += 1;
    }
    assert(bytes@ =~= bytes_of(units@));
    bytes
}

/// Fills `output` with the units that the first bytes of `bytes` stand for.
pub fn read_units<U: Unit>(bytes: &[u8], output: &mut [U])
    requires
        bytes@.len() >= old(output)@.len(),
    ensures
        final(output)@ == units_of::<U>(bytes@.take(old(output)@.len() as int)),
{
    let count: usize = output.len();
    let mut i: usize = 0;
    while i < count
        invariant
            i <= count <= bytes@.len(),
            output@.len() == count,
            forall|j: int| 0 <= j < i ==> output@[j] == U::of_byte(bytes@[j]),
        decreases count - i,
    {
        output[i] = U::from_u8(bytes[i]);
        i += 1;
    }
    assert(output@ =~= units_of::<U>(bytes@.take(count as int)));
}

} // verus!
