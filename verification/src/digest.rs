//! Digests.

use vstd::prelude::*;
use vstd::std_specs::convert::FromSpec;

verus! {

/// A digest of `N` units of type `W` that belongs to the field `E`.
#[verifier::external_type_specification]
#[verifier::external_body]
#[verifier::reject_recursive_types(E)]
#[verifier::reject_recursive_types(W)]
pub struct ExDigest<E, W, const N: usize>(p3_symmetric::Hash<E, W, N>);

/// Calls `From<[W; N]>::from` of `p3_symmetric::Hash`, which wraps an array. Trusted: the digest is a
/// function of the array alone, and `from_spec` names that function; and the conversion of a
/// `p3_symmetric::Hash` to an array, named likewise, gives the array back.
#[verifier::external_body]
pub(crate) fn wrap<E, W, const N: usize>(units: [W; N]) -> (digest: p3_symmetric::Hash<E, W, N>)
    ensures
        (digest == p3_symmetric::Hash::<E, W, N>::from_spec(units)),
        (<[W; N] as FromSpec<p3_symmetric::Hash<E, W, N>>>::from_spec(digest) == units),
{
    p3_symmetric::Hash::from(units)
}

/// Whether `digest` is made of `units`: wrapping them gives the digest, and the digest holds them.
pub open spec fn is_digest_of<E, W, const N: usize>(
    digest: p3_symmetric::Hash<E, W, N>,
    units: Seq<W>,
) -> bool {
    exists|array: [W; N]|
        {
            &&& array@ == units
            &&& digest == #[trigger] p3_symmetric::Hash::<E, W, N>::from_spec(array)
            &&& <[W; N] as FromSpec<p3_symmetric::Hash<E, W, N>>>::from_spec(digest) == array
        }
}

/// A digest is made of the units that it holds, and of no others.
pub proof fn law_digest_holds_units<E, W, const N: usize>(
    digest: p3_symmetric::Hash<E, W, N>,
    units: Seq<W>,
)
    requires
        is_digest_of(digest, units),
    ensures
        units == <[W; N] as FromSpec<p3_symmetric::Hash<E, W, N>>>::from_spec(digest)@,
        forall|others: Seq<W>| #[trigger] is_digest_of(digest, others) ==> others == units,
{
}

} // verus!
