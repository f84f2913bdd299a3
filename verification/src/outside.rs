//! The functions and types of other crates that the generator relies on.

use vstd::prelude::*;

verus! {

/// The arbitrary-precision integer of `num_bigint`. The generator carries such values from a
/// literal into the libfunc that produces it and never looks inside.
#[verifier::external_type_specification]
#[verifier::external_body]
pub struct ExBigInt(num_bigint::BigInt);

/// `BigInt::clone` copies the sign and the digits, so the copy is the same integer.
pub assume_specification[ <num_bigint::BigInt as Clone>::clone ](
    value: &num_bigint::BigInt,
) -> (copy: num_bigint::BigInt)
    ensures
        copy == *value,
;

/// Calls `itertools::zip_eq`, which walks two collections in lock step and panics where one ends
/// before the other. On collections of one length it pairs each element of the first with the
/// element of the second at the same position.
#[verifier::external_body]
pub(crate) fn zip_eq<'a, A, B>(left: &'a Vec<A>, right: Vec<B>) -> (pairs: Vec<(&'a A, B)>)
    requires
        left@.len() == right@.len(),
    ensures
        pairs@.len() == left@.len(),
        forall|i: int|
            0 <= i < pairs@.len() ==> *(#[trigger] pairs@[i]).0 == left@[i] && pairs@[i].1
                == right@[i],
{
    itertools::zip_eq(left, right).collect()
}

} // verus!
