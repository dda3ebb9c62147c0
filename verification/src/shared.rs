//! Contracts of the shared pointers and strings that trees are stored in.
//!
//! A value of a shared pointer stands for its allocation: two handles are equal exactly when they
//! share one allocation.

use vstd::prelude::*;

verus! {

/// `triomphe::Arc`, an opaque handle on a shared allocation.
#[verifier::external_type_specification]
#[verifier::external_body]
#[verifier::reject_recursive_types(T)]
pub struct ExArc<T: ?Sized>(triomphe::Arc<T>);

/// `triomphe::AllocError`, the failure of a fallible allocation.
#[verifier::external_type_specification]
#[verifier::external_body]
pub struct ExAllocError(triomphe::AllocError);

/// `ecow::EcoString`, a compact immutable string.
#[verifier::external_type_specification]
#[verifier::external_body]
pub struct ExEcoString(ecow::EcoString);

/// `countme::Count`, a marker by which the live values of a type are counted.
#[verifier::external_type_specification]
#[verifier::external_body]
#[verifier::reject_recursive_types(T)]
pub struct ExCount<T: 'static>(countme::Count<T>);

/// `std::ops::RangeFrom`, a range without an end.
#[verifier::external_type_specification]
#[verifier::reject_recursive_types(Idx)]
pub struct ExRangeFrom<Idx>(std::ops::RangeFrom<Idx>);

/// `std::ops::RangeTo`, a range without a start.
#[verifier::external_type_specification]
#[verifier::reject_recursive_types(Idx)]
pub struct ExRangeTo<Idx>(std::ops::RangeTo<Idx>);

/// `std::ops::RangeFull`, a range without ends.
#[verifier::external_type_specification]
pub struct ExRangeFull(std::ops::RangeFull);

/// The characters that a compact string holds.
pub uninterp spec fn eco_text(text: ecow::EcoString) -> Seq<char>;

/// `countme::Count::new` counts one more live value of a type; nothing is said of the marker.
pub assume_specification<T: 'static>[ countme::Count::<T>::new ]() -> (count: countme::Count<T>)
;

/// `triomphe::Arc::ptr_eq` tells whether two handles share one allocation.
pub assume_specification<T: ?Sized>[ triomphe::Arc::<T>::ptr_eq ](
    this: &triomphe::Arc<T>,
    other: &triomphe::Arc<T>,
) -> (same: bool)
    ensures
        same == (*this == *other),
;

/// `triomphe::Arc::new` makes a new allocation; that no other handle shares it yet is left unsaid.
#[verifier::external_body]
pub(crate) fn fresh_identity() -> (identity: triomphe::Arc<()>) {
    triomphe::Arc::new(())
}

/// Hand the address of a shared allocation to a hasher, as `std::ptr::hash` does.
#[verifier::external_body]
pub(crate) fn hash_identity_address<HasherType: std::hash::Hasher>(
    identity: &triomphe::Arc<()>,
    state: &mut HasherType,
) {
    std::ptr::hash(triomphe::Arc::as_ptr(identity), state);
}

/// `std::hash::Hash::hash` hands a value to a hasher; nothing is said of the state of the hasher.
#[verifier::external_body]
pub(crate) fn hash_value<Value: std::hash::Hash + ?Sized, HasherType: std::hash::Hasher>(
    value: &Value,
    state: &mut HasherType,
) {
    value.hash(state);
}

/// `triomphe::Arc::clone` gives another handle on the same allocation.
pub assume_specification<T: ?Sized>[ <triomphe::Arc<T> as Clone>::clone ](
    this: &triomphe::Arc<T>,
) -> (handle: triomphe::Arc<T>)
    ensures
        handle == *this,
;

/// `ecow::EcoString::from` copies the characters of a string slice.
#[verifier::external_body]
pub(crate) fn eco_from(text: &str) -> (copy: ecow::EcoString)
    ensures
        eco_text(copy) == text@,
{
    ecow::EcoString::from(text)
}

/// `ecow::EcoString::as_str` borrows the characters of the string.
pub assume_specification[ ecow::EcoString::as_str ](string: &ecow::EcoString) -> (slice: &str)
    ensures
        slice@ == eco_text(*string),
;

/// `ecow::EcoString::len` counts the UTF-8 bytes of the string.
pub assume_specification[ ecow::EcoString::len ](string: &ecow::EcoString) -> (count: usize)
    ensures
        count == vstd::utf8::encode_utf8(eco_text(*string)).len(),
;

/// `ecow::EcoString::eq` compares two strings by their characters.
pub assume_specification[ <ecow::EcoString as PartialEq>::eq ](
    left: &ecow::EcoString,
    right: &ecow::EcoString,
) -> (same: bool)
    ensures
        same == (eco_text(*left) == eco_text(*right)),
;

/// `str::eq` compares two string slices by their characters.
pub assume_specification[ <str as PartialEq>::eq ](left: &str, right: &str) -> (same: bool)
    ensures
        same == (left@ == right@),
;

} // verus!
