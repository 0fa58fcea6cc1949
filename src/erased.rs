//! Type erasure: a boxed value of any `'static` type, and the type keys
//! that identify the type it was made from.
//!
//! This is the one place where values of unrelated types meet; everything
//! else in the crate works with the keys and treats the boxes as opaque.

use vstd::prelude::*;

verus! {

/// The runtime identity of a type, as std hands it out.
#[verifier::external_type_specification]
#[verifier::external_body]
pub struct ExTypeId(std::any::TypeId);

/// `TypeId::of::<T>()`: the key of `T`. Nothing about its value can be
/// stated over spec values, so nothing is promised here.
pub assume_specification<T: ?Sized + 'static>[ std::any::TypeId::of::<T> ]() -> std::any::TypeId;

/// A value of some `'static` type behind a `Box<dyn Any>`.
///
/// Opaque to verification: the registry only moves these around, and the
/// typed accessors below recover the value, checking the type at run time.
#[verifier::external_body]
pub struct Erased {
    inner: Box<dyn std::any::Any>,
}

/// Relies on `Box::new` and the unsizing coercion to `Box<dyn Any>`: the
/// value is moved into a box that remembers its type.
#[verifier::external_body]
pub(crate) fn erase<T: 'static>(value: T) -> (r: Erased) {
    Erased { inner: Box::new(value) }
}

/// Relies on `<dyn Any>::downcast_ref`: a reference to the boxed value when
/// it has type `T`, `None` otherwise.
#[verifier::external_body]
pub(crate) fn downcast_ref<T: 'static>(e: &Erased) -> (r: Option<&T>) {
    e.inner.downcast_ref::<T>()
}

/// Relies on `<dyn Any>::downcast_mut`: a mutable reference to the boxed
/// value when it has type `T`, `None` otherwise.
#[verifier::external_body]
pub(crate) fn downcast_mut<T: 'static>(e: &mut Erased) -> (r: Option<&mut T>) {
    e.inner.downcast_mut::<T>()
}

/// Relies on `TypeId`'s `==`: two keys compare equal exactly when they are
/// the same key.
#[verifier::external_body]
pub(crate) fn same_key(a: &std::any::TypeId, b: &std::any::TypeId) -> (r: bool)
    ensures
        r == (*a == *b),
{
    *a == *b
}

} // verus!
