//! The ways an operation on the registry can fail.

use vstd::prelude::*;

verus! {

/// Why an operation on a `World` was refused. Every failure leaves the
/// registry as it was.
#[derive(Debug)]
pub enum WorldError {
    /// The identifier names no live element.
    ElementDoesNotExist,
    /// The element has no component under this type key.
    ElementDoesNotHaveComponent(std::any::TypeId),
    /// The element already has a component under this type key.
    ElementAlreadyHasComponent(std::any::TypeId),
    /// An element could not be created.
    CreateElement,
    /// An element could not be deleted.
    DeleteElement,
}

} // verus!
