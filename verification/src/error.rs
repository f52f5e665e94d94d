//! What can go wrong.
use vstd::prelude::*;

verus! {

/// The failures this library reports.
#[derive(Clone, Copy, Debug, PartialEq, Eq, Structural)]
pub enum Error {
    /// A document does not meet what an operation needs before it
    /// starts; nothing was changed.
    Validation,
    /// A link attribute cannot point at the requested element.
    Link,
}

} // verus!
