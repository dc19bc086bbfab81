//! Pluggable sources of raw identifiers.
//!
//! The [`IdGenerator`] trait names a strategy for drawing fresh identifier
//! values; the generators here wrap collision-resistant random sources and
//! only hand their values on.

use vstd::prelude::*;

verus! {

/// A source of fresh identifier representations.
pub trait IdGenerator {
    /// The type of the generated identifier.
    type IdType;

    /// Draws the next identifier.
    fn next_id_rep() -> Self::IdType;
}

/// How a time-based generator advances its clock component.
#[derive(Debug, Copy, Clone, PartialEq, Eq, Structural, Hash)]
pub enum GenerationStrategy {
    /// Wait for the real clock when the sequence overflows.
    RealTime,
    /// Generate from the last seen clock reading.
    Generate,
    /// Advance a virtual clock lazily.
    Lazy,
}

/// A generator of collision-resistant string identifiers.
pub struct CuidGenerator;

/// Relies on `cuid2::create_id`: a random identifier of one starting letter
/// and a hash-derived body truncated to 23 further characters.
#[verifier::external_body]
fn cuid2_create_id() -> (r: String)
    ensures
        1 <= r@.len() <= 24,
{
    cuid2::create_id()
}

impl IdGenerator for CuidGenerator {
    type IdType = String;

    fn next_id_rep() -> (r: String)
        ensures
            1 <= r@.len() <= 24,
    {
        cuid2_create_id()
    }
}

/// One quantity is declared about the outside `uuid` crate: its opaque
/// identifier type.
#[verifier::external_type_specification]
#[verifier::external_body]
pub struct ExUuid(uuid::Uuid);

/// A generator of random version-4 UUIDs.
pub struct UuidGenerator;

/// Relies on `uuid::Uuid::new_v4`: a freshly drawn random UUID, about which
/// nothing further can be promised.
#[verifier::external_body]
fn uuid_new_v4() -> uuid::Uuid {
    uuid::Uuid::new_v4()
}

impl IdGenerator for UuidGenerator {
    type IdType = uuid::Uuid;

    fn next_id_rep() -> uuid::Uuid {
        uuid_new_v4()
    }
}

} // verus!
