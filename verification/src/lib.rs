//! Typed identifier toolkit centred on a human-readable, checksum-protected
//! identifier codec.
//!
//! The heart of the crate turns a non-negative 64-bit seed into a delimited,
//! alternately base-N-encoded string with a Damm check digit, and back:
//! see [`prettifier::IdPrettifier`].  Around it stand the base-N
//! [`alphabet::Alphabet`] and [`codec::AlphabetCodec`], the Damm checksum in
//! [`damm`], and a handful of identifier generators.

pub mod alphabet;
pub mod chars;
pub mod codec;
pub mod damm;
pub mod digits;
pub mod generator;
pub mod labeling;
pub mod laws;
pub mod machine_node;
pub mod prettifier;
pub mod ulid_id;

pub use alphabet::Alphabet;
pub use codec::AlphabetCodec;
pub use codec::Codec;
pub use codec::ResultWithIndex;
pub use generator::CuidGenerator;
pub use generator::GenerationStrategy;
pub use generator::IdGenerator;
pub use generator::UuidGenerator;
pub use labeling::CustomLabeling;
pub use labeling::Label;
pub use labeling::Labeling;
pub use labeling::NoLabeling;
pub use machine_node::MachineNode;
pub use machine_node::MachineNodeError;
pub use prettifier::ConversionError;
pub use prettifier::IdPrettifier;
pub use ulid_id::Ulid;
pub use ulid_id::UlidGenerator;
