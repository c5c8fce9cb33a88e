//! Runtime reflection over values laid out in memory.
//!
//! Each type is described once by a descriptor: its shape, its fields and
//! their offsets, and for an enum its arms and their discriminants. A single
//! pair of engines walks a descriptor in step with a memory image, to
//! serialize the value that the image holds or to fill an image from what
//! arrives on the wire. No type needs marshalling code of its own.
//!
//! - [`metadata`] holds the descriptors.
//! - [`registry`] maps the identity of a type to its descriptor, and knows
//!   which types are leaves: opaque to the engines, handed over whole.
//! - [`location`] pairs a descriptor with an address in a memory image. A
//!   memory image is a run of bytes; the tag of an enum is two bytes at the
//!   base of the value, low byte first.
//! - [`ser`] emits, depth first and in descriptor order, what a generic
//!   serializer is to be told of a value.
//! - [`de`] fills a value from what a generic deserializer presents, and
//!   [`ident`] resolves the identifiers of fields and variants on the way.
//! - [`wire`] holds what travels between the engines and a format.
//! - [`laws`] proves what holds of the engines together: the round trip, the
//!   agreement of names and positions, the rejection of unknown identifiers
//!   and of fields left out, the choice of arms by tag, the opacity of
//!   leaves, that the order of the entries of a map does not matter, that
//!   the depth allowed matters only to a walk that exceeds it, and that the
//!   engines go by what the descriptors say.
//!
//! A type graph may refer back to itself, so the engines count the nested
//! types that they enter and stop at a given depth. Neither engine ever
//! touches a byte outside the image, whatever the descriptors say.

pub mod de;
pub mod ident;
pub mod laws;
pub mod location;
pub mod metadata;
pub mod registry;
pub mod ser;
pub mod wire;

pub use de::{Deserialize, Request};
pub use ident::{FieldIx, VariantIx};
pub use location::{Slots, TypedLocation, TypedOutputLocation};
pub use metadata::{
    Attr, DataShape, EnumArm, EnumArms, Field, ItemDeclaration, Layout, ReflectedType,
    RustBuiltin, RustPrimitive, TupleField, TypeKey, VariantData, WithFields, WithTupleFields,
};
pub use registry::{Db, Reflect, Registry, StaticReflect};
pub use ser::{Serialize, MAX_DEPTH};
pub use wire::{Emitted, EmittedData, Error, Wire, WireIdent, WireStyle};
