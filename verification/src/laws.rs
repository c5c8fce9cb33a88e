//! What holds of the two engines, whatever the registry and the memory.

pub mod arms;
pub mod depth;
pub mod descriptors;
pub mod identifiers;
pub mod leaves;
pub mod order;
pub mod round_trip;
