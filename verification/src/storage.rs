//! The columnar storage engine: one byte column per registered component
//! type, divided into slots of that type's stride.
pub mod array;
pub mod map;
pub mod slot;

pub use array::ComponentArray;
pub use map::ComponentMap;
pub use slot::Slot;
