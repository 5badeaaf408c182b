//! An entity-component store with columnar, type-erased component storage.
//!
//! Every registered component type owns one byte column that is divided into
//! fixed-stride slots, one slot per entity index. Entities are named by
//! generational handles, so that a handle to a destroyed entity never becomes
//! valid again, even when its index is reused.
//!
//! Component types are registered under identifiers that the caller chooses,
//! and component values travel as payload bytes of the registered size. The
//! store never disposes of a value itself: whenever a slot gives up its
//! value (on overwriting, removal, destruction of the entity, or teardown),
//! the payload is released to the caller, exactly once.
//!
//! Every operation states in its contract what it returns and how it changes
//! the store; the laws that hold across operations are stated as proof
//! functions beside them.
pub mod component;
pub mod ecs;
pub mod entity;
pub mod index;
pub mod query;
pub mod storage;

pub use component::{Component, ComponentID, ComponentInfo, ComponentRegistry};
pub use ecs::{GrowFn, ECS};
pub use entity::EntityID;
pub use query::{Query, QueryIter};
pub use storage::{ComponentArray, Slot};
