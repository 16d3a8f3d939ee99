//! An archetype-based component store: entities are grouped by the exact set
//! of component types they hold, and each group keeps its components in
//! aligned, contiguous columns of one buffer.
//!
//! - [`entity`]: the allocator of entity identifiers.
//! - [`layout`] and [`signature`]: where columns lie in a buffer, and the
//!   normal form of a set of component types.
//! - [`archetype`]: the column store of one signature.
//! - [`components`]: component values as bytes, and sets of them.
//! - [`world`]: the store that maps signatures to archetypes.
//! - [`flat`]: a second backing, with one sparse column per component type.
//! - [`query`] and [`system`]: which entities hold a set of component types,
//!   and functions that are run on each of them.

pub mod archetype;
pub mod components;
pub mod entity;
pub mod flat;
pub mod layout;
pub mod query;
pub mod signature;
pub mod system;
pub mod world;

pub use crate::archetype::Archetype;
pub use crate::components::ComponentsDefinition;
pub use crate::entity::EntityId;
pub use crate::entity::EntityStore;
pub use crate::layout::ComponentType;
pub use crate::layout::TypeMetadata;
pub use crate::signature::ComponentsMetadata;
pub use crate::world::Ecs;
