pub mod entity;
pub mod component;
pub mod change;

pub use entity::{EntityId, Generation, EntityAllocator};
pub use component::ComponentStore;
pub use change::{ChangeTracker, ChangeRecord, ComponentKind, ComponentType};
pub mod components;
pub mod world;

pub use world::World;
