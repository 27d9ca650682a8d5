//! Entity/component/system runtime: recyclable entity identities, sparse-set
//! component storage, archetype bitsets, cycle-free entity hierarchies, and
//! incremental system membership kept in sync by a dirty queue.

pub use crate::archetype::Archetype;
pub use crate::component_manager::ComponentManager;
pub use crate::component_pool::AnyComponentPool;
pub use crate::component_pool::ComponentPool;
pub use crate::entity::Entity;
pub use crate::entity_data::EntityData;
pub use crate::entity_manager::EntityManager;
pub use crate::manager::Manager;
pub use crate::system::Behavior;
pub use crate::system::NoopBehavior;
pub use crate::system::System;
pub use crate::world::World;
pub use crate::resource_manager::ResourceManager;

pub mod archetype;
pub mod component_manager;
pub mod component_pool;
pub mod entity_data;
pub mod entity_manager;
pub mod manager;
pub mod system;
pub mod entity;
pub mod resource_manager;
pub mod world;
