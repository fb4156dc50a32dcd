//! Easy to use entity component system.
//!
//! # Overview
//!
//! - Entity is set of components identified by unique ID.
//! - Component is a value that an entity stores under the key of its type.
//!   A world has one type `C` for all its components: an enum with one
//!   variant for each kind of component serves well.
//! - System is behaviour working with components.
//! - Aspect says which components an entity must have, and which it must
//!   not have, for a system to work on it.
//!
//! Entity can be created almost everywhere:
//!
//! ```ignore
//! let entity = entity_manager.create_entity();
//!
//! entity.add_component(POSITION, Component::Position { x: 0, y: 0 });
//! entity.add_component(VELOCITY, Component::Velocity { x: 1 });
//! entity.refresh();
//! ```
//!
//! A system names its aspect and the hooks it cares for:
//!
//! ```ignore
//! pub struct MoveSystem;
//! impl System<Component> for MoveSystem {
//!     fn aspect(&self) -> Aspect {
//!         Aspect::all2(POSITION, VELOCITY)
//!     }
//!
//!     fn process_one(&mut self, entity: &mut Entity<Component>) {
//!         let (mut pos, vel) = entity.get_components(POSITION, VELOCITY);
//!         // ...
//!         entity.release(pos);
//!         entity.release(vel);
//!     }
//! }
//! ```
//!
//! and is added to the world, which ticks all its systems on `update`:
//!
//! ```ignore
//! world.set_system(MoveSystem);
//! world.update();
//! ```
//!
//! # What is proved
//!
//! The functions of this crate are verified against the contracts they
//! carry: none of them panics, and the bookkeeping that ties entities to
//! systems does what the contracts say. Two things are taken on trust and
//! kept apart, each in a module of its own: the map from ids to slots,
//! which is the `vec_map` crate's, in `index`, and the clock, which is the
//! `time` crate's, in `clock`. What the hooks of a system do is the
//! system's affair: the contracts of the world hold whatever they do.

pub mod sets;
pub mod index;
pub mod clock;
pub mod entity;
pub mod aspect;
pub mod fast_dict;
pub mod manager;
pub mod system;
pub mod world;

pub use crate::aspect::Aspect;
pub use crate::entity::ComponentGuard;
pub use crate::entity::EcsError;
pub use crate::entity::Entity;
pub use crate::entity::EntityView;
pub use crate::entity::TypeKey;
pub use crate::manager::EntityManager;
pub use crate::system::DataList;
pub use crate::system::System;
pub use crate::world::FrameAction;
pub use crate::world::Membership;
pub use crate::world::SelectedEntities;
pub use crate::world::SystemData;
pub use crate::world::World;
pub use crate::world::WorldHandle;
pub use crate::fast_dict::FastDictIter;
pub use crate::fast_dict::FastDictionary;
pub use crate::fast_dict::FastDictIterMut;
