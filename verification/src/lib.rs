//! A small entity-component-system runtime.
//!
//! Entities carry type-erased components, a [`ecs::world::World`] keeps each
//! entity behind its own reader-writer lock and answers queries by component
//! type, and a [`ecs::game::Game`] runs systems once per frame.

pub mod ecs;
