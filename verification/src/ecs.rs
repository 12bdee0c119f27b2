//! The runtime's parts: components, entities, the world and the scheduler.

pub mod components;
pub mod entity;
pub mod game;
pub mod world;
