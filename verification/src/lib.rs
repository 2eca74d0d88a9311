//! Core runtime of a small 2D game engine: a typed asset cache with
//! single-flight load semantics, an entity/component world with a verified
//! parent/child tree, an event queue, per-frame systems, and a render
//! submission queue with a stable draw order.

pub mod animation;
pub mod asset;
pub mod components;
pub mod counter;
pub mod ecs;
pub mod error;
pub mod image;
pub mod keyboard;
pub mod math;
pub mod renderer;
pub mod scene;
pub mod system;
