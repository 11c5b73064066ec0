//! Render-graph and resource-lifecycle engine for an explicit GPU API.
//!
//! - `names`: ordered name-keyed maps, the container of the declarative data.
//! - `data`: the declarative pmfx data model (textures, views, graphs, pipelines).
//! - `texture`: creation descriptions of declared textures and window-relative sizes.
//! - `graph`: render-graph compilation into one submission order with the resource-state
//!   transitions each node needs; `transitions` proves what that order guarantees.
//! - `pmfx`: the engine that builds views, textures, pipelines and graphs on demand and
//!   rebuilds by content hash on reload and window resize; `views` holds built views.
//! - `heap` and `device`: fixed-capacity descriptor heaps and the frame-delayed release
//!   of destroyed textures' descriptor slots.
pub mod names;
pub mod pmfx;
pub mod data;
pub mod device;
pub mod error;
pub mod graph;
pub mod heap;
pub mod texture;
pub mod transitions;
pub mod views;
