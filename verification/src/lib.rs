//! A generic hierarchical finite-state-machine engine.
//!
//! The engine drives an arbitrary domain state graph through events. A state
//! tree mixes single active leaves (composite states) with sets of orthogonal
//! regions that are all simultaneously active; dispatching an event walks the
//! tree in declaration order and applies at most the first matching
//! transition per orthogonal branch.

pub mod character;
pub mod engine;
pub mod laws;
