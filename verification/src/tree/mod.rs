//! The tree of visual nodes: an arena of nodes addressed by [`Element`]
//! handles, with intrusive sibling links and a parent back-reference.

pub mod arena;
pub mod cursor;
pub mod hit_test;
pub mod laws;
pub mod model;
pub mod paint;
