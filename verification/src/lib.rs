//! Runtime core of a retained-mode UI toolkit: the node tree, dirty-flag
//! propagation, pointer and keyboard routing, the broadcast handler and the
//! bookkeeping of the cooperative scheduler.

pub mod app_globals;
pub mod compositor;
pub mod dispatch;
pub mod event;
pub mod flags;
pub mod handler;
pub mod interact;
pub mod layout;
pub mod scheduler;
pub mod text;
pub mod text_edit;
pub mod tree;
pub mod visual;
pub mod waker;
pub mod window;
