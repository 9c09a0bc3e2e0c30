//! A minimal tiling-window-manager core: a client/tag state model, a layout
//! engine mapping that state to screen geometry, and a keybinding dispatch
//! layer. Protocol transport, keymap resolution and process spawning are
//! external collaborators; this crate holds the state machines and layout
//! math they drive.

pub mod client_set;
pub mod errors;
pub mod geometry;
pub mod hooks;
pub mod keys;
pub mod text;
pub mod layout;
pub mod layout_stack;
