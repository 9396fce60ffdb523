//! Headless host model for scripts that expect a hierarchical object tree:
//! the layout tree, the instances that mirror it, the module cache and the
//! split between shared globals and each run's private environment.

pub mod context;
pub mod game;
pub mod globals;
pub mod instance;
pub mod layout;
pub mod linking;
pub mod objects;
pub mod require;
pub mod sourcemap;

pub use crate::context::LuauContext;
