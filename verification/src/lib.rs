//! A manager for editor plugins: the registry of wanted packages, the engine
//! that works through a batch of them, and the loader script derived from the
//! packages that survived.

pub mod error;
pub mod order;
pub mod package;
pub mod registry;
pub mod script;
pub mod select;
pub mod task;
pub mod text;
pub mod uninstall;
pub mod update;
pub mod yaml;
