//! The content-addressed store laid out as plain files.

pub mod bindings;
pub mod clean;
pub mod closure;
pub mod collection;
pub mod counting;
pub mod diff;
pub mod error;
pub mod files;
pub mod gc;
pub mod index;
pub mod manifests;
pub mod objects;
pub mod prelinks;
pub mod snapshot;
pub mod soundness;
pub mod tags;
pub mod verify;
