//! Broadcast paths with prefix matching that respects part boundaries.
//!
//! A [`Path`] is a sequence of non-empty parts, written with slashes between them. A
//! [`PathPrefixes`] is a canonical list of paths of which none covers another.
//!
//! The module [`model`] says what a path is, [`order`] how paths are ordered and [`cover`] what a
//! list of prefixes covers. The module [`laws`] states what holds of all of them.
pub mod compare;
pub mod convert;
pub mod cover;
pub mod laws;
pub mod model;
pub mod order;
pub mod path;
pub mod prefixes;
pub mod show;
pub mod text;
pub mod wire;

pub use path::{AsPath, Parts, Path, PathOwned};
pub use prefixes::PathPrefixes;
pub use wire::{DecodeError, EncodeError};
