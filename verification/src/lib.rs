//! Lexical resolution of filesystem paths.
//!
//! A path is read as a sequence of components under one of two addressing
//! schemes, anchored to an absolute base, and folded into an absolute path
//! without `.` or `..`. Nothing here touches the filesystem: the current
//! directory and the per-drive directories are handed in as plain values.
//!
//! - [`classify`] splits the bytes of a path into components.
//! - [`anchor`] finds the absolute base of a path.
//! - [`reduce`] folds the rest of the path onto that base.
//! - [`resolve`] puts the three together and proves what holds of the
//!   result.
//! - [`render`] writes components as bytes again.
//! - [`equivalence`] shows which texts have the same components.
//! - [`text`] and [`clock`] hold what else a caller of these needs: paths as
//!   text, lower case, and the time.

pub mod anchor;
pub mod classify;
pub mod clock;
pub mod component;
pub mod context;
pub mod equivalence;
pub mod error;
pub mod reduce;
pub mod render;
pub mod resolve;
pub mod text;
