//! Syntactic protection against directory traversal.
//!
//! A path is viewed as a sequence of components (root anchors, `.`, `..`,
//! and ordinary names). Joining an attacker-influenced fragment onto a base
//! directory, or taking the logical parent of a directory, is allowed only
//! after a purely component-wise check shows that the result stays inside
//! the base. The filesystem is never consulted: no symlinks are resolved
//! and nothing needs to exist.
//!
//! [`ops::PathOps`] is the interface a path type exposes to the checks;
//! [`ops::SafePath`] provides the four safe operations on top of it. The
//! library's own [`component_path::ComponentPath`] carries its components
//! directly; `camino::Utf8PathBuf` is supported through the same traits.

pub mod component;
pub mod component_path;
pub mod demo;
pub mod laws;
pub mod normalize;
pub mod ops;
pub mod safety;
pub mod utf8_path;

pub use component::Component;
pub use component_path::ComponentPath;
pub use ops::PathOps;
pub use ops::SafePath;
pub use ops::UnsafeOperation;
