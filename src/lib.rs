//! POSIX path-string algebra and a step-wise symlink resolver.
//!
//! Paths are byte strings. The pure functions (`normpath`, `join`, `split`,
//! `relpath`, ...) are specified over `Seq<u8>` models; the resolver in
//! [`resolve`] decides every step of `realpath` and leaves the filesystem
//! queries to its caller.
pub mod scan;
pub mod algebra;
pub mod norm;
pub mod resolve;
pub mod relpath;
pub mod expand;
pub mod laws;
pub mod progress;

pub use algebra::{isabs, join, split, dirname, basename, splitext};
pub use norm::{normpath, abspath, components};
pub use relpath::{relpath, commonprefix};
pub use resolve::{Resolver, Step, Answer};
pub use expand::{expanduser, expandvars, expandvars_with, expand_home_with, tilde_user, lookup_var};
