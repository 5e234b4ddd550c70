//! Extraction of per-package version sets from a yarn lockfile, and a diff
//! of two such extractions.
//!
//! The crate has two independent, stateless components:
//! - the extractor, which parses lockfile text into a [`PackageVersions`]
//!   map from package name to the set of versions resolved for it; and
//! - the differ, which compares two such maps and reports the set of
//!   package names whose version sets differ.

pub mod diff;
pub mod extract;
pub mod selector;
pub mod version_map;

pub use extract::{extract_yarn_metadata, get_packages, LockfileError, ParseError};
pub use version_map::{ChangeSet, PackageVersions};
pub mod strutil;
