//! Core of a version-bumping tool: parse a `MAJOR.MINOR.PATCH+CODE` version
//! string, increment one of its components under semantic-versioning reset
//! rules, and rewrite the `version: ` line of a configuration file's text.

pub mod cli;
pub mod error;
pub mod patcher;
pub mod text;
pub mod version;

pub use error::BumpError;
pub use version::Version;
pub use version::VersionType;
