//! Changesets: changes to packages, recorded as small Markdown files with a
//! front matter of `package: change type` lines, and bundled into releases.

pub mod text;
pub mod versioning;
pub mod change;
pub mod changeset;

pub use change::{Change, LoadingError, ParsingError, UniqueId};
pub use change::LoadingError as ChangeParsingError;
pub use change::ParsingError as ChangeLoadingError;
pub use changeset::{ChangeSet, PackageChange, Release};
pub use versioning::{BuildVersioningError, ChangeType, PackageName, Versioning};
