//! A portable virtual filesystem layer: a single UNIX-like hierarchy rooted
//! at `/`, composed from heterogeneous backing sources as union mounts.
//!
//! The crate has three parts: a strict, normalizing, validating path type
//! (`Path` / `PathBuf`), a union-mount engine (`VFS`), and a read-only
//! in-memory tree source (`RomSource`).

mod errors;
pub mod text;
pub mod name;
pub mod norm;
pub mod canon;
pub mod path;
pub mod source;
pub mod listing;
pub mod vfs;
pub mod rom;

pub use errors::PathFromStrError;
pub use errors::PathJoinError;
pub use path::Path;
pub use path::PathBuf;
pub use path::PathComponents;
pub use rom::Source as RomSource;
pub use source::DataFile;
pub use source::FileHandle;
pub use source::SourceBox;
pub use source::VFSSource;
pub use source::VfsErrorKind;
pub use vfs::VFS;
