//! The source capability: what every backing store offers the engine, and
//! the handle type that `open` yields.

use vstd::prelude::*;

use crate::path::Path;
use crate::path::PathBuf;
use crate::text::is_abs;
use crate::text::is_dir;

verus! {

/// The error kinds the engine and its sources speak in.
#[derive(Debug, PartialEq, Eq, Structural, Clone, Copy)]
pub enum VfsErrorKind {
    /// No source claims the path, or every claim reported it missing.
    NotFound,
    /// `open` or `update` was called with a directory-typed path.
    IsADirectory,
    /// `ls` was called with a file-typed path, or every claim said so.
    NotADirectory,
    /// `update` found no writable source.
    ReadOnlyFilesystem,
    /// Misuse, such as a non-absolute path, or a source-specific failure.
    Other,
}

/// An open file: sequential reading and seeking.
pub trait DataFile {
    /// Read everything from the current position to the end, advancing the
    /// position to the end.
    fn read_all(&mut self) -> (r: Result<Vec<u8>, VfsErrorKind>)
        requires
            true,
    ;

    /// Move the read position to `pos` (clamped to the data's end).
    fn seek_to(&mut self, pos: u64) -> (r: Result<(), VfsErrorKind>)
        requires
            true,
    ;
}

/// A handle to an open file of any source.
pub struct FileHandle {
    inner: Box<dyn DataFile>,
}

impl FileHandle {
    /// Wrap an open file.
    pub fn new<F: DataFile + 'static>(f: F) -> (r: FileHandle) {
        FileHandle { inner: Box::new(f) }
    }

    /// Read everything from the current position to the end.
    pub fn read_all(&mut self) -> (r: Result<Vec<u8>, VfsErrorKind>) {
        self.inner.read_all()
    }

    /// Move the read position to `pos` (clamped to the data's end).
    pub fn seek_to(&mut self, pos: u64) -> (r: Result<(), VfsErrorKind>) {
        self.inner.seek_to(pos)
    }
}

/// What every backing source offers: `open`, `ls` and `update`, on absolute
/// paths already mapped into the source's own coordinate system. `NotFound`
/// from `open` or `ls` means "this source does not claim the path";
/// `NotADirectory` from `ls` and `ReadOnlyFilesystem` from `update` are
/// likewise recoverable signals that steer the engine's traversal.
pub trait VFSSource {
    /// Open the file at an absolute file path.
    fn open(&self, path: &Path) -> (r: Result<FileHandle, VfsErrorKind>)
        requires
            is_abs(path@),
            !is_dir(path@),
    ;

    /// List the entries under an absolute directory path, each a
    /// single-component relative path, directory entries with a trailing `/`.
    fn ls(&self, path: &Path) -> (r: Result<Vec<PathBuf>, VfsErrorKind>)
        requires
            is_abs(path@),
            is_dir(path@),
    ;

    /// Atomically replace the contents of the file at an absolute file path.
    fn update(&self, path: &Path, data: &[u8]) -> (r: Result<(), VfsErrorKind>)
        requires
            is_abs(path@),
            !is_dir(path@),
    ;
}

/// A source of any concrete type, ready to be mounted.
pub struct SourceBox {
    inner: Box<dyn VFSSource>,
}

impl SourceBox {
    /// Box a source.
    pub fn new<S: VFSSource + 'static>(s: S) -> (r: SourceBox) {
        SourceBox { inner: Box::new(s) }
    }

    /// Open the file at an absolute file path of this source.
    pub fn open(&self, path: &Path) -> (r: Result<FileHandle, VfsErrorKind>)
        requires
            is_abs(path@),
            !is_dir(path@),
    {
        self.inner.open(path)
    }

    /// List the entries under an absolute directory path of this source.
    pub fn ls(&self, path: &Path) -> (r: Result<Vec<PathBuf>, VfsErrorKind>)
        requires
            is_abs(path@),
            is_dir(path@),
    {
        self.inner.ls(path)
    }

    /// Atomically replace the file at an absolute file path of this source.
    pub fn update(&self, path: &Path, data: &[u8]) -> (r: Result<(), VfsErrorKind>)
        requires
            is_abs(path@),
            !is_dir(path@),
    {
        self.inner.update(path, data)
    }
}

} // verus!
