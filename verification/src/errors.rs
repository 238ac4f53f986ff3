//! Error types for path construction and path joining.

use vstd::prelude::*;

verus! {

/// Why a string was rejected as a path.
#[derive(Debug, PartialEq, Eq, Structural, Clone, Copy)]
pub enum PathFromStrError {
    /// There were two or more consecutive slashes in the path.
    DoubleSlash,
    /// A component began with a character that is forbidden there.
    InvalidStartChar,
    /// A component ended with a character that is forbidden there.
    InvalidEndChar,
    /// A component contained a forbidden character.
    InvalidChar,
    /// A component matched one of the reserved names.
    ReservedName,
    /// The path tried to escape the root directory with "..".
    EscapedRoot,
    /// The path ended with ".." (as opposed to "../").
    DotDotFile,
}

impl PathFromStrError {
    /// A human-readable description of the error.
    pub fn message(&self) -> (r: &'static str)
        ensures
            r@.len() > 0,
    {
        let r = match self {
            PathFromStrError::DoubleSlash => "double slash in path",
            PathFromStrError::InvalidStartChar => "invalid start char in some component of path",
            PathFromStrError::InvalidEndChar => "invalid end char in some component of path",
            PathFromStrError::InvalidChar => "invalid char in path",
            PathFromStrError::ReservedName => "reserved name in path",
            PathFromStrError::EscapedRoot => "path tried to denote root's parent (too many \"..\")",
            PathFromStrError::DotDotFile => "path ended with \"..\" (instead of \"../\")",
        };
        proof {
            reveal_strlit("double slash in path");
            reveal_strlit("invalid start char in some component of path");
            reveal_strlit("invalid end char in some component of path");
            reveal_strlit("invalid char in path");
            reveal_strlit("reserved name in path");
            reveal_strlit("path tried to denote root's parent (too many \"..\")");
            reveal_strlit("path ended with \"..\" (instead of \"../\")");
        }
        r
    }
}

/// Why joining two paths failed.
#[derive(Debug, PartialEq, Eq, Structural, Clone, Copy)]
pub enum PathJoinError {
    /// `join` was called on a path that was not a directory.
    BasePathNotDir,
    /// `join` (not `join_or_replace`) was given a path that was absolute.
    PathNotRelative,
    /// The given path tried to escape the root directory with "..".
    EscapedRoot,
}

impl PathJoinError {
    /// A human-readable description of the error.
    pub fn message(&self) -> (r: &'static str)
        ensures
            r@.len() > 0,
    {
        let r = match self {
            PathJoinError::BasePathNotDir => "called join on a path that was not a dir",
            PathJoinError::PathNotRelative => "called join and provided a path that was not relative",
            PathJoinError::EscapedRoot => "called join and provided a path that would have escaped root (too many \"..\")",
        };
        proof {
            reveal_strlit("called join on a path that was not a dir");
            reveal_strlit("called join and provided a path that was not relative");
            reveal_strlit("called join and provided a path that would have escaped root (too many \"..\")");
        }
        r
    }
}

} // verus!
