//! The library's error type.

use vstd::prelude::*;

verus! {

/// `std::io::Error`, carried through the library unopened.
#[verifier::external_type_specification]
#[verifier::external_body]
pub struct ExIoError(std::io::Error);

/// `serde_json::Error`, carried through the library unopened.
#[verifier::external_type_specification]
#[verifier::external_body]
pub struct ExJsonError(serde_json::Error);

/// `getrandom::Error`, carried through the library unopened.
#[verifier::external_type_specification]
#[verifier::external_body]
pub struct ExRandomError(getrandom::Error);

/// Why a workspace name or a dock link name was refused.
#[derive(Clone, Copy, Debug, PartialEq, Eq, Structural)]
pub enum NameIssue {
    Empty,
    ReservedSegment,
    NulByte,
    PathSeparator,
    ReservedMetadataName,
    AbsolutePath,
    PathComponent,
    MultipleSegments,
    HasExtension,
}

impl NameIssue {
    /// The words that describe the issue.
    pub fn reason(&self) -> (r: &'static str)
        ensures
            r@ == match self {
                NameIssue::Empty => "empty name"@,
                NameIssue::ReservedSegment => "reserved relative path segment"@,
                NameIssue::NulByte => "contains NUL byte"@,
                NameIssue::PathSeparator => "contains path separator"@,
                NameIssue::ReservedMetadataName => "reserved dock metadata name"@,
                NameIssue::AbsolutePath => "absolute path"@,
                NameIssue::PathComponent => "contains path component"@,
                NameIssue::MultipleSegments => "must be a single path segment"@,
                NameIssue::HasExtension => "must not include an extension"@,
            },
    {
        match self {
            NameIssue::Empty => "empty name",
            NameIssue::ReservedSegment => "reserved relative path segment",
            NameIssue::NulByte => "contains NUL byte",
            NameIssue::PathSeparator => "contains path separator",
            NameIssue::ReservedMetadataName => "reserved dock metadata name",
            NameIssue::AbsolutePath => "absolute path",
            NameIssue::PathComponent => "contains path component",
            NameIssue::MultipleSegments => "must be a single path segment",
            NameIssue::HasExtension => "must not include an extension",
        }
    }
}

/// Everything that can go wrong. Paths are held as text.
#[derive(Debug)]
pub enum AppError {
    Io(std::io::Error),
    Json(serde_json::Error),
    UnsupportedWorkspaceExtension { path: String },
    MissingDockMode,
    MissingWorkspaceParent,
    FolderResolve { path: String, source: std::io::Error },
    FolderTargetNotDirectory { path: String },
    FolderTargetMissingBasename { path: String },
    DuplicateFolderName { name: String },
    InvalidLinkName { name: String, reason: NameIssue },
    EmptyFolderPath,
    OutputPathLooksLikeWorkspaceFile { path: String },
    OutputPathNotDirectory { path: String },
    CacheDirNotFound,
    HomeDirNotFound,
    ConfigDirNotFound,
    InvalidWorkspaceName { name: String, reason: NameIssue },
    WorkspaceAlreadyExists { path: String },
    RegisteredWorkspaceNotFound { name: String },
    WorkspaceReferenceRequired,
    CurrentDirectoryIsDock { path: String },
    WorkspaceNameGenerationExhausted,
    Random(getrandom::Error),
    DockPathNotDirectory { path: String },
    DockMissingLock { path: String },
    UnsupportedDockLockVersion { version: u8 },
    UnmanagedDockContent { path: String },
    ManagedDockEntryNotSymlink { path: String },
    DockWorkspacePathMismatch { lock_workspace_path: String, workspace_path: String },
    DockLinkPathExists { path: String },
    WindowsSymlink { path: String, source: std::io::Error },
    UnsupportedSymlinkPlatform,
    ZedExited { code: Option<i32> },
    LaunchZed { path: String, source: std::io::Error },
    InvalidTasksJsonRoot,
    InvalidTaskTemplateRoot,
    InvalidTaskTemplateCommand { placeholder: &'static str },
    InvalidTaskTemplateLabel,
    CurrentExecutableMissingName,
    InstallCommandNotFound { path: String },
}

} // verus!
