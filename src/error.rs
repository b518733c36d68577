use vstd::prelude::*;

verus! {

/// Failures met while reading a project directory.
#[derive(Debug, PartialEq, Eq, Clone)]
pub enum FileSystemError {
    /// The listing of the directory at `path` could not be read.
    ReadDirError { path: String },
    /// The file at `path` could not be read.
    ReadFileError { path: String },
    /// The file at `path` could not be created.
    CreateFileError { path: String },
    /// The directory at `path` could not be created.
    CreateDirError { path: String },
    /// The directory lacks a `typst` or a `pdf` subdirectory.
    NotMemristerDirectory,
}

/// Failures of one run of the document compiler.
#[derive(Debug, PartialEq, Eq, Clone)]
pub enum TypstError {
    /// The compiler binary could not be found.
    TypstNotInstalled,
    /// The compiler ran and reported a failure.
    CompilationError { message: String },
    /// The scratch directory could not be created or used.
    TempDirError { message: String },
    /// An operating-system error, described by its kind.
    FilesystemError(String),
}

} // verus!
