//! Error types returned by the library.
use vstd::prelude::*;

verus! {

/// Errors about paths and the entries they name.
#[derive(Debug, Clone, PartialEq, Eq)]
pub enum PathError {
    /// The given path was empty
    Empty,
    /// The path has no parent
    ParentNotFound(String),
    /// The path does not exist
    DoesNotExist(String),
    /// The path exists but is not a directory
    IsNotDir(String),
    /// The path exists but is not a file
    IsNotFile(String),
    /// The path exists but is not a symbolic link
    IsNotSymlink(String),
    /// The directory still holds entries
    DirContainsFiles(String),
    /// The path has no extension
    ExtensionNotFound(String),
    /// Following a link would loop back onto a directory being traversed
    LinkLooping(String),
    /// More than one `~` was given
    MultipleHomeSymbols(String),
    /// An expansion was asked for that cannot be performed
    InvalidExpansion(String),
}

/// Errors about iteration.
#[derive(Debug, Clone, PartialEq, Eq)]
pub enum IterError {
    /// The item asked for does not exist
    ItemNotFound,
}

/// Errors of the virtual filesystem operations.
#[derive(Debug, Clone, PartialEq, Eq)]
pub enum VfsError {
    /// The symbolic chmod string ended early
    InvalidChmod(String),
    /// The symbolic chmod target was not one of `d`, `f`, `a`
    InvalidChmodTarget(String),
    /// The symbolic chmod group was not one of `u`, `g`, `o`, `a`
    InvalidChmodGroup(String),
    /// The symbolic chmod operation was missing
    InvalidChmodOp(String),
    /// The symbolic chmod permissions were not made of `r`, `w`, `x`
    InvalidChmodPermissions(String),
}

/// The library's error type.
#[derive(Debug, Clone, PartialEq, Eq)]
pub enum RvError {
    /// A path error
    Path(PathError),
    /// An iteration error
    Iter(IterError),
    /// A virtual filesystem error
    Vfs(VfsError),
    /// The named environment variable is not set
    EnvVarNotFound(String),
    /// The file's contents are not valid UTF-8
    InvalidUtf8(String),
}

} // verus!

verus! {

/// The model of an error: each variant's text as a character sequence.
pub enum RvErr {
    Empty,
    ParentNotFound(Seq<char>),
    DoesNotExist(Seq<char>),
    IsNotDir(Seq<char>),
    IsNotFile(Seq<char>),
    IsNotSymlink(Seq<char>),
    DirContainsFiles(Seq<char>),
    ExtensionNotFound(Seq<char>),
    LinkLooping(Seq<char>),
    MultipleHomeSymbols(Seq<char>),
    InvalidExpansion(Seq<char>),
    ItemNotFound,
    InvalidChmod(Seq<char>),
    InvalidChmodTarget(Seq<char>),
    InvalidChmodGroup(Seq<char>),
    InvalidChmodOp(Seq<char>),
    InvalidChmodPermissions(Seq<char>),
    EnvVarNotFound(Seq<char>),
    InvalidUtf8(Seq<char>),
}

impl View for RvError {
    type V = RvErr;

    open spec fn view(&self) -> RvErr {
        match self {
            RvError::Path(p) => match p {
                PathError::Empty => RvErr::Empty,
                PathError::ParentNotFound(s) => RvErr::ParentNotFound(s@),
                PathError::DoesNotExist(s) => RvErr::DoesNotExist(s@),
                PathError::IsNotDir(s) => RvErr::IsNotDir(s@),
                PathError::IsNotFile(s) => RvErr::IsNotFile(s@),
                PathError::IsNotSymlink(s) => RvErr::IsNotSymlink(s@),
                PathError::DirContainsFiles(s) => RvErr::DirContainsFiles(s@),
                PathError::ExtensionNotFound(s) => RvErr::ExtensionNotFound(s@),
                PathError::LinkLooping(s) => RvErr::LinkLooping(s@),
                PathError::MultipleHomeSymbols(s) => RvErr::MultipleHomeSymbols(s@),
                PathError::InvalidExpansion(s) => RvErr::InvalidExpansion(s@),
            },
            RvError::Iter(IterError::ItemNotFound) => RvErr::ItemNotFound,
            RvError::Vfs(v) => match v {
                VfsError::InvalidChmod(s) => RvErr::InvalidChmod(s@),
                VfsError::InvalidChmodTarget(s) => RvErr::InvalidChmodTarget(s@),
                VfsError::InvalidChmodGroup(s) => RvErr::InvalidChmodGroup(s@),
                VfsError::InvalidChmodOp(s) => RvErr::InvalidChmodOp(s@),
                VfsError::InvalidChmodPermissions(s) => RvErr::InvalidChmodPermissions(s@),
            },
            RvError::EnvVarNotFound(s) => RvErr::EnvVarNotFound(s@),
            RvError::InvalidUtf8(s) => RvErr::InvalidUtf8(s@),
        }
    }
}

impl RvError {
    /// Makes a copy of the error.
    pub fn clone_error(&self) -> (r: RvError)
        ensures
            r@ == self@,
    {
        match self {
            RvError::Path(p) => RvError::Path(
                match p {
                    PathError::Empty => PathError::Empty,
                    PathError::ParentNotFound(s) => PathError::ParentNotFound(s.clone()),
                    PathError::DoesNotExist(s) => PathError::DoesNotExist(s.clone()),
                    PathError::IsNotDir(s) => PathError::IsNotDir(s.clone()),
                    PathError::IsNotFile(s) => PathError::IsNotFile(s.clone()),
                    PathError::IsNotSymlink(s) => PathError::IsNotSymlink(s.clone()),
                    PathError::DirContainsFiles(s) => PathError::DirContainsFiles(s.clone()),
                    PathError::ExtensionNotFound(s) => PathError::ExtensionNotFound(s.clone()),
                    PathError::LinkLooping(s) => PathError::LinkLooping(s.clone()),
                    PathError::MultipleHomeSymbols(s) => PathError::MultipleHomeSymbols(s.clone()),
                    PathError::InvalidExpansion(s) => PathError::InvalidExpansion(s.clone()),
                },
            ),
            RvError::Iter(IterError::ItemNotFound) => RvError::Iter(IterError::ItemNotFound),
            RvError::Vfs(v) => RvError::Vfs(
                match v {
                    VfsError::InvalidChmod(s) => VfsError::InvalidChmod(s.clone()),
                    VfsError::InvalidChmodTarget(s) => VfsError::InvalidChmodTarget(s.clone()),
                    VfsError::InvalidChmodGroup(s) => VfsError::InvalidChmodGroup(s.clone()),
                    VfsError::InvalidChmodOp(s) => VfsError::InvalidChmodOp(s.clone()),
                    VfsError::InvalidChmodPermissions(s) => VfsError::InvalidChmodPermissions(
                        s.clone(),
                    ),
                },
            ),
            RvError::EnvVarNotFound(s) => RvError::EnvVarNotFound(s.clone()),
            RvError::InvalidUtf8(s) => RvError::InvalidUtf8(s.clone()),
        }
    }
}


/// The message of an error: a fixed text for its kind followed by the path or value it names.
pub open spec fn message_spec(e: RvErr) -> Seq<char> {
    match e {
        RvErr::Empty => "path empty"@,
        RvErr::ParentNotFound(s) => "Target path's parent not found: "@ + s,
        RvErr::DoesNotExist(s) => "Target path does not exist: "@ + s,
        RvErr::IsNotDir(s) => "Target path is not a directory: "@ + s,
        RvErr::IsNotFile(s) => "Target path is not a file: "@ + s,
        RvErr::IsNotSymlink(s) => "Target path is not a symlink: "@ + s,
        RvErr::DirContainsFiles(s) => "Target path is a directory containing files: "@ + s,
        RvErr::ExtensionNotFound(s) => "Target path extension not found: "@ + s,
        RvErr::LinkLooping(s) => "Target path causes link looping: "@ + s,
        RvErr::MultipleHomeSymbols(s) => "Multiple home symbols given for path: "@ + s,
        RvErr::InvalidExpansion(s) => "Invalid path expansion given: "@ + s,
        RvErr::ItemNotFound => "iterator item not found"@,
        RvErr::InvalidChmod(s) => "Invalid chmod given: "@ + s,
        RvErr::InvalidChmodTarget(s) => "Invalid chmod target given: "@ + s,
        RvErr::InvalidChmodGroup(s) => "Invalid chmod group given: "@ + s,
        RvErr::InvalidChmodOp(s) => "Invalid chmod operation given: "@ + s,
        RvErr::InvalidChmodPermissions(s) => "Invalid chmod permissions given: "@ + s,
        RvErr::EnvVarNotFound(s) => "environment variable not found: "@ + s,
        RvErr::InvalidUtf8(s) => "stream did not contain valid UTF-8: "@ + s,
    }
}

/// The text `p` followed by `s`.
fn prefixed(p: &str, s: &String) -> (r: String)
    ensures
        r@ == p@ + s@,
{
    String::from_str(p).concat(s.as_str())
}

impl RvError {
    /// Returns the error's message: a fixed text for its kind followed by the path or value it
    /// names, e.g. `Invalid chmod target given: sf:u+r`.
    pub fn message(&self) -> (r: String)
        ensures
            r@ == message_spec(self@),
    {
        match self {
            RvError::Path(p) => match p {
                PathError::Empty => String::from_str("path empty"),
                PathError::ParentNotFound(s) => prefixed("Target path's parent not found: ", s),
                PathError::DoesNotExist(s) => prefixed("Target path does not exist: ", s),
                PathError::IsNotDir(s) => prefixed("Target path is not a directory: ", s),
                PathError::IsNotFile(s) => prefixed("Target path is not a file: ", s),
                PathError::IsNotSymlink(s) => prefixed("Target path is not a symlink: ", s),
                PathError::DirContainsFiles(s) => prefixed("Target path is a directory containing files: ", s),
                PathError::ExtensionNotFound(s) => prefixed("Target path extension not found: ", s),
                PathError::LinkLooping(s) => prefixed("Target path causes link looping: ", s),
                PathError::MultipleHomeSymbols(s) => prefixed("Multiple home symbols given for path: ", s),
                PathError::InvalidExpansion(s) => prefixed("Invalid path expansion given: ", s),
            },
            RvError::Iter(IterError::ItemNotFound) => String::from_str("iterator item not found"),
            RvError::Vfs(v) => match v {
                VfsError::InvalidChmod(s) => prefixed("Invalid chmod given: ", s),
                VfsError::InvalidChmodTarget(s) => prefixed("Invalid chmod target given: ", s),
                VfsError::InvalidChmodGroup(s) => prefixed("Invalid chmod group given: ", s),
                VfsError::InvalidChmodOp(s) => prefixed("Invalid chmod operation given: ", s),
                VfsError::InvalidChmodPermissions(s) => prefixed("Invalid chmod permissions given: ", s),
            },
            RvError::EnvVarNotFound(s) => prefixed("environment variable not found: ", s),
            RvError::InvalidUtf8(s) => prefixed("stream did not contain valid UTF-8: ", s),
        }
    }
}

} // verus!
