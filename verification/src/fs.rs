//! File system error codes, open modes and seek origins, and the decisions the runtime
//! takes on them before it calls the operating system.

use vstd::prelude::*;

verus! {

/// File system error code.
#[derive(Debug, Clone, Copy, PartialEq, Eq, Structural)]
pub enum FsError {
    NoError,
    NotFound,
    PermissionDenied,
    AlreadyExists,
    InvalidHandle,
    InvalidPath,
    InvalidMode,
    IoError,
    IsDirectory,
    NotDirectory,
    DirectoryNotEmpty,
    ReadOnly,
    TooManyFiles,
    FileTooLarge,
    NoSpace,
    InvalidSeek,
    WouldBlock,
    Interrupted,
    Unknown,
}

/// The description of an error.
pub open spec fn fs_error_text(e: FsError) -> Seq<char> {
    match e {
        FsError::NoError => "no error"@,
        FsError::NotFound => "file not found"@,
        FsError::PermissionDenied => "permission denied"@,
        FsError::AlreadyExists => "file already exists"@,
        FsError::InvalidHandle => "invalid file handle"@,
        FsError::InvalidPath => "invalid path"@,
        FsError::InvalidMode => "invalid mode"@,
        FsError::IoError => "I/O error"@,
        FsError::IsDirectory => "is a directory"@,
        FsError::NotDirectory => "not a directory"@,
        FsError::DirectoryNotEmpty => "directory not empty"@,
        FsError::ReadOnly => "read-only filesystem"@,
        FsError::TooManyFiles => "too many open files"@,
        FsError::FileTooLarge => "file too large"@,
        FsError::NoSpace => "no space left"@,
        FsError::InvalidSeek => "invalid seek position"@,
        FsError::WouldBlock => "operation would block"@,
        FsError::Interrupted => "operation interrupted"@,
        FsError::Unknown => "unknown error"@,
    }
}

/// Numeric code of an error, as exchanged with compiled programs.
pub open spec fn spec_fs_code(e: FsError) -> u32 {
    match e {
        FsError::NoError => 0,
        FsError::NotFound => 1,
        FsError::PermissionDenied => 2,
        FsError::AlreadyExists => 3,
        FsError::InvalidHandle => 4,
        FsError::InvalidPath => 5,
        FsError::InvalidMode => 6,
        FsError::IoError => 7,
        FsError::IsDirectory => 8,
        FsError::NotDirectory => 9,
        FsError::DirectoryNotEmpty => 10,
        FsError::ReadOnly => 11,
        FsError::TooManyFiles => 12,
        FsError::FileTooLarge => 13,
        FsError::NoSpace => 14,
        FsError::InvalidSeek => 15,
        FsError::WouldBlock => 16,
        FsError::Interrupted => 17,
        FsError::Unknown => 255,
    }
}

/// The kinds of I/O error the runtime tells apart.
#[derive(Debug, Clone, Copy, PartialEq, Eq, Structural)]
pub enum IoErrorKind {
    NotFound,
    PermissionDenied,
    AlreadyExists,
    InvalidInput,
    IsADirectory,
    NotADirectory,
    DirectoryNotEmpty,
    ReadOnlyFilesystem,
    WouldBlock,
    Interrupted,
    Other,
}

#[verifier::external_type_specification]
#[verifier::external_body]
pub struct ExIoError(std::io::Error);

/// The kind that std's `io::Error::kind` reports for an error, among the kinds the
/// runtime tells apart (every other kind is `Other`); it depends on the error alone.
pub uninterp spec fn io_kind(e: std::io::Error) -> IoErrorKind;

/// The kind of an I/O error (std's `io::Error::kind`), one arm per kind the runtime tells
/// apart; every other kind is `Other`.
#[verifier::external_body]
fn io_error_kind(err: &std::io::Error) -> (r: IoErrorKind)
    ensures
        r == io_kind(*err),
{
    match err.kind() {
        std::io::ErrorKind::NotFound => IoErrorKind::NotFound,
        std::io::ErrorKind::PermissionDenied => IoErrorKind::PermissionDenied,
        std::io::ErrorKind::AlreadyExists => IoErrorKind::AlreadyExists,
        std::io::ErrorKind::InvalidInput => IoErrorKind::InvalidInput,
        std::io::ErrorKind::IsADirectory => IoErrorKind::IsADirectory,
        std::io::ErrorKind::NotADirectory => IoErrorKind::NotADirectory,
        std::io::ErrorKind::DirectoryNotEmpty => IoErrorKind::DirectoryNotEmpty,
        std::io::ErrorKind::ReadOnlyFilesystem => IoErrorKind::ReadOnlyFilesystem,
        std::io::ErrorKind::WouldBlock => IoErrorKind::WouldBlock,
        std::io::ErrorKind::Interrupted => IoErrorKind::Interrupted,
        _ => IoErrorKind::Other,
    }
}

/// The error code for an I/O error kind.
pub open spec fn spec_from_kind(k: IoErrorKind) -> FsError {
    match k {
        IoErrorKind::NotFound => FsError::NotFound,
        IoErrorKind::PermissionDenied => FsError::PermissionDenied,
        IoErrorKind::AlreadyExists => FsError::AlreadyExists,
        IoErrorKind::InvalidInput => FsError::InvalidMode,
        IoErrorKind::IsADirectory => FsError::IsDirectory,
        IoErrorKind::NotADirectory => FsError::NotDirectory,
        IoErrorKind::DirectoryNotEmpty => FsError::DirectoryNotEmpty,
        IoErrorKind::ReadOnlyFilesystem => FsError::ReadOnly,
        IoErrorKind::WouldBlock => FsError::WouldBlock,
        IoErrorKind::Interrupted => FsError::Interrupted,
        IoErrorKind::Other => FsError::IoError,
    }
}

impl FsError {
    /// The error code for an I/O error kind.
    pub fn from_io_error_kind(kind: IoErrorKind) -> (r: Self)
        ensures
            r == spec_from_kind(kind),
    {
        match kind {
            IoErrorKind::NotFound => FsError::NotFound,
            IoErrorKind::PermissionDenied => FsError::PermissionDenied,
            IoErrorKind::AlreadyExists => FsError::AlreadyExists,
            IoErrorKind::InvalidInput => FsError::InvalidMode,
            IoErrorKind::IsADirectory => FsError::IsDirectory,
            IoErrorKind::NotADirectory => FsError::NotDirectory,
            IoErrorKind::DirectoryNotEmpty => FsError::DirectoryNotEmpty,
            IoErrorKind::ReadOnlyFilesystem => FsError::ReadOnly,
            IoErrorKind::WouldBlock => FsError::WouldBlock,
            IoErrorKind::Interrupted => FsError::Interrupted,
            IoErrorKind::Other => FsError::IoError,
        }
    }

    /// The error code for an I/O error.
    pub fn from_io_error(err: &std::io::Error) -> (r: Self)
        ensures
            r == spec_from_kind(io_kind(*err)),
    {
        Self::from_io_error_kind(io_error_kind(err))
    }

    /// A short description of the error.
    pub fn message(&self) -> (r: &'static str)
        ensures
            r@ == fs_error_text(*self),
    {
        match self {
            FsError::NoError => "no error",
            FsError::NotFound => "file not found",
            FsError::PermissionDenied => "permission denied",
            FsError::AlreadyExists => "file already exists",
            FsError::InvalidHandle => "invalid file handle",
            FsError::InvalidPath => "invalid path",
            FsError::InvalidMode => "invalid mode",
            FsError::IoError => "I/O error",
            FsError::IsDirectory => "is a directory",
            FsError::NotDirectory => "not a directory",
            FsError::DirectoryNotEmpty => "directory not empty",
            FsError::ReadOnly => "read-only filesystem",
            FsError::TooManyFiles => "too many open files",
            FsError::FileTooLarge => "file too large",
            FsError::NoSpace => "no space left",
            FsError::InvalidSeek => "invalid seek position",
            FsError::WouldBlock => "operation would block",
            FsError::Interrupted => "operation interrupted",
            FsError::Unknown => "unknown error",
        }
    }

    /// Numeric code.
    pub fn code(&self) -> (r: u32)
        ensures
            r == spec_fs_code(*self),
    {
        match self {
            FsError::NoError => 0,
            FsError::NotFound => 1,
            FsError::PermissionDenied => 2,
            FsError::AlreadyExists => 3,
            FsError::InvalidHandle => 4,
            FsError::InvalidPath => 5,
            FsError::InvalidMode => 6,
            FsError::IoError => 7,
            FsError::IsDirectory => 8,
            FsError::NotDirectory => 9,
            FsError::DirectoryNotEmpty => 10,
            FsError::ReadOnly => 11,
            FsError::TooManyFiles => 12,
            FsError::FileTooLarge => 13,
            FsError::NoSpace => 14,
            FsError::InvalidSeek => 15,
            FsError::WouldBlock => 16,
            FsError::Interrupted => 17,
            FsError::Unknown => 255,
        }
    }

    /// Whether this is an error (anything but `NoError`).
    pub fn is_err(&self) -> (r: bool)
        ensures
            r == (*self != FsError::NoError),
    {
        *self != FsError::NoError
    }

    /// Whether this is success (`NoError`).
    pub fn is_ok(&self) -> (r: bool)
        ensures
            r == (*self == FsError::NoError),
    {
        *self == FsError::NoError
    }
}

impl Default for FsError {
    fn default() -> (r: Self)
        ensures
            r == FsError::NoError,
    {
        FsError::NoError
    }
}

/// File open mode flags; their bits can be combined.
#[derive(Debug, Clone, Copy, PartialEq, Eq, Structural)]
pub enum OpenMode {
    Read,
    Write,
    ReadWrite,
    Append,
    Create,
    Truncate,
    Exclusive,
}

/// Bit value of an open mode.
pub open spec fn spec_mode_bits(m: OpenMode) -> u32 {
    match m {
        OpenMode::Read => 1,
        OpenMode::Write => 2,
        OpenMode::ReadWrite => 3,
        OpenMode::Append => 4,
        OpenMode::Create => 8,
        OpenMode::Truncate => 16,
        OpenMode::Exclusive => 32,
    }
}

impl OpenMode {
    /// Bit value of the mode.
    pub fn bits(self) -> (r: u32)
        ensures
            r == spec_mode_bits(self),
    {
        match self {
            OpenMode::Read => 1,
            OpenMode::Write => 2,
            OpenMode::ReadWrite => 3,
            OpenMode::Append => 4,
            OpenMode::Create => 8,
            OpenMode::Truncate => 16,
            OpenMode::Exclusive => 32,
        }
    }
}

/// Origin of a seek.
#[derive(Debug, Clone, Copy, PartialEq, Eq, Structural)]
pub enum SeekOrigin {
    Start,
    Current,
    End,
}

impl SeekOrigin {
    /// Numeric code (0, 1, 2).
    pub fn code(self) -> (r: u32)
        ensures
            r == (match self {
                SeekOrigin::Start => 0u32,
                SeekOrigin::Current => 1u32,
                SeekOrigin::End => 2u32,
            }),
    {
        match self {
            SeekOrigin::Start => 0,
            SeekOrigin::Current => 1,
            SeekOrigin::End => 2,
        }
    }
}

/// Options for opening a file, decided from mode bits.
#[derive(Debug, Clone, Copy, PartialEq, Eq, Structural)]
pub struct OpenFlags {
    pub read: bool,
    pub write: bool,
    pub append: bool,
    pub create: bool,
    pub truncate: bool,
    pub create_new: bool,
}

/// Mode bit `b` is set.
pub open spec fn has_bit(mode: u32, b: u32) -> bool {
    mode & b != 0
}

/// The open options for mode bits: read and write bits (or both through `ReadWrite`),
/// append, create, truncate, and exclusive creation (only with create); read when
/// neither read, write nor append is asked for; writing whenever appending.
pub open spec fn spec_open_flags(mode: u32) -> OpenFlags {
    let read = has_bit(mode, 1) || mode & 3 == 3;
    let write = has_bit(mode, 2) || mode & 3 == 3;
    let append = has_bit(mode, 4);
    let create = has_bit(mode, 8);
    let truncate = has_bit(mode, 16);
    let exclusive = has_bit(mode, 32);
    OpenFlags {
        read: if !read && !write && !append { true } else { read },
        write: write || append,
        append,
        create,
        truncate,
        create_new: exclusive && create,
    }
}

/// The open options for mode bits.
pub fn open_flags(mode: u32) -> (r: OpenFlags)
    ensures
        r == spec_open_flags(mode),
{
    let read = (mode & 1) != 0 || (mode & 3) == 3;
    let write = (mode & 2) != 0 || (mode & 3) == 3;
    let append = (mode & 4) != 0;
    let create = (mode & 8) != 0;
    let truncate = (mode & 16) != 0;
    let exclusive = (mode & 32) != 0;
    let read = if !read && !write && !append { true } else { read };
    OpenFlags {
        read,
        write: write || append,
        append,
        create,
        truncate,
        create_new: exclusive && create,
    }
}

/// Where a seek goes.
#[derive(Debug, Clone, Copy, PartialEq, Eq, Structural)]
pub enum SeekTarget {
    Start(u64),
    Current(i64),
    End(i64),
}

/// The seek target for an offset and origin: a negative offset from the start is an
/// invalid seek.
pub fn seek_target(offset: i64, origin: SeekOrigin) -> (r: Result<SeekTarget, FsError>)
    ensures
        match origin {
            SeekOrigin::Start => if offset < 0 {
                r == Err::<SeekTarget, FsError>(FsError::InvalidSeek)
            } else {
                r == Ok::<SeekTarget, FsError>(SeekTarget::Start(offset as u64))
            },
            SeekOrigin::Current => r == Ok::<SeekTarget, FsError>(SeekTarget::Current(offset)),
            SeekOrigin::End => r == Ok::<SeekTarget, FsError>(SeekTarget::End(offset)),
        },
{
    match origin {
        SeekOrigin::Start => {
            if offset < 0 {
                return Err(FsError::InvalidSeek);
            }
            Ok(SeekTarget::Start(offset as u64))
        },
        SeekOrigin::Current => Ok(SeekTarget::Current(offset)),
        SeekOrigin::End => Ok(SeekTarget::End(offset)),
    }
}

/// Value and error code of a file operation.
pub struct FsResult<T> {
    pub value: T,
    pub error: FsError,
}

impl<T: Default> FsResult<T> {
    /// Success with a value.
    pub fn ok(value: T) -> (r: Self)
        ensures
            r.value == value,
            r.error == FsError::NoError,
    {
        FsResult { value, error: FsError::NoError }
    }

    /// Failure with an error code and the default value.
    pub fn err(error: FsError) -> (r: Self)
        ensures
            r.error == error,
    {
        FsResult { value: T::default(), error }
    }
}

} // verus!
