use phprs::fs::{open_flags, seek_target, FsError, FsResult, OpenMode, SeekOrigin, SeekTarget};
use phprs::http::parser::ParseError;
use phprs::json::error::JsonError;

#[test]
fn json_error_messages() {
    assert_eq!(JsonError::UnexpectedEof.message(), "Unexpected end of JSON input");
    assert_eq!(JsonError::UnexpectedChar('x', 12).message(), "Unexpected character 'x' at position 12");
    assert_eq!(JsonError::ExpectedCommaOrBrace(0).message(), "Expected ',' or '}' at position 0");
    assert_eq!(JsonError::TrailingData(305).message(), "Trailing data after JSON value at position 305");
    assert_eq!(JsonError::InvalidUtf8.message(), "Invalid UTF-8 in JSON string");
}

#[test]
fn parse_and_fs_error_messages() {
    assert_eq!(ParseError::Incomplete.message(), "Incomplete request");
    assert_eq!(ParseError::UriTooLong.message(), "URI too long");
    assert_eq!(FsError::NotFound.message(), "file not found");
    assert_eq!(FsError::NoSpace.message(), "no space left");
}

#[test]
fn fs_codes_and_kinds() {
    assert_eq!(FsError::NoError.code(), 0);
    assert!(FsError::NoError.is_ok());
    assert!(FsError::NotFound.is_err());
    let e = std::io::Error::new(std::io::ErrorKind::NotFound, "gone");
    assert_eq!(FsError::from_io_error(&e), FsError::NotFound);
    let e = std::io::Error::new(std::io::ErrorKind::Other, "odd");
    assert_eq!(FsError::from_io_error(&e), FsError::IoError);
}

#[test]
fn open_flags_from_mode_bits() {
    let f = open_flags(OpenMode::Write.bits() | OpenMode::Create.bits() | OpenMode::Truncate.bits());
    assert!(!f.read && f.write && f.create && f.truncate && !f.append && !f.create_new);
    let f = open_flags(OpenMode::Append.bits());
    assert!(f.append && f.write && !f.read);
    let f = open_flags(0);
    assert!(f.read && !f.write);
    let f = open_flags(OpenMode::ReadWrite.bits() | OpenMode::Exclusive.bits());
    assert!(f.read && f.write && !f.create_new);
}

#[test]
fn seek_targets() {
    assert_eq!(seek_target(-1, SeekOrigin::Start), Err(FsError::InvalidSeek));
    assert_eq!(seek_target(5, SeekOrigin::Start), Ok(SeekTarget::Start(5)));
    assert_eq!(seek_target(-3, SeekOrigin::End), Ok(SeekTarget::End(-3)));
    assert_eq!(SeekOrigin::Current.code(), 1);
    let r: FsResult<i64> = FsResult::err(FsError::InvalidHandle);
    assert_eq!(r.value, 0);
    assert_eq!(r.error, FsError::InvalidHandle);
}
