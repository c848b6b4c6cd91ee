//! The judgement of single bytes, and the texts of the two settings.

use esp01::errors::Error;
use esp01::scanner::{classify_byte, has_suffix, ScanStep, CAPACITY};
use esp01::wire::{CR, LF};
use esp01::{Persist, QueryMode};

#[test]
fn persist_as_str_texts() {
    assert_eq!(Persist::DontSave.as_str(), "_CUR=");
    assert_eq!(Persist::SaveInFlash.as_str(), "_DEF=");
}

#[test]
fn query_mode_as_str_texts() {
    assert_eq!(QueryMode::Current.as_str(), "_CUR");
    assert_eq!(QueryMode::SavedInFlash.as_str(), "_DEF");
}

#[test]
fn line_ends_and_capacity() {
    assert_eq!(CR, b'\r');
    assert_eq!(LF, b'\n');
    assert_eq!(CAPACITY, 512);
}

#[test]
fn has_suffix_cases() {
    assert!(has_suffix(b"abcOK\r", b"OK\r"));
    assert!(has_suffix(b"OK\r", b"OK\r"));
    assert!(has_suffix(b"anything", b""));
    assert!(has_suffix(b"", b""));
    assert!(!has_suffix(b"K\r", b"OK\r"));
    assert!(!has_suffix(b"", b"OK\r"));
    assert!(!has_suffix(b"OK\rx", b"OK\r"));
    assert!(!has_suffix(b"oK\r", b"OK\r"));
}

#[test]
fn classify_byte_line_feed_behind_ok() {
    assert_eq!(classify_byte(b"OK\r", LF), ScanStep::Success(0));
    assert_eq!(classify_byte(b"1.0.0OK\r", LF), ScanStep::Success(5));
    assert_eq!(classify_byte(b"V1.0\r\nOK\r", LF), ScanStep::Success(6));
}

#[test]
fn classify_byte_line_feed_behind_framed_ok() {
    assert_eq!(classify_byte(b"\r\n\r\nOK\r", LF), ScanStep::Success(0));
    assert_eq!(classify_byte(b"abc\r\n\r\nOK\r", LF), ScanStep::Success(3));
    assert_eq!(classify_byte(b"abc\n\r\nOK\r", LF), ScanStep::Success(6));
    assert_eq!(classify_byte(b"\n\r\nOK\r", LF), ScanStep::Success(3));
}

#[test]
fn classify_byte_line_feed_behind_error_and_fail() {
    assert_eq!(classify_byte(b"ERROR\r", LF), ScanStep::Failure(Error::CommandError));
    assert_eq!(classify_byte(b"\r\nERROR\r", LF), ScanStep::Failure(Error::CommandError));
    assert_eq!(classify_byte(b"FAIL\r", LF), ScanStep::Failure(Error::CommandFailed));
    assert_eq!(classify_byte(b"+CWJAP:3\r\n\r\nFAIL\r", LF), ScanStep::Failure(Error::CommandFailed));
}

#[test]
fn classify_byte_everything_else_goes_on() {
    assert_eq!(classify_byte(b"OK\r", CR), ScanStep::Continue);
    assert_eq!(classify_byte(b"OK\r", b'x'), ScanStep::Continue);
    assert_eq!(classify_byte(b"OK", LF), ScanStep::Continue);
    assert_eq!(classify_byte(b"RROR\r", LF), ScanStep::Continue);
    assert_eq!(classify_byte(b"AIL\r", LF), ScanStep::Continue);
    assert_eq!(classify_byte(b"ok\r", LF), ScanStep::Continue);
    assert_eq!(classify_byte(b"", LF), ScanStep::Continue);
    assert_eq!(classify_byte(b"\r", LF), ScanStep::Continue);
}
