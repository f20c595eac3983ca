//! Structural conflicts: duplicate entries and files used as parents.

use hrx::{HrxArchive, HrxEntry, HrxEntryData, HrxError};
use std::str::FromStr;

#[test]
fn duplicate_files() {
    // The first header's newline belongs to the line before the next marker,
    // so the first body is absent; the second header's newline ends the
    // text, so the second body is present but empty.
    assert_eq!(
        HrxArchive::from_str("<======> file\n<======> file\n"),
        Err(HrxError::DuplicateEntry(
            "file".to_string(),
            HrxEntry {
                comment: None,
                data: HrxEntryData::File { body: None },
            },
            HrxEntry {
                comment: None,
                data: HrxEntryData::File {
                    body: Some("".to_string()),
                },
            }
        ))
    );
}

#[test]
fn duplicate_dirs() {
    assert_eq!(
        HrxArchive::from_str("<======> dir/\n<======> dir/\n"),
        Err(HrxError::DuplicateEntry(
            "dir".to_string(),
            HrxEntry {
                comment: None,
                data: HrxEntryData::Directory,
            },
            HrxEntry {
                comment: None,
                data: HrxEntryData::Directory,
            }
        ))
    );
}

#[test]
fn file_as_parent() {
    assert_eq!(
        HrxArchive::from_str("<======> file\n<======> file/sub\n"),
        Err(HrxError::FileAsDirectory(
            "file".to_string(),
            "file/sub".to_string()
        ))
    );
}

#[test]
fn no_boundary_anywhere() {
    assert_eq!(
        HrxArchive::from_str("no markers here"),
        Err(HrxError::NoBoundary)
    );
}

#[test]
fn malformed_header() {
    assert_eq!(
        HrxArchive::from_str("<===>junk"),
        Err(HrxError::Malformed)
    );
}

#[test]
fn text_before_first_marker() {
    assert_eq!(
        HrxArchive::from_str("junk\n<===> x\n"),
        Err(HrxError::Malformed)
    );
}

#[test]
fn bare_marker_at_end_of_input() {
    assert_eq!(HrxArchive::from_str("<===>"), Err(HrxError::UnexpectedEof));
}

#[test]
fn two_comment_blocks_in_a_row() {
    assert_eq!(
        HrxArchive::from_str("<===>\none\n<===>\ntwo\n<===> f\n"),
        Err(HrxError::Malformed)
    );
}

#[test]
fn directory_with_body() {
    assert_eq!(
        HrxArchive::from_str("<===> dir/\nbody\n"),
        Err(HrxError::Malformed)
    );
}
