//! Path validation, boundary discovery, content validation and the
//! boundary-length setter.

use hrx::parse::{discover_first_boundary_length, path};
use hrx::repr::BoundaryLen;
use hrx::{ErroneousBodyPath, HrxArchive, HrxEntry, HrxEntryData, HrxError, HrxPath};
use std::str::FromStr;

#[test]
fn discover_widths() {
    assert_eq!(discover_first_boundary_length("<===> x\n"), Some(3));
    assert_eq!(discover_first_boundary_length("no markers here"), None);
    assert_eq!(discover_first_boundary_length("text\n<=> x\n"), Some(1));
    assert_eq!(discover_first_boundary_length("a <===> b\n<==> c\n"), Some(2));
    assert_eq!(discover_first_boundary_length("<>\n<=a>\n"), None);
}

#[test]
fn path_rejects_reserved_components() {
    assert_eq!(path("."), Err(HrxError::ReservedComponent(".".to_string())));
    assert_eq!(path(".."), Err(HrxError::ReservedComponent("..".to_string())));
    assert_eq!(
        path("a/../b"),
        Err(HrxError::ReservedComponent("a/../b".to_string()))
    );
}

#[test]
fn path_rejects_empty_components() {
    assert_eq!(path(""), Err(HrxError::EmptyComponent("".to_string())));
    assert_eq!(path("a//b"), Err(HrxError::EmptyComponent("a//b".to_string())));
    assert_eq!(path("/a"), Err(HrxError::EmptyComponent("/a".to_string())));
    assert_eq!(path("a/"), Err(HrxError::EmptyComponent("a/".to_string())));
}

#[test]
fn path_rejects_forbidden_characters() {
    assert_eq!(
        path("a:b"),
        Err(HrxError::ForbiddenCharacter("a:b".to_string()))
    );
    assert_eq!(
        path("a\\b"),
        Err(HrxError::ForbiddenCharacter("a\\b".to_string()))
    );
    assert_eq!(
        path("a\tb"),
        Err(HrxError::ForbiddenCharacter("a\tb".to_string()))
    );
    assert_eq!(
        path("dir/nu\u{1}l"),
        Err(HrxError::ForbiddenCharacter("dir/nu\u{1}l".to_string()))
    );
}

#[test]
fn path_accepts_and_unwraps() {
    let p = HrxPath::from_str("\u{445}\u{44d}\u{43d}\u{43b}\u{43e}/communism.exe").unwrap();
    let raw = p.into_inner();
    assert_eq!(raw, "\u{445}\u{44d}\u{43d}\u{43b}\u{43e}/communism.exe");
    assert!(path("a.b/c d/e-f_g").is_ok());
    assert!(path("...").is_ok());
}

#[test]
fn validate_content_reports_root_comment() {
    let mut arch = HrxArchive::new(5);
    arch.comment = Some("Hello\n<=====>\nworld".to_string());
    assert_eq!(
        arch.validate_content(),
        Err(HrxError::BodyContainsBoundary(ErroneousBodyPath::RootComment))
    );
    let mut at3 = HrxArchive::new(3);
    at3.comment = Some("Hello\n<=====>\nworld".to_string());
    assert_eq!(at3.validate_content(), Ok(()));
    let mut at7 = HrxArchive::new(7);
    at7.comment = Some("Hello\n<=====>\nworld".to_string());
    assert_eq!(at7.validate_content(), Ok(()));
}

#[test]
fn set_boundary_length_is_transactional() {
    let mut arch = HrxArchive::new(3);
    arch.entries.push((
        HrxPath::from_str("boundary-5.txt").unwrap(),
        HrxEntry {
            comment: None,
            data: HrxEntryData::File {
                body: Some("this body holds\n<=====>\na five-wide boundary".to_string()),
            },
        },
    ));
    assert_eq!(arch.boundary_length(), 3);
    assert_eq!(
        arch.set_boundary_length(5),
        Err(HrxError::BodyContainsBoundary(ErroneousBodyPath::EntryData(
            "boundary-5.txt".to_string()
        )))
    );
    assert_eq!(arch.boundary_length(), 3);
    match &arch.entries[0].1.data {
        HrxEntryData::File { body } => {
            assert_eq!(
                body.as_deref(),
                Some("this body holds\n<=====>\na five-wide boundary")
            );
        }
        HrxEntryData::Directory => panic!("entry kind changed"),
    }
    assert_eq!(arch.set_boundary_length(4), Ok(()));
    assert_eq!(arch.boundary_length(), 4);
    assert_eq!(arch.set_boundary_length(6), Ok(()));
    assert_eq!(arch.boundary_length(), 6);
}

#[test]
fn entry_comment_stops_the_setter() {
    let mut arch = HrxArchive::new(3);
    arch.entries.push((
        HrxPath::from_str("fine.txt").unwrap(),
        HrxEntry {
            comment: Some("comment with\n<=======>\na seven-wide boundary".to_string()),
            data: HrxEntryData::File { body: None },
        },
    ));
    assert_eq!(
        arch.set_boundary_length(7),
        Err(HrxError::BodyContainsBoundary(
            ErroneousBodyPath::EntryComment("fine.txt".to_string())
        ))
    );
    assert_eq!(arch.boundary_length(), 3);
    assert_eq!(arch.set_boundary_length(8), Ok(()));
}

#[test]
fn boundary_len_wraps_positive_widths() {
    assert_eq!(BoundaryLen::new(1).get(), 1);
    assert_eq!(BoundaryLen::new(17).get(), 17);
}
