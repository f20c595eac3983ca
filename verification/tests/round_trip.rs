//! Parsing, serialization, and the round trips between them.

use hrx::{HrxArchive, HrxEntry, HrxEntryData, HrxPath};
use std::str::FromStr;

#[test]
fn parses_doc_with_two_files() {
    let arch_str = "<===> input.scss\nul {\n  margin-left: 1em;\n  li {\n    list-style-type: none;\n  }\n}\n\n<===> output.css\nul {\n  margin-left: 1em;\n}\nul li {\n  list-style-type: none;\n}";
    let arch = HrxArchive::from_str(arch_str).unwrap();
    assert_eq!(arch.boundary_length(), 3);
    assert_eq!(arch.entries.len(), 2);
    assert_eq!(arch.entries[0].0, HrxPath::from_str("input.scss").unwrap());
    match &arch.entries[0].1.data {
        HrxEntryData::File { body } => assert_eq!(
            body.as_deref(),
            Some("ul {\n  margin-left: 1em;\n  li {\n    list-style-type: none;\n  }\n}\n")
        ),
        HrxEntryData::Directory => panic!("expected a file"),
    }
}

#[test]
fn serialize_after_parse_reproduces_the_text() {
    let arch_str = "<===> input.scss\nul {\n  margin-left: 1em;\n}\n\n<===>\na comment\n<===> output.css\nul li {\n  list-style-type: none;\n}";
    let arch = HrxArchive::from_str(arch_str).unwrap();
    let mut out = String::new();
    arch.serialise(&mut out).unwrap();
    assert_eq!(out, arch_str);
}

#[test]
fn serialize_emits_comments_and_root_comment_last() {
    let mut arch = HrxArchive::new(5);
    arch.comment = Some("the archive comment".to_string());
    arch.entries.push((
        HrxPath::from_str("directory").unwrap(),
        HrxEntry {
            comment: Some("a directory".to_string()),
            data: HrxEntryData::Directory,
        },
    ));
    arch.entries.push((
        HrxPath::from_str("directory/dsc.txt").unwrap(),
        HrxEntry {
            comment: None,
            data: HrxEntryData::File {
                body: Some("contents\n".to_string()),
            },
        },
    ));
    let mut out = String::new();
    arch.serialise(&mut out).unwrap();
    assert_eq!(
        out,
        "<=====>\na directory\n<=====> directory/\n<=====> directory/dsc.txt\ncontents\n\n<=====>\nthe archive comment"
    );
}

#[test]
fn parse_of_serialized_archive_gives_it_back() {
    let mut arch = HrxArchive::new(4);
    arch.comment = Some("root".to_string());
    arch.entries.push((
        HrxPath::from_str("dir").unwrap(),
        HrxEntry {
            comment: Some("dir comment".to_string()),
            data: HrxEntryData::Directory,
        },
    ));
    arch.entries.push((
        HrxPath::from_str("dir/file.txt").unwrap(),
        HrxEntry {
            comment: None,
            data: HrxEntryData::File {
                body: Some("line one\nline two".to_string()),
            },
        },
    ));
    let mut out = String::new();
    arch.serialise(&mut out).unwrap();
    let back = HrxArchive::from_str(&out).unwrap();
    assert_eq!(back, arch);
}

#[test]
fn absent_and_empty_bodies_are_distinct() {
    let arch = HrxArchive::from_str("<===> empty\n\n<===> absent\n<===> last").unwrap();
    match &arch.entries[0].1.data {
        HrxEntryData::File { body } => assert_eq!(body.as_deref(), Some("")),
        HrxEntryData::Directory => panic!("expected a file"),
    }
    match &arch.entries[1].1.data {
        HrxEntryData::File { body } => assert_eq!(body.as_deref(), None),
        HrxEntryData::Directory => panic!("expected a file"),
    }
    match &arch.entries[2].1.data {
        HrxEntryData::File { body } => assert_eq!(body.as_deref(), None),
        HrxEntryData::Directory => panic!("expected a file"),
    }
    let mut out = String::new();
    arch.serialise(&mut out).unwrap();
    assert_eq!(out, "<===> empty\n\n<===> absent\n<===> last");
}

#[test]
fn final_newline_terminated_file_header_has_an_empty_body() {
    let arch = HrxArchive::from_str("<===> f\n").unwrap();
    match &arch.entries[0].1.data {
        HrxEntryData::File { body } => assert_eq!(body.as_deref(), Some("")),
        HrxEntryData::Directory => panic!("expected a file"),
    }
    let mut out = String::new();
    arch.serialise(&mut out).unwrap();
    assert_eq!(out, "<===> f\n");

    let bare = HrxArchive::from_str("<===> f").unwrap();
    match &bare.entries[0].1.data {
        HrxEntryData::File { body } => assert_eq!(body.as_deref(), None),
        HrxEntryData::Directory => panic!("expected a file"),
    }
    let mut out2 = String::new();
    bare.serialise(&mut out2).unwrap();
    assert_eq!(out2, "<===> f");
}

#[test]
fn absent_and_empty_final_bodies_never_collapse() {
    let absent = HrxArchive::from_str("<===> p").unwrap();
    let empty = HrxArchive::from_str("<===> p\n").unwrap();
    assert_ne!(absent, empty);
    let mut out_absent = String::new();
    absent.serialise(&mut out_absent).unwrap();
    let mut out_empty = String::new();
    empty.serialise(&mut out_empty).unwrap();
    assert_ne!(out_absent, out_empty);
    assert_eq!(HrxArchive::from_str(&out_absent).unwrap(), absent);
    assert_eq!(HrxArchive::from_str(&out_empty).unwrap(), empty);
}

#[test]
fn trailing_newline_after_final_directory_header_is_the_one_lost_byte() {
    let arch = HrxArchive::from_str("<===> d/\n").unwrap();
    match &arch.entries[0].1.data {
        HrxEntryData::Directory => {}
        HrxEntryData::File { .. } => panic!("expected a directory"),
    }
    let mut out = String::new();
    arch.serialise(&mut out).unwrap();
    assert_eq!(out, "<===> d/");
}

#[test]
fn comment_block_attaches_to_the_next_entry() {
    let arch = HrxArchive::from_str("<=>\nfor f\n<=> f\nbody\n\n<=>\ntrailing").unwrap();
    assert_eq!(arch.comment.as_deref(), Some("trailing"));
    assert_eq!(arch.entries[0].1.comment.as_deref(), Some("for f"));
    match &arch.entries[0].1.data {
        HrxEntryData::File { body } => assert_eq!(body.as_deref(), Some("body\n")),
        HrxEntryData::Directory => panic!("expected a file"),
    }
}

#[test]
fn root_comment_alone() {
    let arch = HrxArchive::from_str("<===>\nonly a comment").unwrap();
    assert_eq!(arch.comment.as_deref(), Some("only a comment"));
    assert!(arch.entries.is_empty());
    let mut out = String::new();
    arch.serialise(&mut out).unwrap();
    assert_eq!(out, "<===>\nonly a comment");
}

#[test]
fn serialise_refuses_a_boundary_in_a_body_and_writes_nothing() {
    let mut arch = HrxArchive::new(3);
    arch.entries.push((
        HrxPath::from_str("f").unwrap(),
        HrxEntry {
            comment: None,
            data: HrxEntryData::File {
                body: Some("bad\n<===>\nbody".to_string()),
            },
        },
    ));
    let mut out = String::new();
    assert!(arch.serialise(&mut out).is_err());
    assert_eq!(out, "");
}

#[test]
fn wider_markers_inside_bodies_are_kept_as_text() {
    let arch_str = "<===> f\nthis line holds\n<=====>\na wider marker";
    let arch = HrxArchive::from_str(arch_str).unwrap();
    match &arch.entries[0].1.data {
        HrxEntryData::File { body } => {
            assert_eq!(body.as_deref(), Some("this line holds\n<=====>\na wider marker"))
        }
        HrxEntryData::Directory => panic!("expected a file"),
    }
    let mut out = String::new();
    arch.serialise(&mut out).unwrap();
    assert_eq!(out, arch_str);
}
