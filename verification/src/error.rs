//! The error taxonomy shared by parsing, path validation, content validation
//! and serialization.

use vstd::prelude::*;

use crate::model::{BodyTagModel, ErrorModel};
use crate::repr::HrxEntry;

verus! {

/// Location of the first comment or body that contains a newline followed by
/// the boundary marker.
#[derive(Debug, Clone, Hash, PartialEq, Eq, PartialOrd, Ord)]
pub enum ErroneousBodyPath {
    /// The archive's own trailing comment.
    RootComment,
    /// The comment of the entry at the given path.
    EntryComment(String),
    /// The body of the file entry at the given path.
    EntryData(String),
}

impl View for ErroneousBodyPath {
    type V = BodyTagModel;

    open spec fn view(&self) -> BodyTagModel {
        match self {
            ErroneousBodyPath::RootComment => BodyTagModel::RootComment,
            ErroneousBodyPath::EntryComment(p) => BodyTagModel::EntryComment(p@),
            ErroneousBodyPath::EntryData(p) => BodyTagModel::EntryData(p@),
        }
    }
}

/// Everything that can go wrong while reading, validating or writing an
/// archive.
#[derive(Debug, Clone, Hash, PartialEq, Eq, PartialOrd, Ord)]
pub enum HrxError {
    /// No boundary marker occurs anywhere in the input.
    NoBoundary,
    /// A malformed header line, a misplaced comment block, or a body section
    /// after a directory path.
    Malformed,
    /// The input ends in the middle of a block header.
    UnexpectedEof,
    /// A path with an empty component, carrying the offending raw path.
    EmptyComponent(String),
    /// A path component holding a control character, a backslash or a colon,
    /// carrying the offending raw path.
    ForbiddenCharacter(String),
    /// A path component that is `.` or `..`, carrying the offending raw path.
    ReservedComponent(String),
    /// The same path appears twice; both conflicting entries are retained.
    DuplicateEntry(String, HrxEntry, HrxEntry),
    /// A new entry lies under a path that an earlier file entry already
    /// claims: the ancestor path first, the new path second.
    FileAsDirectory(String, String),
    /// A comment or body contains a newline followed by the boundary marker.
    BodyContainsBoundary(ErroneousBodyPath),
}

impl View for HrxError {
    type V = ErrorModel;

    open spec fn view(&self) -> ErrorModel {
        match self {
            HrxError::NoBoundary => ErrorModel::NoBoundary,
            HrxError::Malformed => ErrorModel::Malformed,
            HrxError::UnexpectedEof => ErrorModel::UnexpectedEof,
            HrxError::EmptyComponent(p) => ErrorModel::EmptyComponent(p@),
            HrxError::ForbiddenCharacter(p) => ErrorModel::ForbiddenCharacter(p@),
            HrxError::ReservedComponent(p) => ErrorModel::ReservedComponent(p@),
            HrxError::DuplicateEntry(p, a, b) => ErrorModel::Duplicate(p@, a@, b@),
            HrxError::FileAsDirectory(a, p) => ErrorModel::FileAsDirectory(a@, p@),
            HrxError::BodyContainsBoundary(t) => ErrorModel::BodyContainsBoundary(t@),
        }
    }
}

} // verus!
