//! The in-memory representation: archive, entries, entry data and validated
//! paths, with content validation and the boundary-length setter.

use vstd::prelude::*;

use crate::error::{ErroneousBodyPath, HrxError};
use crate::model::{
    check_entries_from, check_model, forbidden_seq, has_sub, marker_seq, opt_text_ok,
    ArchiveModel, BodyTagModel, EntryDataModel, EntryModel, ErrorModel,
};

verus! {

/// View of an optional owned text as an optional character sequence.
pub open spec fn opt_string_view(o: Option<String>) -> Option<Seq<char>> {
    match o {
        Some(s) => Some(s@),
        None => None,
    }
}

/// A path to an entry: `/`-separated components, each non-empty, free of
/// control characters, backslashes and colons, and neither `.` nor `..`.
/// The only way to obtain one is through validation.
#[derive(Debug, Clone, Hash, PartialEq, Eq, PartialOrd, Ord)]
pub struct HrxPath(pub(crate) String);

impl View for HrxPath {
    type V = Seq<char>;

    closed spec fn view(&self) -> Seq<char> {
        self.0@
    }
}

impl HrxPath {
    /// Unwraps the contained path.
    pub fn into_inner(self) -> (r: String)
        ensures
            r@ == self@,
    {
        self.0
    }
}

/// Wraps an already validated raw path.
pub(crate) fn path_from_string(s: String) -> (r: HrxPath)
    ensures
        r@ == s@,
{
    HrxPath(s)
}

/// The raw text of the path.
pub(crate) fn path_string(p: &HrxPath) -> (r: &String)
    ensures
        r@ == p@,
{
    &p.0
}

/// The data of a single entry: a file with an optional body, or a bodyless
/// directory. An absent body and a present-but-empty body are distinct.
#[derive(Debug, Clone, Hash, PartialEq, Eq, PartialOrd, Ord)]
pub enum HrxEntryData {
    File { body: Option<String> },
    Directory,
}

impl View for HrxEntryData {
    type V = EntryDataModel;

    open spec fn view(&self) -> EntryDataModel {
        match self {
            HrxEntryData::File { body } => EntryDataModel::File {
                body: opt_string_view(*body),
            },
            HrxEntryData::Directory => EntryDataModel::Directory,
        }
    }
}

/// A single entry: an optional comment and the entry data.
#[derive(Debug, Clone, Hash, PartialEq, Eq, PartialOrd, Ord)]
pub struct HrxEntry {
    /// Optional metadata; must not contain a newline followed by the
    /// boundary marker.
    pub comment: Option<String>,
    /// The specific entry data.
    pub data: HrxEntryData,
}

impl View for HrxEntry {
    type V = EntryModel;

    open spec fn view(&self) -> EntryModel {
        EntryModel { comment: opt_string_view(self.comment), data: self.data@ }
    }
}

/// View of an entry sequence as a sequence of path/entry models.
pub open spec fn entries_view(s: Seq<(HrxPath, HrxEntry)>) -> Seq<(Seq<char>, EntryModel)> {
    s.map(|i: int, pe: (HrxPath, HrxEntry)| (pe.0@, pe.1@))
}

/// A positive boundary width: the number of `=` characters in the boundary
/// marker. Being a refined type, it rules out a zero width at construction
/// time.
#[derive(Debug, Clone, Copy, Hash, PartialEq, Eq, PartialOrd, Ord)]
pub struct BoundaryLen(usize);

impl BoundaryLen {
    #[verifier::type_invariant]
    spec fn positive(self) -> bool {
        self.0 >= 1
    }

    /// The width as a spec value.
    pub closed spec fn spec_get(&self) -> usize {
        self.0
    }

    /// Wraps a positive width.
    pub fn new(v: usize) -> (r: BoundaryLen)
        requires
            v >= 1,
        ensures
            r.spec_get() == v,
    {
        BoundaryLen(v)
    }

    /// The width as a number.
    pub fn get(&self) -> (r: usize)
        ensures
            r == self.spec_get(),
            r >= 1,
    {
        proof {
            use_type_invariant(self);
        }
        self.0
    }
}

/// A human-readable archive: an optional trailing comment and the entries in
/// insertion order with unique paths, separated in text form by a boundary
/// of a fixed per-archive width.
///
/// The entries can be edited at will, so the absence of the boundary from
/// comments and bodies is checked on demand: when the boundary length is
/// changed and when the archive is serialized.
#[derive(Debug, Clone, Hash, PartialEq, Eq, PartialOrd, Ord)]
pub struct HrxArchive {
    /// Optional archive-level metadata; must not contain a newline followed
    /// by the boundary marker.
    pub comment: Option<String>,
    /// The archive entries with their paths, in insertion order.
    pub entries: Vec<(HrxPath, HrxEntry)>,
    /// The boundary width, positive by construction.
    pub boundary_length: BoundaryLen,
}

impl View for HrxArchive {
    type V = ArchiveModel;

    open spec fn view(&self) -> ArchiveModel {
        ArchiveModel {
            comment: opt_string_view(self.comment),
            entries: entries_view(self.entries@),
            boundary_length: self.boundary_length.spec_get() as nat,
        }
    }
}

/// Relies on jetscii::Substring::new and Substring::find: `find` returns the
/// byte index of the first occurrence of `needle` in `haystack`, or `None`
/// when `needle` occurs nowhere in it. Since both texts are valid UTF-8, a
/// byte-level occurrence exists exactly when a character-level one does.
#[verifier::external_body]
fn contains_substring(haystack: &str, needle: &str) -> (r: bool)
    requires
        needle@.len() > 0,
    ensures
        r == has_sub(haystack@, needle@),
{
    jetscii::Substring::new(needle).find(haystack).is_some()
}

/// Builds the boundary marker of the given width as text.
pub(crate) fn boundary_string(len: usize) -> (r: String)
    ensures
        r@ == marker_seq(len as nat),
{
    let mut r = String::new();
    r.append("<");
    proof {
        reveal_strlit("<");
        assert(r@ =~= seq!['<'] + Seq::new(0nat, |k: int| '='));
    }
    let mut i: usize = 0;
    while i < len
        invariant
            i <= len,
            r@ =~= seq!['<'] + Seq::new(i as nat, |k: int| '='),
        decreases len - i,
    {
        r.append("=");
        i += 1;
        proof {
            reveal_strlit("=");
            assert(r@ =~= seq!['<'] + Seq::new(i as nat, |k: int| '='));
        }
    }
    r.append(">");
    proof {
        reveal_strlit(">");
        assert(r@ =~= marker_seq(len as nat));
    }
    r
}

/// Builds the forbidden substring: a newline followed by the boundary marker
/// of the given width.
fn forbidden_string(len: usize) -> (r: String)
    ensures
        r@ == forbidden_seq(len as nat),
        r@.len() > 0,
{
    let mut r = boundary_string(len);
    let mut out = String::new();
    out.append("\n");
    out.append(r.as_str());
    proof {
        reveal_strlit("\n");
        assert(out@ =~= forbidden_seq(len as nat));
    }
    out
}

/// Passes when the optional text is free of the forbidden substring `bound`.
fn verify_opt(which: &Option<String>, bound: &str) -> (r: bool)
    requires
        bound@.len() > 0,
    ensures
        r == (match *which {
            Some(s) => !has_sub(s@, bound@),
            None => true,
        }),
{
    match which {
        Some(dt) => !contains_substring(dt.as_str(), bound),
        None => true,
    }
}

impl HrxArchive {
    /// Creates an empty archive with the given boundary length.
    pub fn new(boundary_length: usize) -> (r: HrxArchive)
        requires
            boundary_length >= 1,
        ensures
            r@ == (ArchiveModel {
                comment: None,
                entries: Seq::empty(),
                boundary_length: boundary_length as nat,
            }),
    {
        let r = HrxArchive {
            comment: None,
            entries: Vec::new(),
            boundary_length: BoundaryLen::new(boundary_length),
        };
        proof {
            assert(entries_view(r.entries@) =~= Seq::<(Seq<char>, EntryModel)>::empty());
            assert(r@ =~~= (ArchiveModel {
                comment: None,
                entries: Seq::empty(),
                boundary_length: boundary_length as nat,
            }));
        }
        r
    }

    /// The current boundary length: the number of `=` characters in the
    /// boundary marker.
    pub fn boundary_length(&self) -> (r: usize)
        ensures
            r as nat == self@.boundary_length,
            r >= 1,
    {
        self.boundary_length.get()
    }

    /// Checks that no comment or body contains the forbidden substring at
    /// width `len`: the root comment first, then for each entry in order its
    /// comment and, for files, its body; reports the first offender.
    pub(crate) fn validate_boundlen(&self, len: usize) -> (r: Result<(), HrxError>)
        requires
            len >= 1,
        ensures
            match r {
                Ok(()) => check_model(self@, len as nat) == Ok::<(), BodyTagModel>(()),
                Err(e) => {
                    &&& check_model(self@, len as nat) matches Err(tag) && e@
                        == ErrorModel::BodyContainsBoundary(tag)
                },
            },
    {
        let bound = forbidden_string(len);
        let ghost w = len as nat;
        let ghost ev = entries_view(self.entries@);
        if !verify_opt(&self.comment, bound.as_str()) {
            return Err(HrxError::BodyContainsBoundary(ErroneousBodyPath::RootComment));
        }
        let mut i: usize = 0;
        while i < self.entries.len()
            invariant
                i <= self.entries.len(),
                ev == entries_view(self.entries@),
                ev.len() == self.entries@.len(),
                len >= 1,
                bound@ == forbidden_seq(w),
                w == len as nat,
                opt_text_ok(opt_string_view(self.comment), w),
                check_entries_from(ev, w, 0) == check_entries_from(ev, w, i as int),
            decreases self.entries.len() - i,
        {
            let pe = &self.entries[i];
            proof {
                assert(ev[i as int] == (pe.0@, pe.1@));
            }
            if !verify_opt(&pe.1.comment, bound.as_str()) {
                return Err(
                    HrxError::BodyContainsBoundary(
                        ErroneousBodyPath::EntryComment(pe.0.0.clone()),
                    ),
                );
            }
            match &pe.1.data {
                HrxEntryData::File { body } => {
                    if !verify_opt(body, bound.as_str()) {
                        return Err(
                            HrxError::BodyContainsBoundary(
                                ErroneousBodyPath::EntryData(pe.0.0.clone()),
                            ),
                        );
                    }
                },
                HrxEntryData::Directory => {},
            }
            proof {
                assert(check_entries_from(ev, w, i as int) == check_entries_from(
                    ev,
                    w,
                    i as int + 1,
                ));
            }
            i += 1;
        }
        Ok(())
    }

    /// Checks that no comment or body contains a newline followed by the
    /// current boundary marker, reporting the path of the first one that
    /// does.
    pub fn validate_content(&self) -> (r: Result<(), HrxError>)
        ensures
            match r {
                Ok(()) => check_model(self@, self@.boundary_length) == Ok::<(), BodyTagModel>(()),
                Err(e) => {
                    &&& check_model(self@, self@.boundary_length) matches Err(tag) && e@
                        == ErrorModel::BodyContainsBoundary(tag)
                },
            },
    {
        self.validate_boundlen(self.boundary_length.get())
    }

    /// Sets a new boundary length if no comment or body contains the new
    /// boundary; on failure the archive is left unchanged and the path of
    /// the first offending text is reported.
    pub fn set_boundary_length(&mut self, new_len: usize) -> (r: Result<(), HrxError>)
        requires
            new_len >= 1,
        ensures
            match r {
                Ok(()) => {
                    &&& check_model(old(self)@, new_len as nat) == Ok::<(), BodyTagModel>(())
                    &&& final(self)@ == (ArchiveModel {
                        boundary_length: new_len as nat,
                        ..old(self)@
                    })
                },
                Err(e) => {
                    &&& *final(self) == *old(self)
                    &&& check_model(old(self)@, new_len as nat) matches Err(tag) && e@
                        == ErrorModel::BodyContainsBoundary(tag)
                },
            },
    {
        match self.validate_boundlen(new_len) {
            Ok(()) => {
                self.boundary_length = BoundaryLen::new(new_len);
                proof {
                    assert(self@ =~~= (ArchiveModel {
                        boundary_length: new_len as nat,
                        ..old(self)@
                    }));
                }
                Ok(())
            },
            Err(e) => Err(e),
        }
    }
}

/// Copies an entry, field by field.
pub(crate) fn clone_entry(e: &HrxEntry) -> (r: HrxEntry)
    ensures
        r == *e,
{
    let comment = match &e.comment {
        Some(c) => Some(c.clone()),
        None => None,
    };
    let data = match &e.data {
        HrxEntryData::File { body } => HrxEntryData::File {
            body: match body {
                Some(b) => Some(b.clone()),
                None => None,
            },
        },
        HrxEntryData::Directory => HrxEntryData::Directory,
    };
    HrxEntry { comment, data }
}

} // verus!
