//! Mathematical model of the archive text format.
//!
//! Everything here is specification-level: ghost mirror types for the archive
//! data model, and spec functions that define substring occurrence, boundary
//! markers, the content-safety check, the serializer's exact output, the
//! boundary-discovery scan, path legality and the block grammar. The
//! executable code in the other modules is verified against these functions.

use vstd::prelude::*;

verus! {

// ---------------------------------------------------------------------------
// Substring occurrence and boundary markers
// ---------------------------------------------------------------------------
/// `p` occurs in `t` starting at index `i`.
pub open spec fn matches_at(t: Seq<char>, p: Seq<char>, i: int) -> bool {
    0 <= i && i + p.len() <= t.len() && t.subrange(i, i + p.len() as int) == p
}

/// `p` occurs somewhere in `t`.
pub open spec fn has_sub(t: Seq<char>, p: Seq<char>) -> bool {
    exists|i: int| matches_at(t, p, i)
}

/// The boundary marker of width `w`: `<`, then `w` equals signs, then `>`.
pub open spec fn marker_seq(w: nat) -> Seq<char> {
    seq!['<'] + Seq::new(w, |i: int| '=') + seq!['>']
}

/// The substring that no comment or body may contain: a newline followed by
/// the boundary marker.
pub open spec fn forbidden_seq(w: nat) -> Seq<char> {
    seq!['\n'] + marker_seq(w)
}

/// A comment or body text is safe at width `w` when the forbidden substring
/// does not occur in it.
pub open spec fn text_ok(t: Seq<char>, w: nat) -> bool {
    !has_sub(t, forbidden_seq(w))
}

pub open spec fn opt_text_ok(o: Option<Seq<char>>, w: nat) -> bool {
    match o {
        Some(t) => text_ok(t, w),
        None => true,
    }
}

/// Character-by-character form of "the marker of width `w` starts at `i`".
pub open spec fn marker_at(t: Seq<char>, w: nat, i: int) -> bool {
    &&& 0 <= i
    &&& i + w + 2 <= t.len()
    &&& t[i] == '<'
    &&& (forall|k: int| 0 <= k < w ==> #[trigger] t[i + 1 + k] == '=')
    &&& t[i + 1 + w] == '>'
}

// ---------------------------------------------------------------------------
// Ghost mirrors of the archive data model
// ---------------------------------------------------------------------------
#[verifier::ext_equal]
pub ghost enum EntryDataModel {
    File { body: Option<Seq<char>> },
    Directory,
}

#[verifier::ext_equal]
pub ghost struct EntryModel {
    pub comment: Option<Seq<char>>,
    pub data: EntryDataModel,
}

#[verifier::ext_equal]
pub ghost struct ArchiveModel {
    pub comment: Option<Seq<char>>,
    pub entries: Seq<(Seq<char>, EntryModel)>,
    pub boundary_length: nat,
}

/// Location of the first content-check failure.
#[verifier::ext_equal]
pub ghost enum BodyTagModel {
    RootComment,
    EntryComment(Seq<char>),
    EntryData(Seq<char>),
}

/// Everything that a parse or a content check can report.
#[verifier::ext_equal]
pub ghost enum ErrorModel {
    NoBoundary,
    Malformed,
    UnexpectedEof,
    EmptyComponent(Seq<char>),
    ForbiddenCharacter(Seq<char>),
    ReservedComponent(Seq<char>),
    Duplicate(Seq<char>, EntryModel, EntryModel),
    FileAsDirectory(Seq<char>, Seq<char>),
    BodyContainsBoundary(BodyTagModel),
}

// ---------------------------------------------------------------------------
// Content-safety check
// ---------------------------------------------------------------------------
/// Checks entries from index `i` on, in order: for each entry first its
/// comment, then (for a file) its body; the first offending text wins.
pub open spec fn check_entries_from(
    entries: Seq<(Seq<char>, EntryModel)>,
    w: nat,
    i: int,
) -> Result<(), BodyTagModel>
    decreases entries.len() - i,
{
    if i < 0 || i >= entries.len() {
        Ok(())
    } else if !opt_text_ok(entries[i].1.comment, w) {
        Err(BodyTagModel::EntryComment(entries[i].0))
    } else if match entries[i].1.data {
        EntryDataModel::File { body } => !opt_text_ok(body, w),
        EntryDataModel::Directory => false,
    } {
        Err(BodyTagModel::EntryData(entries[i].0))
    } else {
        check_entries_from(entries, w, i + 1)
    }
}

/// The whole content check at width `w`: root comment first, then the entries
/// in order.
pub open spec fn check_model(a: ArchiveModel, w: nat) -> Result<(), BodyTagModel> {
    if !opt_text_ok(a.comment, w) {
        Err(BodyTagModel::RootComment)
    } else {
        check_entries_from(a.entries, w, 0)
    }
}

// ---------------------------------------------------------------------------
// Serializer output
// ---------------------------------------------------------------------------
/// The header line of a path-bearing block (without its newline).
pub open spec fn header_seq(p: Seq<char>, d: EntryDataModel, w: nat) -> Seq<char> {
    marker_seq(w) + seq![' '] + p + (match d {
        EntryDataModel::Directory => seq!['/'],
        EntryDataModel::File { .. } => Seq::<char>::empty(),
    })
}

/// Header line plus the body section, when one is present.
pub open spec fn path_part_seq(p: Seq<char>, e: EntryModel, w: nat) -> Seq<char> {
    header_seq(p, e.data, w) + (match e.data {
        EntryDataModel::File { body: Some(b) } => seq!['\n'] + b,
        _ => Seq::<char>::empty(),
    })
}

/// The full text of one entry: an optional comment block, then the
/// path-bearing block.
pub open spec fn unit_seq(p: Seq<char>, e: EntryModel, w: nat) -> Seq<char> {
    (match e.comment {
        Some(c) => marker_seq(w) + seq!['\n'] + c + seq!['\n'],
        None => Seq::<char>::empty(),
    }) + path_part_seq(p, e, w)
}

/// The trailing block that carries the root comment.
pub open spec fn root_unit_seq(c: Seq<char>, w: nat) -> Seq<char> {
    marker_seq(w) + seq!['\n'] + c
}

/// All blocks of an archive, in output order: the entries, then the root
/// comment last.
pub open spec fn units_of(
    entries: Seq<(Seq<char>, EntryModel)>,
    root: Option<Seq<char>>,
    w: nat,
) -> Seq<Seq<char>> {
    entries.map(|i: int, pe: (Seq<char>, EntryModel)| unit_seq(pe.0, pe.1, w)) + (match root {
        Some(c) => seq![root_unit_seq(c, w)],
        None => Seq::<Seq<char>>::empty(),
    })
}

/// Joins block texts with a single newline between consecutive blocks.
pub open spec fn join_units(us: Seq<Seq<char>>) -> Seq<char>
    decreases us.len(),
{
    if us.len() == 0 {
        Seq::empty()
    } else if us.len() == 1 {
        us[0]
    } else {
        us[0] + seq!['\n'] + join_units(us.drop_first())
    }
}

/// The exact text the serializer emits for an archive.
pub open spec fn serialize_model(a: ArchiveModel) -> Seq<char> {
    join_units(units_of(a.entries, a.comment, a.boundary_length))
}

// ---------------------------------------------------------------------------
// Boundary discovery
// ---------------------------------------------------------------------------
/// Length of the run of `=` characters starting at `i`.
pub open spec fn eq_run(t: Seq<char>, i: int) -> nat
    decreases t.len() - i,
{
    if 0 <= i < t.len() && t[i] == '=' {
        1 + eq_run(t, i + 1)
    } else {
        0
    }
}

/// Width of the `<`-equals-`>` pattern starting at `i`, if one starts there.
pub open spec fn pattern_width_at(t: Seq<char>, i: int) -> Option<nat> {
    if 0 <= i < t.len() && t[i] == '<' {
        let k = eq_run(t, i + 1);
        if k >= 1 && i + 1 + k < t.len() && t[i + 1 + k as int] == '>' {
            Some(k)
        } else {
            None
        }
    } else {
        None
    }
}

pub open spec fn line_start(t: Seq<char>, i: int) -> bool {
    i == 0 || t[i - 1] == '\n'
}

/// The width of the first boundary marker at the start of a line, scanning
/// from position `i`.
pub open spec fn discover_from(t: Seq<char>, i: int) -> Option<nat>
    decreases t.len() - i,
{
    if i < 0 || i >= t.len() {
        None
    } else if line_start(t, i) && pattern_width_at(t, i) is Some {
        pattern_width_at(t, i)
    } else {
        discover_from(t, i + 1)
    }
}

pub open spec fn discover_model(t: Seq<char>) -> Option<nat> {
    discover_from(t, 0)
}

// ---------------------------------------------------------------------------
// Path legality
// ---------------------------------------------------------------------------
/// A character that may not appear in a path component: controls at or below
/// U+001F, backslash and colon. The slash is the separator itself.
pub open spec fn forbidden_path_char(c: char) -> bool {
    (c as u32) <= 0x1F || c == '\\' || c == ':'
}

/// Index of the `/` that ends the component starting at `i`, or the end of
/// the text.
pub open spec fn comp_end(t: Seq<char>, i: int) -> int
    decreases t.len() - i,
{
    if i >= t.len() {
        t.len() as int
    } else if t[i] == '/' {
        i
    } else {
        comp_end(t, i + 1)
    }
}

pub ghost enum PathErrKind {
    Empty,
    Forbidden,
    Reserved,
}

/// What is wrong with the component `t[i..k]`, if anything: emptiness first,
/// then a forbidden character, then the reserved names `.` and `..`.
pub open spec fn component_err(t: Seq<char>, i: int, k: int) -> Option<PathErrKind> {
    if k <= i {
        Some(PathErrKind::Empty)
    } else if exists|j: int| i <= j < k && forbidden_path_char(t[j]) {
        Some(PathErrKind::Forbidden)
    } else if (k - i == 1 && t[i] == '.') || (k - i == 2 && t[i] == '.' && t[i + 1] == '.') {
        Some(PathErrKind::Reserved)
    } else {
        None
    }
}

/// First failure among the components from position `i` on, left to right.
pub open spec fn path_err_from(t: Seq<char>, i: int) -> Option<PathErrKind>
    decreases t.len() - i,
{
    let k = comp_end(t, i);
    match component_err(t, i, k) {
        Some(e) => Some(e),
        None => if k >= t.len() {
            None
        } else {
            path_err_from(t, k + 1)
        },
    }
}

pub open spec fn path_error_model(k: PathErrKind, raw: Seq<char>) -> ErrorModel {
    match k {
        PathErrKind::Empty => ErrorModel::EmptyComponent(raw),
        PathErrKind::Forbidden => ErrorModel::ForbiddenCharacter(raw),
        PathErrKind::Reserved => ErrorModel::ReservedComponent(raw),
    }
}

pub open spec fn valid_path(t: Seq<char>) -> bool {
    path_err_from(t, 0) is None
}

// ---------------------------------------------------------------------------
// The block grammar
// ---------------------------------------------------------------------------
/// Index of the newline ending the line that starts at `i`, or the end of the
/// text.
pub open spec fn line_end(t: Seq<char>, i: int) -> int
    decreases t.len() - i,
{
    if i >= t.len() {
        t.len() as int
    } else if t[i] == '\n' {
        i
    } else {
        line_end(t, i + 1)
    }
}

/// End of the comment or body section that starts at `i`: the first position
/// holding a newline immediately followed by a marker line, or the end of the
/// text.
pub open spec fn section_end(t: Seq<char>, w: nat, i: int) -> int
    decreases t.len() - i,
{
    if i >= t.len() {
        t.len() as int
    } else if t[i] == '\n' && marker_at(t, w, i + 1) {
        i
    } else {
        section_end(t, w, i + 1)
    }
}

/// First entry whose path equals `p`, scanning from index `i`.
pub open spec fn find_key_from(
    entries: Seq<(Seq<char>, EntryModel)>,
    p: Seq<char>,
    i: int,
) -> Option<int>
    decreases entries.len() - i,
{
    if i < 0 || i >= entries.len() {
        None
    } else if entries[i].0 == p {
        Some(i)
    } else {
        find_key_from(entries, p, i + 1)
    }
}

/// `anc` names a strict ancestor of `p`: a proper prefix ending at a slash.
pub open spec fn strict_ancestor(anc: Seq<char>, p: Seq<char>) -> bool {
    anc.len() < p.len() && p.subrange(0, anc.len() as int) == anc && p[anc.len() as int] == '/'
}

/// First entry that is a file and a strict ancestor of `p`, scanning from
/// index `i`.
pub open spec fn find_file_ancestor_from(
    entries: Seq<(Seq<char>, EntryModel)>,
    p: Seq<char>,
    i: int,
) -> Option<int>
    decreases entries.len() - i,
{
    if i < 0 || i >= entries.len() {
        None
    } else if strict_ancestor(entries[i].0, p) && (entries[i].1.data matches EntryDataModel::File {
        ..
    }) {
        Some(i)
    } else {
        find_file_ancestor_from(entries, p, i + 1)
    }
}

/// Parses the path-bearing block whose marker starts at `pos`; requires
/// that the marker is followed by a space. Yields the grown entry sequence
/// and the position of the next block (or the end of the text).
///
/// The body section, when the header line is newline-terminated, runs from
/// just after that newline to the newline immediately preceding the next
/// marker line, or to the end of the text. There is no body section when the
/// header ends the text without its newline or when a marker line follows
/// directly; a file header whose newline ends the text has a body section
/// that is present but empty, which is kept distinct from an absent one. A
/// trailing slash marks a directory, which never has a body section.
pub open spec fn parse_path_block_model(
    t: Seq<char>,
    w: nat,
    pos: int,
    comment: Option<Seq<char>>,
    entries: Seq<(Seq<char>, EntryModel)>,
) -> Result<(Seq<(Seq<char>, EntryModel)>, int), ErrorModel> {
    let after = pos + w + 2;
    let l = line_end(t, after + 1);
    let rawline = t.subrange(after + 1, l);
    let dir = rawline.len() > 0 && rawline[rawline.len() - 1] == '/';
    let rawpath = if dir {
        rawline.drop_last()
    } else {
        rawline
    };
    match path_err_from(rawpath, 0) {
        Some(k) => Err(path_error_model(k, rawpath)),
        None => {
            let start = l + 1;
            let (body, nextpos): (Option<Seq<char>>, int) = if l >= t.len() {
                (None, t.len() as int)
            } else if start >= t.len() {
                (if dir {
                    None
                } else {
                    Some(Seq::<char>::empty())
                }, t.len() as int)
            } else if marker_at(t, w, start) {
                (None, start)
            } else {
                let j = section_end(t, w, start);
                (Some(t.subrange(start, j)), if j >= t.len() {
                    t.len() as int
                } else {
                    j + 1
                })
            };
            if dir && body is Some {
                Err(ErrorModel::Malformed)
            } else {
                let entry = EntryModel {
                    comment,
                    data: if dir {
                        EntryDataModel::Directory
                    } else {
                        EntryDataModel::File { body }
                    },
                };
                match find_key_from(entries, rawpath, 0) {
                    Some(i) => Err(ErrorModel::Duplicate(rawpath, entries[i].1, entry)),
                    None => match find_file_ancestor_from(entries, rawpath, 0) {
                        Some(i) => Err(ErrorModel::FileAsDirectory(entries[i].0, rawpath)),
                        None => Ok((entries.push((rawpath, entry)), nextpos)),
                    },
                }
            }
        },
    }
}

/// Parses the blocks from position `pos` to the end of the text, on top of
/// the entries gathered so far. `pos` is the start of a block, or the end of
/// the text.
///
/// A comment block attaches its text to the path-bearing block that follows
/// it; a comment block that ends the text carries the root comment. Two
/// comment blocks in a row, a comment block with no text section, and a bare
/// marker that ends the text are grammar errors.
pub open spec fn parse_rest_model(
    t: Seq<char>,
    w: nat,
    pos: int,
    entries: Seq<(Seq<char>, EntryModel)>,
) -> Result<(Seq<(Seq<char>, EntryModel)>, Option<Seq<char>>), ErrorModel>
    decreases t.len() - pos,
    via parse_rest_model_dec
{
    if pos >= t.len() {
        Ok((entries, None))
    } else if !marker_at(t, w, pos) {
        Err(ErrorModel::Malformed)
    } else {
        let after = pos + w + 2;
        if after >= t.len() {
            Err(ErrorModel::UnexpectedEof)
        } else if t[after] == ' ' {
            match parse_path_block_model(t, w, pos, None, entries) {
                Err(e) => Err(e),
                Ok((ents2, np)) => parse_rest_model(t, w, np, ents2),
            }
        } else if t[after] == '\n' {
            let start = after + 1;
            if start >= t.len() {
                Ok((entries, Some(Seq::empty())))
            } else if marker_at(t, w, start) {
                Err(ErrorModel::Malformed)
            } else {
                let j = section_end(t, w, start);
                let c = t.subrange(start, j);
                if j >= t.len() {
                    Ok((entries, Some(c)))
                } else {
                    let pos2 = j + 1;
                    let after2 = pos2 + w + 2;
                    if after2 >= t.len() {
                        Err(ErrorModel::UnexpectedEof)
                    } else if t[after2] == ' ' {
                        match parse_path_block_model(t, w, pos2, Some(c), entries) {
                            Err(e) => Err(e),
                            Ok((ents2, np)) => parse_rest_model(t, w, np, ents2),
                        }
                    } else {
                        Err(ErrorModel::Malformed)
                    }
                }
            }
        } else {
            Err(ErrorModel::Malformed)
        }
    }
}

/// The whole parse of a text at width `w`.
pub open spec fn parse_model(t: Seq<char>, w: nat) -> Result<ArchiveModel, ErrorModel> {
    match parse_rest_model(t, w, 0, Seq::empty()) {
        Err(e) => Err(e),
        Ok((entries, root)) => Ok(
            ArchiveModel { comment: root, entries, boundary_length: w },
        ),
    }
}

// ---------------------------------------------------------------------------
// Bounds lemmas for the scanning functions
// ---------------------------------------------------------------------------
pub proof fn lemma_line_end_bounds(t: Seq<char>, i: int)
    requires
        0 <= i <= t.len(),
    ensures
        i <= line_end(t, i) <= t.len(),
    decreases t.len() - i,
{
    if i < t.len() && t[i] != '\n' {
        lemma_line_end_bounds(t, i + 1);
    }
}

pub proof fn lemma_section_end_bounds(t: Seq<char>, w: nat, i: int)
    requires
        0 <= i <= t.len(),
    ensures
        i <= section_end(t, w, i) <= t.len(),
    decreases t.len() - i,
{
    if i < t.len() && !(t[i] == '\n' && marker_at(t, w, i + 1)) {
        lemma_section_end_bounds(t, w, i + 1);
    }
}

/// A successful path-bearing block strictly advances the position.
pub proof fn lemma_path_block_advances(
    t: Seq<char>,
    w: nat,
    pos: int,
    comment: Option<Seq<char>>,
    entries: Seq<(Seq<char>, EntryModel)>,
)
    requires
        0 <= pos,
        pos + w + 2 < t.len(),
    ensures
        parse_path_block_model(t, w, pos, comment, entries) matches Ok((_, np)) ==> pos < np
            <= t.len(),
{
    let after = pos + w + 2;
    lemma_line_end_bounds(t, after + 1);
    let l = line_end(t, after + 1);
    if l + 1 <= t.len() {
        lemma_section_end_bounds(t, w, l + 1);
    }
}

/// Appending one more block to a join: a separating newline is needed
/// exactly when there already is a block.
pub proof fn lemma_join_push(us: Seq<Seq<char>>, u: Seq<char>)
    ensures
        join_units(us.push(u)) == if us.len() == 0 {
            u
        } else {
            join_units(us) + seq!['\n'] + u
        },
    decreases us.len(),
{
    if us.len() == 0 {
        assert(us.push(u)[0] == u);
    } else if us.len() == 1 {
        assert(us.push(u).drop_first() =~= seq![u]);
        assert(us.push(u)[0] == us[0]);
        assert(join_units(seq![u]) == u);
    } else {
        assert(us.push(u).drop_first() =~= us.drop_first().push(u));
        lemma_join_push(us.drop_first(), u);
        assert(us.push(u)[0] == us[0]);
        assert((us[0] + seq!['\n'] + (join_units(us.drop_first()) + seq!['\n'] + u)) =~= ((us[0]
            + seq!['\n'] + join_units(us.drop_first())) + seq!['\n'] + u));
    }
}

#[via_fn]
proof fn parse_rest_model_dec(
    t: Seq<char>,
    w: nat,
    pos: int,
    entries: Seq<(Seq<char>, EntryModel)>,
) {
    if pos < t.len() && marker_at(t, w, pos) {
        let after = pos + w + 2;
        if after < t.len() {
            if t[after] == ' ' {
                lemma_path_block_advances(t, w, pos, None, entries);
            } else if t[after] == '\n' {
                let start = after + 1;
                if start < t.len() && !marker_at(t, w, start) {
                    lemma_section_end_bounds(t, w, start);
                    let j = section_end(t, w, start);
                    if j < t.len() {
                        let pos2 = j + 1;
                        if pos2 + w + 2 < t.len() && t[pos2 + w + 2] == ' ' {
                            lemma_path_block_advances(t, w, pos2, Some(t.subrange(start, j)), entries);
                        }
                    }
                }
            }
        }
    }
}

} // verus!
