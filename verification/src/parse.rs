//! The executable parser: boundary discovery, path validation and the block
//! grammar, each verified against the spec functions of the model module.

use vstd::prelude::*;
use vstd::string::StrSliceExecFns;

use crate::error::HrxError;
use crate::model::{
    comp_end, discover_from, discover_model, eq_run, find_file_ancestor_from, find_key_from,
    line_end, line_start, marker_at, parse_model, parse_path_block_model, parse_rest_model,
    path_err_from, path_error_model, pattern_width_at, section_end, strict_ancestor,
    ArchiveModel, EntryModel, ErrorModel, PathErrKind,
};
use crate::repr::{
    clone_entry, entries_view, opt_string_view, path_from_string, path_string, BoundaryLen,
    HrxArchive, HrxEntry, HrxEntryData, HrxPath,
};

verus! {

// ---------------------------------------------------------------------------
// Character scanners
// ---------------------------------------------------------------------------
/// Whether the boundary marker of width `w` starts at `i`.
fn is_marker_at(s: &str, n: usize, w: usize, i: usize) -> (r: bool)
    requires
        n == s@.len(),
    ensures
        r == marker_at(s@, w as nat, i as int),
{
    if !(i <= n && n - i >= 2 && n - i - 2 >= w) {
        return false;
    }
    if s.get_char(i) != '<' {
        return false;
    }
    let mut k: usize = 0;
    while k < w
        invariant
            k <= w,
            n == s@.len(),
            i + w + 2 <= n,
            forall|m: int| 0 <= m < k ==> #[trigger] s@[i + 1 + m] == '=',
        decreases w - k,
    {
        if s.get_char(i + 1 + k) != '=' {
            return false;
        }
        k += 1;
    }
    s.get_char(i + 1 + w) == '>'
}

/// Index of the newline that ends the line starting at `i`, or the end of
/// the text.
fn line_end_x(s: &str, n: usize, i: usize) -> (r: usize)
    requires
        n == s@.len(),
        i <= n,
    ensures
        r == line_end(s@, i as int),
        i <= r <= n,
{
    let mut j = i;
    while j < n
        invariant
            i <= j <= n,
            n == s@.len(),
            line_end(s@, i as int) == line_end(s@, j as int),
        decreases n - j,
    {
        if s.get_char(j) == '\n' {
            proof {
                assert(line_end(s@, j as int) == j);
            }
            return j;
        }
        proof {
            assert(line_end(s@, j as int) == line_end(s@, j + 1));
        }
        j += 1;
    }
    proof {
        assert(line_end(s@, j as int) == n);
    }
    n
}

/// End of the comment or body section starting at `i`; when it is not the
/// end of the text, it holds a newline immediately followed by a marker.
fn section_end_x(s: &str, n: usize, w: usize, i: usize) -> (r: usize)
    requires
        n == s@.len(),
        i <= n,
    ensures
        r == section_end(s@, w as nat, i as int),
        i <= r <= n,
        r < n ==> s@[r as int] == '\n' && marker_at(s@, w as nat, r + 1),
{
    let mut j = i;
    while j < n
        invariant
            i <= j <= n,
            n == s@.len(),
            section_end(s@, w as nat, i as int) == section_end(s@, w as nat, j as int),
        decreases n - j,
    {
        if s.get_char(j) == '\n' && is_marker_at(s, n, w, j + 1) {
            proof {
                assert(section_end(s@, w as nat, j as int) == j);
            }
            return j;
        }
        proof {
            assert(section_end(s@, w as nat, j as int) == section_end(s@, w as nat, j + 1));
        }
        j += 1;
    }
    proof {
        assert(section_end(s@, w as nat, j as int) == n);
    }
    n
}

// ---------------------------------------------------------------------------
// Boundary discovery
// ---------------------------------------------------------------------------
/// Scans for the first boundary marker that starts the text or follows a
/// newline, and reports the number of `=` characters in it.
pub fn discover_first_boundary_length(s: &str) -> (r: Option<usize>)
    ensures
        match r {
            Some(w) => discover_model(s@) == Some(w as nat) && 1 <= w && w + 2 <= s@.len(),
            None => discover_model(s@) is None,
        },
{
    let n = s.unicode_len();
    let mut i: usize = 0;
    while i < n
        invariant
            i <= n,
            n == s@.len(),
            discover_from(s@, 0) == discover_from(s@, i as int),
        decreases n - i,
    {
        let at_line_start = i == 0 || s.get_char(i - 1) == '\n';
        if at_line_start && s.get_char(i) == '<' {
            let mut k: usize = 0;
            while i + 1 + k < n && s.get_char(i + 1 + k) == '='
                invariant
                    i < n,
                    n == s@.len(),
                    i + 1 + k <= n,
                    eq_run(s@, i + 1) == k + eq_run(s@, i + 1 + k),
                decreases n - (i + 1 + k),
            {
                proof {
                    assert(eq_run(s@, i + 1 + k) == 1 + eq_run(s@, i + 1 + k + 1));
                }
                k += 1;
            }
            proof {
                assert(eq_run(s@, i + 1 + k) == 0);
                assert(eq_run(s@, i + 1) == k as nat);
            }
            if k >= 1 && i + 1 + k < n && s.get_char(i + 1 + k) == '>' {
                proof {
                    assert(pattern_width_at(s@, i as int) == Some(k as nat));
                    assert(discover_from(s@, i as int) == Some(k as nat));
                }
                return Some(k);
            }
            proof {
                assert(pattern_width_at(s@, i as int) is None);
                assert(discover_from(s@, i as int) == discover_from(s@, i + 1));
            }
        } else {
            proof {
                assert(!(line_start(s@, i as int) && pattern_width_at(s@, i as int) is Some));
                assert(discover_from(s@, i as int) == discover_from(s@, i + 1));
            }
        }
        i += 1;
    }
    proof {
        assert(discover_from(s@, i as int) is None);
    }
    None
}

// ---------------------------------------------------------------------------
// Path validation
// ---------------------------------------------------------------------------
enum PathIssue {
    Empty,
    Forbidden,
    Reserved,
}

impl View for PathIssue {
    type V = PathErrKind;

    closed spec fn view(&self) -> PathErrKind {
        match self {
            PathIssue::Empty => PathErrKind::Empty,
            PathIssue::Forbidden => PathErrKind::Forbidden,
            PathIssue::Reserved => PathErrKind::Reserved,
        }
    }
}

/// Index of the `/` ending the component that starts at `i`, or the end of
/// the text.
fn comp_end_x(s: &str, n: usize, i: usize) -> (r: usize)
    requires
        n == s@.len(),
        i <= n,
    ensures
        r == comp_end(s@, i as int),
        i <= r <= n,
{
    let mut j = i;
    while j < n
        invariant
            i <= j <= n,
            n == s@.len(),
            comp_end(s@, i as int) == comp_end(s@, j as int),
        decreases n - j,
    {
        if s.get_char(j) == '/' {
            proof {
                assert(comp_end(s@, j as int) == j);
            }
            return j;
        }
        proof {
            assert(comp_end(s@, j as int) == comp_end(s@, j + 1));
        }
        j += 1;
    }
    proof {
        assert(comp_end(s@, j as int) == n);
    }
    n
}

/// Checks the components from position `i` on, left to right; for each one:
/// emptiness, then forbidden characters, then the reserved names.
fn check_comps(s: &str, n: usize, i: usize) -> (r: Option<PathIssue>)
    requires
        n == s@.len(),
        i <= n,
    ensures
        match r {
            Some(kx) => path_err_from(s@, i as int) == Some(kx@),
            None => path_err_from(s@, i as int) is None,
        },
    decreases n - i,
{
    let k = comp_end_x(s, n, i);
    if k == i {
        return Some(PathIssue::Empty);
    }
    let mut m = i;
    while m < k
        invariant
            i < k,
            i <= m <= k <= n,
            n == s@.len(),
            k == comp_end(s@, i as int),
            forall|q: int|
                i <= q < m ==> !crate::model::forbidden_path_char(#[trigger] s@[q]),
        decreases k - m,
    {
        let c = s.get_char(m);
        if (c as u32) <= 0x1F || c == '\\' || c == ':' {
            proof {
                assert(crate::model::forbidden_path_char(s@[m as int]));
                assert(crate::model::component_err(s@, i as int, k as int) == Some(
                    PathErrKind::Forbidden,
                ));
                assert(path_err_from(s@, i as int) == Some(PathErrKind::Forbidden));
            }
            return Some(PathIssue::Forbidden);
        }
        m += 1;
    }
    if k - i == 1 && s.get_char(i) == '.' {
        return Some(PathIssue::Reserved);
    }
    if k - i == 2 && s.get_char(i) == '.' && s.get_char(i + 1) == '.' {
        return Some(PathIssue::Reserved);
    }
    if k >= n {
        return None;
    }
    check_comps(s, n, k + 1)
}

/// Validates a raw path: splits on `/` and refuses empty components,
/// components holding a control character, a backslash or a colon, and the
/// names `.` and `..`. On success wraps the original text.
pub fn path(s: &str) -> (r: Result<HrxPath, HrxError>)
    ensures
        match path_err_from(s@, 0) {
            None => r matches Ok(p) && p@ == s@,
            Some(k) => r matches Err(e) && e@ == path_error_model(k, s@),
        },
{
    let n = s.unicode_len();
    match check_comps(s, n, 0) {
        None => Ok(path_from_string(s.to_owned())),
        Some(PathIssue::Empty) => Err(HrxError::EmptyComponent(s.to_owned())),
        Some(PathIssue::Forbidden) => Err(HrxError::ForbiddenCharacter(s.to_owned())),
        Some(PathIssue::Reserved) => Err(HrxError::ReservedComponent(s.to_owned())),
    }
}

// ---------------------------------------------------------------------------
// Entry lookups
// ---------------------------------------------------------------------------
/// First entry whose path equals `p`.
fn find_key(entries: &Vec<(HrxPath, HrxEntry)>, p: &String) -> (r: Option<usize>)
    ensures
        match r {
            Some(i) => find_key_from(entries_view(entries@), p@, 0) == Some(i as int) && i
                < entries@.len(),
            None => find_key_from(entries_view(entries@), p@, 0) is None,
        },
{
    let ghost ev = entries_view(entries@);
    let mut i: usize = 0;
    while i < entries.len()
        invariant
            i <= entries@.len(),
            ev == entries_view(entries@),
            ev.len() == entries@.len(),
            find_key_from(ev, p@, 0) == find_key_from(ev, p@, i as int),
        decreases entries@.len() - i,
    {
        proof {
            assert(ev[i as int] == (entries@[i as int].0@, entries@[i as int].1@));
        }
        if path_string(&entries[i].0).eq(p) {
            return Some(i);
        }
        proof {
            assert(find_key_from(ev, p@, i as int) == find_key_from(ev, p@, i + 1));
        }
        i += 1;
    }
    None
}

/// Whether `anc` names a strict ancestor of `p`: a proper prefix ending at a
/// slash boundary.
fn is_strict_ancestor(anc: &String, p: &String) -> (r: bool)
    ensures
        r == strict_ancestor(anc@, p@),
{
    let na = anc.as_str().unicode_len();
    let np = p.as_str().unicode_len();
    if na >= np {
        return false;
    }
    let mut i: usize = 0;
    while i < na
        invariant
            i <= na < np,
            na == anc@.len(),
            np == p@.len(),
            forall|m: int| 0 <= m < i ==> #[trigger] p@[m] == anc@[m],
        decreases na - i,
    {
        if p.as_str().get_char(i) != anc.as_str().get_char(i) {
            proof {
                assert(p@.subrange(0, na as int)[i as int] == p@[i as int]);
                assert(p@.subrange(0, na as int) != anc@);
            }
            return false;
        }
        i += 1;
    }
    proof {
        assert(p@.subrange(0, na as int) =~= anc@);
    }
    p.as_str().get_char(na) == '/'
}

/// First entry that is a file and a strict ancestor of `p`.
fn find_file_ancestor(entries: &Vec<(HrxPath, HrxEntry)>, p: &String) -> (r: Option<usize>)
    ensures
        match r {
            Some(i) => find_file_ancestor_from(entries_view(entries@), p@, 0) == Some(i as int)
                && i < entries@.len(),
            None => find_file_ancestor_from(entries_view(entries@), p@, 0) is None,
        },
{
    let ghost ev = entries_view(entries@);
    let mut i: usize = 0;
    while i < entries.len()
        invariant
            i <= entries@.len(),
            ev == entries_view(entries@),
            ev.len() == entries@.len(),
            find_file_ancestor_from(ev, p@, 0) == find_file_ancestor_from(ev, p@, i as int),
        decreases entries@.len() - i,
    {
        proof {
            assert(ev[i as int] == (entries@[i as int].0@, entries@[i as int].1@));
        }
        let is_file = match &entries[i].1.data {
            HrxEntryData::File { .. } => true,
            HrxEntryData::Directory => false,
        };
        if is_file && is_strict_ancestor(path_string(&entries[i].0), p) {
            return Some(i);
        }
        proof {
            assert(find_file_ancestor_from(ev, p@, i as int) == find_file_ancestor_from(
                ev,
                p@,
                i + 1,
            ));
        }
        i += 1;
    }
    None
}

// ---------------------------------------------------------------------------
// The block grammar
// ---------------------------------------------------------------------------
/// Parses the path-bearing block whose marker starts at `pos`, attaching the
/// pending comment, validating the path and enforcing uniqueness and the
/// file-as-parent rule against the entries gathered so far.
fn parse_path_block(
    s: &str,
    n: usize,
    w: usize,
    pos: usize,
    comment: Option<String>,
    entries: Vec<(HrxPath, HrxEntry)>,
) -> (r: Result<(Vec<(HrxPath, HrxEntry)>, usize), HrxError>)
    requires
        n == s@.len(),
        pos + w + 2 < n,
        marker_at(s@, w as nat, pos as int),
        s@[pos + w + 2] == ' ',
    ensures
        match r {
            Ok((ents, np)) => {
                &&& parse_path_block_model(
                    s@,
                    w as nat,
                    pos as int,
                    opt_string_view(comment),
                    entries_view(entries@),
                ) matches Ok((em, npm)) && entries_view(ents@) == em && np as int == npm
                &&& pos < np <= n
            },
            Err(e) => parse_path_block_model(
                s@,
                w as nat,
                pos as int,
                opt_string_view(comment),
                entries_view(entries@),
            ) matches Err(em) && e@ == em,
        },
{
    let ghost ev = entries_view(entries@);
    let after = pos + w + 2;
    let l = line_end_x(s, n, after + 1);
    let ghost rawline = s@.subrange(after + 1, l as int);
    let dir = l > after + 1 && s.get_char(l - 1) == '/';
    proof {
        assert(dir == (rawline.len() > 0 && rawline[rawline.len() - 1] == '/'));
    }
    let path_str = if dir {
        s.substring_char(after + 1, l - 1)
    } else {
        s.substring_char(after + 1, l)
    };
    proof {
        if dir {
            assert(path_str@ =~= rawline.drop_last());
        }
    }
    let p = match path(path_str) {
        Ok(p) => p,
        Err(e) => {
            return Err(e);
        },
    };
    let (body, np): (Option<String>, usize) = if l >= n {
        (None, n)
    } else if l + 1 >= n {
        (if dir {
            None
        } else {
            Some(String::new())
        }, n)
    } else if is_marker_at(s, n, w, l + 1) {
        (None, l + 1)
    } else {
        let j = section_end_x(s, n, w, l + 1);
        let b = s.substring_char(l + 1, j).to_owned();
        (Some(b), if j >= n {
            n
        } else {
            j + 1
        })
    };
    if dir && body.is_some() {
        return Err(HrxError::Malformed);
    }
    let data = if dir {
        HrxEntryData::Directory
    } else {
        HrxEntryData::File { body }
    };
    let entry = HrxEntry { comment, data };
    match find_key(&entries, path_string(&p)) {
        Some(i) => {
            let existing = clone_entry(&entries[i].1);
            proof {
                assert(ev[i as int] == (entries@[i as int].0@, entries@[i as int].1@));
            }
            Err(HrxError::DuplicateEntry(path_string(&p).clone(), existing, entry))
        },
        None => {
            match find_file_ancestor(&entries, path_string(&p)) {
                Some(i) => {
                    proof {
                        assert(ev[i as int] == (entries@[i as int].0@, entries@[i as int].1@));
                    }
                    Err(
                        HrxError::FileAsDirectory(
                            path_string(&entries[i].0).clone(),
                            path_string(&p).clone(),
                        ),
                    )
                },
                None => {
                    let mut ents = entries;
                    ents.push((p, entry));
                    proof {
                        assert(entries_view(ents@) =~= ev.push(
                            (ents@[ents@.len() - 1].0@, ents@[ents@.len() - 1].1@),
                        ));
                    }
                    Ok((ents, np))
                },
            }
        },
    }
}

/// Parses the blocks from `pos` to the end of the text on top of the entries
/// gathered so far, yielding the final entries and the root comment.
fn parse_rest(
    s: &str,
    n: usize,
    w: usize,
    pos: usize,
    entries: Vec<(HrxPath, HrxEntry)>,
) -> (r: Result<(Vec<(HrxPath, HrxEntry)>, Option<String>), HrxError>)
    requires
        n == s@.len(),
        pos <= n,
    ensures
        match r {
            Ok((ents, root)) => parse_rest_model(
                s@,
                w as nat,
                pos as int,
                entries_view(entries@),
            ) matches Ok((em, rm)) && entries_view(ents@) == em && opt_string_view(root) == rm,
            Err(e) => parse_rest_model(s@, w as nat, pos as int, entries_view(entries@)) matches Err(
                em,
            ) && e@ == em,
        },
    decreases n - pos,
{
    if pos >= n {
        return Ok((entries, None));
    }
    if !is_marker_at(s, n, w, pos) {
        return Err(HrxError::Malformed);
    }
    let after = pos + w + 2;
    if after >= n {
        return Err(HrxError::UnexpectedEof);
    }
    let c = s.get_char(after);
    if c == ' ' {
        match parse_path_block(s, n, w, pos, None, entries) {
            Err(e) => Err(e),
            Ok((ents2, np)) => parse_rest(s, n, w, np, ents2),
        }
    } else if c == '\n' {
        let start = after + 1;
        if start >= n {
            proof {
                reveal_strlit("");
            }
            return Ok((entries, Some(String::new())));
        }
        if is_marker_at(s, n, w, start) {
            return Err(HrxError::Malformed);
        }
        let j = section_end_x(s, n, w, start);
        let ctext = s.substring_char(start, j).to_owned();
        if j >= n {
            return Ok((entries, Some(ctext)));
        }
        let pos2 = j + 1;
        if w + 2 >= n - pos2 {
            return Err(HrxError::UnexpectedEof);
        }
        let after2 = pos2 + w + 2;
        let c2 = s.get_char(after2);
        if c2 == ' ' {
            match parse_path_block(s, n, w, pos2, Some(ctext), entries) {
                Err(e) => Err(e),
                Ok((ents2, np)) => parse_rest(s, n, w, np, ents2),
            }
        } else {
            Err(HrxError::Malformed)
        }
    } else {
        Err(HrxError::Malformed)
    }
}

/// Parses a whole text at the given boundary width.
pub fn archive(s: &str, width: usize) -> (r: Result<HrxArchive, HrxError>)
    requires
        width >= 1,
    ensures
        match r {
            Ok(a) => parse_model(s@, width as nat) matches Ok(m) && a@ == m,
            Err(e) => parse_model(s@, width as nat) matches Err(m) && e@ == m,
        },
{
    let n = s.unicode_len();
    proof {
        assert(entries_view(Seq::empty()) =~= Seq::<(Seq<char>, EntryModel)>::empty());
    }
    match parse_rest(s, n, width, 0, Vec::new()) {
        Err(e) => Err(e),
        Ok((ents, root)) => {
            let a = HrxArchive {
                comment: root,
                entries: ents,
                boundary_length: BoundaryLen::new(width),
            };
            proof {
                assert(parse_model(s@, width as nat) matches Ok(m) && a@ =~~= m);
            }
            Ok(a)
        },
    }
}

impl HrxArchive {
    /// Reads an archive out of its text form: discovers the boundary width
    /// from the first marker, then parses the whole text at that width.
    pub fn from_text(s: &str) -> (r: Result<HrxArchive, HrxError>)
        ensures
            match discover_model(s@) {
                None => r matches Err(e) && e@ == ErrorModel::NoBoundary,
                Some(w) => match r {
                    Ok(a) => parse_model(s@, w) matches Ok(m) && a@ == m,
                    Err(e) => parse_model(s@, w) matches Err(m) && e@ == m,
                },
            },
    {
        match discover_first_boundary_length(s) {
            None => Err(HrxError::NoBoundary),
            Some(w) => archive(s, w),
        }
    }
}

impl core::str::FromStr for HrxArchive {
    type Err = HrxError;

    fn from_str(s: &str) -> Result<HrxArchive, HrxError> {
        HrxArchive::from_text(s)
    }
}

impl core::str::FromStr for HrxPath {
    type Err = HrxError;

    fn from_str(s: &str) -> Result<HrxPath, HrxError> {
        path(s)
    }
}

} // verus!
