//! The laws of the format: what a successful parse guarantees, and the
//! round-trip relation between parsing and serialization.

use vstd::prelude::*;

use crate::model::{
    check_entries_from, check_model, comp_end, component_err, find_file_ancestor_from,
    find_key_from, forbidden_seq, has_sub, join_units, lemma_line_end_bounds,
    lemma_section_end_bounds, line_end, marker_at, marker_seq, matches_at, opt_text_ok,
    parse_model, parse_path_block_model, parse_rest_model, path_err_from, path_part_seq,
    root_unit_seq, section_end, serialize_model, strict_ancestor, text_ok, unit_seq, units_of,
    valid_path, ArchiveModel, BodyTagModel, EntryDataModel, EntryModel, ErrorModel,
};

verus! {

/// All texts of an entry are safe at width `w`.
pub open spec fn entry_ok(e: EntryModel, w: nat) -> bool {
    &&& opt_text_ok(e.comment, w)
    &&& match e.data {
        EntryDataModel::File { body } => opt_text_ok(body, w),
        EntryDataModel::Directory => true,
    }
}

/// No two entries share a path.
pub open spec fn unique_keys(entries: Seq<(Seq<char>, EntryModel)>) -> bool {
    forall|i: int, j: int|
        0 <= i < j < entries.len() ==> (#[trigger] entries[i]).0 != (#[trigger] entries[j]).0
}

/// The marker spelled out characterwise is the marker as a sequence.
proof fn lemma_marker_seq_at(t: Seq<char>, w: nat, i: int)
    requires
        0 <= i,
        i + w + 2 <= t.len(),
    ensures
        marker_at(t, w, i) <==> t.subrange(i, i + w + 2) == marker_seq(w),
{
    assert(marker_seq(w).len() == w + 2);
    assert(marker_seq(w)[0] == '<');
    assert(forall|k: int| 0 <= k < w ==> #[trigger] marker_seq(w)[1 + k] == '=');
    assert(marker_seq(w)[w + 1 as int] == '>');
    if marker_at(t, w, i) {
        assert forall|k: int| 0 <= k < w + 2 implies #[trigger] t.subrange(i, i + w + 2)[k]
            == marker_seq(w)[k] by {
            assert(t.subrange(i, i + w + 2)[k] == t[i + k]);
            if k == 0 {
            } else if k <= w {
                assert(t[i + 1 + (k - 1)] == '=');
                assert(marker_seq(w)[1 + (k - 1)] == '=');
            } else {
                assert(t[i + 1 + w] == '>');
                assert(i + k == i + 1 + w);
            }
        }
        assert(t.subrange(i, i + w + 2) =~= marker_seq(w));
    }
    if t.subrange(i, i + w + 2) == marker_seq(w) {
        assert(t[i] == '<') by {
            assert(t.subrange(i, i + w + 2)[0] == t[i]);
        }
        assert forall|k: int| 0 <= k < w implies #[trigger] t[i + 1 + k] == '=' by {
            assert(t.subrange(i, i + w + 2)[1 + k] == t[i + (1 + k)]);
            assert(marker_seq(w)[1 + k] == '=');
        }
        assert(t[i + 1 + w] == '>') by {
            assert(t.subrange(i, i + w + 2)[w + 1 as int] == t[i + (w + 1)]);
        }
    }
}

/// Nothing before the section end looks like a newline followed by a marker.
proof fn lemma_section_end_clean(t: Seq<char>, w: nat, i: int)
    requires
        0 <= i <= t.len(),
    ensures
        forall|m: int|
            i <= m < section_end(t, w, i) ==> !((#[trigger] t[m]) == '\n' && marker_at(t, w, m + 1)),
    decreases t.len() - i,
{
    if i < t.len() && !(t[i] == '\n' && marker_at(t, w, i + 1)) {
        lemma_section_end_clean(t, w, i + 1);
    }
}

/// The character that the section end stops at.
proof fn lemma_section_end_char(t: Seq<char>, w: nat, i: int)
    requires
        0 <= i <= t.len(),
    ensures
        section_end(t, w, i) < t.len() ==> t[section_end(t, w, i)] == '\n' && marker_at(
            t,
            w,
            section_end(t, w, i) + 1,
        ),
    decreases t.len() - i,
{
    lemma_section_end_bounds(t, w, i);
    if i < t.len() && !(t[i] == '\n' && marker_at(t, w, i + 1)) {
        lemma_section_end_char(t, w, i + 1);
    }
}

/// The character that the line end stops at.
proof fn lemma_line_end_char(t: Seq<char>, i: int)
    requires
        0 <= i <= t.len(),
    ensures
        line_end(t, i) < t.len() ==> t[line_end(t, i)] == '\n',
    decreases t.len() - i,
{
    lemma_line_end_bounds(t, i);
    if i < t.len() && t[i] != '\n' {
        lemma_line_end_char(t, i + 1);
    }
}

/// The text of a section is safe at the section's width: the scan stopped at
/// the first newline-then-marker, so none occurs inside.
proof fn lemma_section_text_ok(t: Seq<char>, w: nat, start: int)
    requires
        0 <= start <= t.len(),
    ensures
        text_ok(t.subrange(start, section_end(t, w, start)), w),
{
    lemma_section_end_bounds(t, w, start);
    lemma_section_end_clean(t, w, start);
    let j = section_end(t, w, start);
    let sub = t.subrange(start, j);
    let forb = forbidden_seq(w);
    assert(forb.len() == w + 3);
    assert(forb[0] == '\n');
    if has_sub(sub, forb) {
        let q = choose|q: int| matches_at(sub, forb, q);
        assert(sub.subrange(q, q + forb.len() as int) == forb);
        assert(sub[q] == '\n') by {
            assert(sub.subrange(q, q + forb.len() as int)[0] == sub[q]);
        }
        let m = start + q;
        assert(t[m] == '\n');
        assert(t.subrange(m + 1, m + 1 + w + 2) =~= forb.subrange(1, w + 3 as int)) by {
            assert(forall|x: int|
                0 <= x < w + 2 ==> #[trigger] t[m + 1 + x] == sub[q + 1 + x]);
        }
        assert(forb.subrange(1, w + 3 as int) =~= marker_seq(w));
        lemma_marker_seq_at(t, w, m + 1);
        assert(marker_at(t, w, m + 1));
        assert(false);
    }
}

/// An entry sequence whose texts are all safe passes the content scan.
proof fn lemma_check_entries_ok(entries: Seq<(Seq<char>, EntryModel)>, w: nat, i: int)
    requires
        forall|k: int| 0 <= k < entries.len() ==> entry_ok((#[trigger] entries[k]).1, w),
        0 <= i,
    ensures
        check_entries_from(entries, w, i) == Ok::<(), BodyTagModel>(()),
    decreases entries.len() - i,
{
    if i < entries.len() {
        lemma_check_entries_ok(entries, w, i + 1);
    }
}

/// What a successful path-bearing block guarantees: exactly one entry is
/// appended, with a validated fresh path and a safe body, and the consumed
/// text is exactly the block's serialized form.
proof fn lemma_path_block_good(
    t: Seq<char>,
    w: nat,
    pos: int,
    comment: Option<Seq<char>>,
    entries: Seq<(Seq<char>, EntryModel)>,
)
    requires
        0 <= pos,
        pos + w + 2 < t.len(),
        marker_at(t, w, pos),
        t[pos + w + 2] == ' ',
        parse_path_block_model(t, w, pos, comment, entries) is Ok,
    ensures
        parse_path_block_model(t, w, pos, comment, entries) matches Ok((ents2, np)) ==> {
            let (p, e) = ents2.last();
            &&& ents2.len() == entries.len() + 1
            &&& ents2.drop_last() == entries
            &&& e.comment == comment
            &&& (match e.data {
                EntryDataModel::File { body } => opt_reparsable(body, w),
                EntryDataModel::Directory => true,
            })
            &&& valid_path(p)
            &&& (forall|k: int| 0 <= k < entries.len() ==> (#[trigger] entries[k]).0 != p)
            &&& (forall|k: int|
                0 <= k < entries.len() ==> !(strict_ancestor((#[trigger] entries[k]).0, p)
                    && entries[k].1.data matches EntryDataModel::File { .. }))
            &&& pos < np <= t.len()
            &&& {
                ||| (np == t.len() && t.subrange(pos, t.len() as int) == path_part_seq(p, e, w))
                ||| (np == t.len() && e.data is Directory && t.subrange(pos, t.len() as int)
                    == path_part_seq(p, e, w) + seq!['\n'])
                ||| (np < t.len() && marker_at(t, w, np) && t[np - 1] == '\n' && t.subrange(
                    pos,
                    np - 1,
                ) == path_part_seq(p, e, w))
            }
        },
{
    let after = pos + w + 2;
    lemma_line_end_bounds(t, after + 1);
    lemma_line_end_char(t, after + 1);
    let l = line_end(t, after + 1);
    let rawline = t.subrange(after + 1, l);
    let dir = rawline.len() > 0 && rawline[rawline.len() - 1] == '/';
    let rawpath = if dir {
        rawline.drop_last()
    } else {
        rawline
    };
    let res = parse_path_block_model(t, w, pos, comment, entries);
    let (ents2, np) = res->Ok_0;
    let (p, e) = ents2.last();
    assert(p == rawpath && ents2 == entries.push((rawpath, e)));
    assert(ents2.drop_last() =~= entries);
    lemma_find_key_none(entries, rawpath, 0);
    lemma_find_ancestor_none(entries, rawpath, 0);
    // the header line is the marker, a space, the path and the directory slash
    lemma_marker_seq_at(t, w, pos);
    let header = crate::model::header_seq(p, e.data, w);
    assert(t.subrange(pos, after) == marker_seq(w)) by {
        assert(t.subrange(pos, after) =~= t.subrange(pos, pos + w + 2));
    }
    assert(header == marker_seq(w) + seq![' '] + p + (if dir {
        seq!['/']
    } else {
        Seq::<char>::empty()
    }));
    assert forall|x: int| 0 <= x < l - pos implies #[trigger] t.subrange(pos, l)[x] == header[x] by {
        assert(t.subrange(pos, l)[x] == t[pos + x]);
        if x < w + 2 {
            assert(t[pos + x] == t.subrange(pos, after)[x]);
        } else if x == w + 2 {
        } else {
            assert(t[pos + x] == rawline[x - (w + 3)]);
            if dir && x - (w + 3) < rawpath.len() {
                assert(rawline[x - (w + 3)] == rawpath[x - (w + 3)]);
            }
        }
    }
    assert(header.len() == l - pos) by {
        if dir {
            assert(rawline =~= rawpath + seq!['/']);
        }
    }
    assert(t.subrange(pos, l) =~= header);
    // the body section
    let start = l + 1;
    if l >= t.len() {
        assert(np == t.len() && (e.data matches EntryDataModel::File { body: None } || e.data
            is Directory));
        assert(path_part_seq(p, e, w) == header + Seq::<char>::empty());
        assert(t.subrange(pos, t.len() as int) =~= path_part_seq(p, e, w));
    } else if start >= t.len() {
        assert(t[l] == '\n');
        assert(np == t.len());
        if dir {
            assert(path_part_seq(p, e, w) == header + Seq::<char>::empty());
            assert(t.subrange(pos, t.len() as int) =~= path_part_seq(p, e, w) + seq!['\n']);
        } else {
            assert(e.data == (EntryDataModel::File { body: Some(Seq::<char>::empty()) }));
            lemma_empty_text_ok(w);
            assert(path_part_seq(p, e, w) == header + (seq!['\n'] + Seq::<char>::empty()));
            assert(t.subrange(pos, t.len() as int) =~= path_part_seq(p, e, w));
        }
    } else if marker_at(t, w, start) {
        assert(np == start && t[l] == '\n');
        assert(path_part_seq(p, e, w) == header + Seq::<char>::empty());
        assert(t.subrange(pos, np - 1) =~= path_part_seq(p, e, w));
    } else {
        lemma_section_end_bounds(t, w, start);
        lemma_section_end_char(t, w, start);
        lemma_section_text_ok(t, w, start);
        let j = section_end(t, w, start);
        let body = t.subrange(start, j);
        lemma_section_text_no_marker(t, w, start, j);
        assert(!dir && e.data == (EntryDataModel::File { body: Some(body) }));
        assert(t[l] == '\n');
        assert(path_part_seq(p, e, w) == header + (seq!['\n'] + body));
        if j >= t.len() {
            assert(np == t.len());
            assert(t.subrange(pos, t.len() as int) =~= header + (seq!['\n'] + body));
        } else {
            assert(np == j + 1 && t[j] == '\n' && marker_at(t, w, j + 1));
            assert(t.subrange(pos, np - 1) =~= header + (seq!['\n'] + body));
        }
    }
}

/// When the key scan finds nothing, the key is absent.
proof fn lemma_find_key_none(entries: Seq<(Seq<char>, EntryModel)>, p: Seq<char>, i: int)
    requires
        0 <= i,
        find_key_from(entries, p, i) is None,
    ensures
        forall|k: int| i <= k < entries.len() ==> (#[trigger] entries[k]).0 != p,
    decreases entries.len() - i,
{
    if i < entries.len() {
        lemma_find_key_none(entries, p, i + 1);
    }
}

/// When the ancestor scan finds nothing, no gathered file entry is an
/// ancestor.
proof fn lemma_find_ancestor_none(entries: Seq<(Seq<char>, EntryModel)>, p: Seq<char>, i: int)
    requires
        0 <= i,
        find_file_ancestor_from(entries, p, i) is None,
    ensures
        forall|k: int|
            i <= k < entries.len() ==> !(strict_ancestor((#[trigger] entries[k]).0, p)
                && entries[k].1.data matches EntryDataModel::File { .. }),
    decreases entries.len() - i,
{
    if i < entries.len() {
        lemma_find_ancestor_none(entries, p, i + 1);
    }
}

/// A section text read out of a document never begins with the boundary
/// marker, because the scan would then not have entered the section.
proof fn lemma_section_text_no_marker(t: Seq<char>, w: nat, start: int, j: int)
    requires
        0 <= start <= j <= t.len(),
        !marker_at(t, w, start),
    ensures
        !marker_at(t.subrange(start, j), w, 0),
{
    let b = t.subrange(start, j);
    if marker_at(b, w, 0) {
        lemma_marker_seq_at(b, w, 0);
        assert(t.subrange(start, start + w + 2) =~= b.subrange(0, w + 2 as int)) by {
            assert(forall|x: int| 0 <= x < b.len() ==> #[trigger] b[x] == t[start + x]);
        }
        lemma_marker_seq_at(t, w, start);
        assert(false);
    }
}

/// Round trip, reading first: an archive read from text serializes back to
/// that text byte for byte. The one exception is a trailing newline directly
/// after a final directory header line, which a directory's bodiless form
/// cannot carry and which is therefore not reproduced; for every other
/// accepted text the serialized form is the text itself.
pub proof fn lemma_parse_serialize_round_trip(t: Seq<char>, w: nat)
    requires
        parse_model(t, w) is Ok,
    ensures
        parse_model(t, w) matches Ok(a) ==> serialize_model(a) == t || (ends_with_directory(
            a.entries,
            a.comment,
        ) && serialize_model(a) + seq!['\n'] == t),
{
    let a = parse_model(t, w)->Ok_0;
    let rres = parse_rest_model(t, w, 0, Seq::empty());
    let (ents, root) = rres->Ok_0;
    assert(a.entries == ents && a.comment == root && a.boundary_length == w);
    if t.len() == 0 {
        assert(ents == Seq::<(Seq<char>, EntryModel)>::empty());
        assert(units_of(ents, root, w) =~= Seq::<Seq<char>>::empty());
        assert(serialize_model(a) =~= t);
    } else {
        assert(marker_at(t, w, 0));
        lemma_parse_rest_good(t, w, 0, Seq::empty());
        assert(ents.subrange(0, ents.len() as int) =~= ents);
        assert(t.subrange(0, t.len() as int) =~= t);
    }
}

/// No partial or unsafe model escapes a parse: the archive read from text
/// carries the width it was parsed at, passes content validation at that
/// width, and is reparsable: its paths are unique and valid, no entry lies
/// under an earlier file entry, no text begins with the bare marker, and no
/// final file body is present but empty.
pub proof fn lemma_parse_model_valid(t: Seq<char>, w: nat)
    requires
        parse_model(t, w) is Ok,
    ensures
        parse_model(t, w) matches Ok(a) ==> {
            &&& a.boundary_length == w
            &&& check_model(a, w) == Ok::<(), BodyTagModel>(())
            &&& reparsable(a)
        },
{
    let a = parse_model(t, w)->Ok_0;
    let rres = parse_rest_model(t, w, 0, Seq::empty());
    let (ents, root) = rres->Ok_0;
    assert(a.entries == ents && a.comment == root && a.boundary_length == w);
    if t.len() == 0 {
        assert(ents == Seq::<(Seq<char>, EntryModel)>::empty());
        assert(check_entries_from(ents, w, 0) == Ok::<(), BodyTagModel>(()));
    } else {
        assert(marker_at(t, w, 0));
        lemma_parse_rest_good(t, w, 0, Seq::empty());
        assert(ents.subrange(0, ents.len() as int) =~= ents);
        assert(forall|k: int|
            0 <= k < ents.len() ==> entry_reparsable((#[trigger] ents[k]).1, w));
        assert(forall|k: int| 0 <= k < ents.len() ==> entry_ok((#[trigger] ents[k]).1, w));
        lemma_check_entries_ok(ents, w, 0);
    }
}

/// The composition of the two round trips: an archive read from text is its
/// own canonical form, so writing it out and reading it again changes
/// nothing.
pub proof fn lemma_parse_canonical(t: Seq<char>, w: nat)
    requires
        parse_model(t, w) is Ok,
    ensures
        parse_model(t, w) matches Ok(a) ==> parse_model(serialize_model(a), w)
            == Ok::<ArchiveModel, ErrorModel>(a),
{
    lemma_parse_model_valid(t, w);
    let a = parse_model(t, w)->Ok_0;
    lemma_serialize_parse_round_trip(a);
}

/// Splitting the block list of a nonempty entry sequence at its first entry.
proof fn lemma_units_cons(entries: Seq<(Seq<char>, EntryModel)>, root: Option<Seq<char>>, w: nat)
    requires
        entries.len() >= 1,
    ensures
        units_of(entries, root, w) == seq![unit_seq(entries[0].0, entries[0].1, w)] + units_of(
            entries.drop_first(),
            root,
            w,
        ),
{
    assert(units_of(entries, root, w) =~= seq![unit_seq(entries[0].0, entries[0].1, w)] + units_of(
        entries.drop_first(),
        root,
        w,
    ));
}

/// The empty text is safe at every width.
proof fn lemma_empty_text_ok(w: nat)
    ensures
        text_ok(Seq::<char>::empty(), w),
{
    if has_sub(Seq::<char>::empty(), forbidden_seq(w)) {
        let q = choose|q: int| matches_at(Seq::<char>::empty(), forbidden_seq(w), q);
        assert(q + forbidden_seq(w).len() <= 0 && 0 <= q);
        assert(forbidden_seq(w).len() == w + 3);
        assert(false);
    }
}

/// What a successful parse of the blocks from `pos` guarantees: the gathered
/// entries are kept as a prefix; every new entry has a validated path and
/// safe texts and keeps the paths unique; the root comment is safe; and the
/// remaining text is exactly the serialized form of what was read, except
/// possibly for one trailing newline directly after a final path header
/// line.
proof fn lemma_parse_rest_good(
    t: Seq<char>,
    w: nat,
    pos: int,
    entries: Seq<(Seq<char>, EntryModel)>,
)
    requires
        0 <= pos <= t.len(),
        pos == t.len() || marker_at(t, w, pos),
        parse_rest_model(t, w, pos, entries) is Ok,
    ensures
        parse_rest_model(t, w, pos, entries) matches Ok((ents, root)) ==> {
            &&& ents.len() >= entries.len()
            &&& ents.subrange(0, entries.len() as int) == entries
            &&& (forall|k: int|
                entries.len() <= k < ents.len() ==> entry_reparsable((#[trigger] ents[k]).1, w)
                    && valid_path(ents[k].0))
            &&& opt_reparsable(root, w)
            &&& (unique_keys(entries) ==> unique_keys(ents))
            &&& (no_file_ancestors(entries) ==> no_file_ancestors(ents))
            &&& (pos < t.len() ==> ents.len() > entries.len() || root is Some)
            &&& {
                let new = ents.subrange(entries.len() as int, ents.len() as int);
                let tail = join_units(units_of(new, root, w));
                t.subrange(pos, t.len() as int) == tail || (ends_with_directory(new, root)
                    && t.subrange(pos, t.len() as int) == tail + seq!['\n'])
            }
        },
    decreases t.len() - pos, 0int,
{
    let res = parse_rest_model(t, w, pos, entries);
    let (ents, root) = res->Ok_0;
    if pos >= t.len() {
        assert(ents == entries && root matches None);
        assert(ents.subrange(0, entries.len() as int) =~= entries);
        let new = ents.subrange(entries.len() as int, ents.len() as int);
        assert(new =~= Seq::<(Seq<char>, EntryModel)>::empty());
        assert(units_of(new, root, w) =~= Seq::<Seq<char>>::empty());
        assert(t.subrange(pos, t.len() as int) =~= Seq::<char>::empty());
    } else {
        let after = pos + w + 2;
        lemma_marker_seq_at(t, w, pos);
        assert(t.subrange(pos, after) == marker_seq(w)) by {
            assert(t.subrange(pos, after) =~= t.subrange(pos, pos + w + 2));
        }
        if t[after] == ' ' {
            lemma_path_block_good(t, w, pos, None, entries);
            let bres = parse_path_block_model(t, w, pos, None, entries);
            let (ents2, np) = bres->Ok_0;
            let (p, e) = ents2.last();
            assert(t.subrange(pos, pos) =~= Seq::<char>::empty());
            assert(unit_seq(p, e, w) =~= Seq::<char>::empty() + path_part_seq(p, e, w));
            assert(parse_rest_model(t, w, pos, entries) == parse_rest_model(t, w, np, ents2));
            lemma_combine_block(t, w, pos, pos, np, p, e, entries, ents2, Seq::empty());
        } else {
            // comment block
            let start = after + 1;
            if start >= t.len() {
                assert(ents == entries && root == Some(Seq::<char>::empty()));
                lemma_empty_text_ok(w);
                assert(ents.subrange(0, entries.len() as int) =~= entries);
                let new = ents.subrange(entries.len() as int, ents.len() as int);
                assert(new =~= Seq::<(Seq<char>, EntryModel)>::empty());
                let units = units_of(new, root, w);
                assert(units =~= seq![root_unit_seq(Seq::<char>::empty(), w)]);
                assert(join_units(units) == root_unit_seq(Seq::<char>::empty(), w));
                assert(t.subrange(pos, t.len() as int) =~= marker_seq(w) + seq!['\n']
                    + Seq::<char>::empty()) by {
                    assert(forall|x: int|
                        0 <= x < w + 2 ==> #[trigger] t[pos + x] == t.subrange(pos, after)[x]);
                }
            } else {
                lemma_section_end_bounds(t, w, start);
                lemma_section_end_char(t, w, start);
                lemma_section_text_ok(t, w, start);
                let j = section_end(t, w, start);
                let c = t.subrange(start, j);
                lemma_section_text_no_marker(t, w, start, j);
                if j >= t.len() {
                    assert(ents == entries && root == Some(c));
                    assert(ents.subrange(0, entries.len() as int) =~= entries);
                    let new = ents.subrange(entries.len() as int, ents.len() as int);
                    assert(new =~= Seq::<(Seq<char>, EntryModel)>::empty());
                    let units = units_of(new, root, w);
                    assert(units =~= seq![root_unit_seq(c, w)]);
                    assert(join_units(units) == root_unit_seq(c, w));
                    assert(t.subrange(pos, t.len() as int) =~= marker_seq(w) + seq!['\n'] + c) by {
                        assert(forall|x: int|
                            0 <= x < w + 2 ==> #[trigger] t[pos + x] == t.subrange(pos, after)[x]);
                    }
                } else {
                    let pos2 = j + 1;
                    lemma_path_block_good(t, w, pos2, Some(c), entries);
                    let bres = parse_path_block_model(t, w, pos2, Some(c), entries);
                    let (ents2, np) = bres->Ok_0;
                    let (p, e) = ents2.last();
                    // the consumed text up to the path block is the comment part
                    assert(t.subrange(pos, pos2) =~= marker_seq(w) + seq!['\n'] + c + seq!['\n'])
                        by {
                        assert(forall|x: int|
                            0 <= x < w + 2 ==> #[trigger] t[pos + x] == t.subrange(pos, after)[x]);
                        assert(forall|x: int|
                            0 <= x < j - start ==> #[trigger] t[start + x] == c[x]);
                    }
                    assert(unit_seq(p, e, w) =~= (marker_seq(w) + seq!['\n'] + c + seq!['\n'])
                        + path_part_seq(p, e, w));
                    assert(parse_rest_model(t, w, pos, entries) == parse_rest_model(
                        t,
                        w,
                        np,
                        ents2,
                    ));
                    lemma_combine_block(
                        t,
                        w,
                        pos,
                        pos2,
                        np,
                        p,
                        e,
                        entries,
                        ents2,
                        marker_seq(w) + seq!['\n'] + c + seq!['\n'],
                    );
                }
            }
        }
    }
}

/// Combines one parsed entry block (preceded by its comment part, possibly
/// empty) with what the rest of the text parses to.
proof fn lemma_combine_block(
    t: Seq<char>,
    w: nat,
    pos: int,
    bpos: int,
    np: int,
    p: Seq<char>,
    e: EntryModel,
    entries: Seq<(Seq<char>, EntryModel)>,
    ents2: Seq<(Seq<char>, EntryModel)>,
    cpart: Seq<char>,
)
    requires
        0 <= pos <= bpos <= np <= t.len(),
        ents2.len() == entries.len() + 1,
        ents2.drop_last() == entries,
        ents2.last() == (p, e),
        (match e.data {
            EntryDataModel::File { body } => opt_reparsable(body, w),
            EntryDataModel::Directory => true,
        }),
        valid_path(p),
        opt_reparsable(e.comment, w),
        forall|k: int| 0 <= k < entries.len() ==> (#[trigger] entries[k]).0 != p,
        forall|k: int|
            0 <= k < entries.len() ==> !(strict_ancestor((#[trigger] entries[k]).0, p)
                && entries[k].1.data matches EntryDataModel::File { .. }),
        bpos < np,
        ({
            ||| (np == t.len() && t.subrange(bpos, t.len() as int) == path_part_seq(p, e, w))
            ||| (np == t.len() && e.data is Directory && t.subrange(bpos, t.len() as int)
                == path_part_seq(p, e, w) + seq!['\n'])
            ||| (np < t.len() && marker_at(t, w, np) && t[np - 1] == '\n' && t.subrange(
                bpos,
                np - 1,
            ) == path_part_seq(p, e, w))
        }),
        t.subrange(pos, bpos) == cpart,
        unit_seq(p, e, w) == cpart + path_part_seq(p, e, w),
        parse_rest_model(t, w, pos, entries) == parse_rest_model(t, w, np, ents2),
        parse_rest_model(t, w, np, ents2) is Ok,
    ensures
        parse_rest_model(t, w, pos, entries) matches Ok((ents, root)) ==> {
            &&& ents.len() >= entries.len()
            &&& ents.subrange(0, entries.len() as int) == entries
            &&& (forall|k: int|
                entries.len() <= k < ents.len() ==> entry_reparsable((#[trigger] ents[k]).1, w)
                    && valid_path(ents[k].0))
            &&& opt_reparsable(root, w)
            &&& (unique_keys(entries) ==> unique_keys(ents))
            &&& (no_file_ancestors(entries) ==> no_file_ancestors(ents))
            &&& (pos < t.len() ==> ents.len() > entries.len() || root is Some)
            &&& {
                let new = ents.subrange(entries.len() as int, ents.len() as int);
                let tail = join_units(units_of(new, root, w));
                t.subrange(pos, t.len() as int) == tail || (ends_with_directory(new, root)
                    && t.subrange(pos, t.len() as int) == tail + seq!['\n'])
            }
        },
    decreases t.len() - np, 1int,
{
    lemma_parse_rest_good(t, w, np, ents2);
    let res = parse_rest_model(t, w, np, ents2);
    let (ents, root) = res->Ok_0;
    let u = unit_seq(p, e, w);
    // prefix facts
    assert(ents.subrange(0, ents2.len() as int) == ents2);
    assert(ents.subrange(0, entries.len() as int) =~= entries) by {
        assert(forall|k: int|
            0 <= k < entries.len() ==> #[trigger] ents[k] == ents2[k] && ents2[k] == entries[k]);
    }
    assert(ents[entries.len() as int] == (p, e)) by {
        assert(ents.subrange(0, ents2.len() as int)[entries.len() as int] == ents[entries.len() as int]);
    }
    // every new entry is good
    assert(entry_reparsable(e, w));
    assert(forall|k: int|
        entries.len() <= k < ents.len() ==> entry_reparsable((#[trigger] ents[k]).1, w)
            && valid_path(ents[k].0));
    // uniqueness
    if unique_keys(entries) {
        assert(unique_keys(ents2)) by {
            assert(forall|k: int| 0 <= k < entries.len() ==> #[trigger] ents2[k] == entries[k]);
            assert(ents2[ents2.len() - 1] == (p, e));
        }
    }
    // the file-as-parent rule is kept
    if no_file_ancestors(entries) {
        assert forall|i: int, j: int| 0 <= i < j < ents2.len() implies !(strict_ancestor(
            (#[trigger] ents2[i]).0,
            (#[trigger] ents2[j]).0,
        ) && ents2[i].1.data matches EntryDataModel::File { .. }) by {
            assert(forall|k: int| 0 <= k < entries.len() ==> #[trigger] ents2[k] == entries[k]);
            assert(ents2[ents2.len() - 1] == (p, e));
        }
        assert(no_file_ancestors(ents2));
    }
    // the remaining text is the serialized tail
    let new = ents.subrange(entries.len() as int, ents.len() as int);
    let rest = ents.subrange(ents2.len() as int, ents.len() as int);
    assert(new =~= seq![(p, e)] + rest);
    lemma_units_cons(new, root, w);
    assert(new[0] == (p, e));
    assert(new.drop_first() =~= rest);
    let units = units_of(new, root, w);
    let units_rest = units_of(rest, root, w);
    assert(units == seq![u] + units_rest);
    assert(units.len() == 1 + units_rest.len());
    if np == t.len() {
        assert(ents == ents2 && root matches None);
        assert(rest =~= Seq::<(Seq<char>, EntryModel)>::empty());
        assert(units_rest =~= Seq::<Seq<char>>::empty());
        assert(units =~= seq![u]);
        assert(join_units(units) == u);
        assert(t.subrange(pos, t.len() as int) =~= t.subrange(pos, bpos) + t.subrange(
            bpos,
            t.len() as int,
        ));
        if t.subrange(bpos, t.len() as int) == path_part_seq(p, e, w) {
            assert(t.subrange(pos, t.len() as int) =~= u);
        } else {
            assert(e.data is Directory);
            assert(t.subrange(pos, t.len() as int) =~= u + seq!['\n']);
            assert(new.last() == (p, e)) by {
                assert(new[new.len() - 1] == ents[ents.len() - 1]);
            }
            assert(ends_with_directory(new, root));
        }
    } else {
        // the rest of the text starts at a marker and holds more blocks
        assert(ents.len() > ents2.len() || root is Some);
        assert(units_rest.len() >= 1);
        let tail_rest = join_units(units_rest);
        assert(units[0] == u);
        assert(units.drop_first() =~= units_rest);
        assert(join_units(units) == u + seq!['\n'] + tail_rest);
        assert(t.subrange(pos, t.len() as int) =~= t.subrange(pos, np - 1) + seq![t[np - 1]]
            + t.subrange(np, t.len() as int));
        assert(t.subrange(pos, np - 1) =~= cpart + path_part_seq(p, e, w)) by {
            assert(t.subrange(pos, np - 1) =~= t.subrange(pos, bpos) + t.subrange(bpos, np - 1));
        }
        if t.subrange(np, t.len() as int) == tail_rest {
            assert(t.subrange(pos, t.len() as int) =~= u + seq!['\n'] + tail_rest);
        } else {
            assert(ends_with_directory(rest, root));
            assert(t.subrange(np, t.len() as int) == tail_rest + seq!['\n']);
            assert(t.subrange(pos, t.len() as int) =~= (u + seq!['\n'] + tail_rest) + seq!['\n']);
            assert(new.last() == rest.last()) by {
                assert(new[new.len() - 1] == ents[ents.len() - 1]);
                assert(rest[rest.len() - 1] == ents[ents.len() - 1]);
            }
            assert(ends_with_directory(new, root));
        }
    }
}

// ---------------------------------------------------------------------------
// The reverse direction: serialized archives parse back to themselves
// ---------------------------------------------------------------------------
/// The line scan stops exactly at `e` when no earlier newline exists.
proof fn lemma_line_end_exact(t: Seq<char>, i: int, e: int)
    requires
        0 <= i <= e <= t.len(),
        forall|m: int| i <= m < e ==> (#[trigger] t[m]) != '\n',
        e == t.len() || t[e] == '\n',
    ensures
        line_end(t, i) == e,
    decreases e - i,
{
    if i < e {
        lemma_line_end_exact(t, i + 1, e);
    }
}

/// The section scan stops exactly at `e` when nothing earlier qualifies.
proof fn lemma_section_end_exact(t: Seq<char>, w: nat, i: int, e: int)
    requires
        0 <= i <= e <= t.len(),
        forall|m: int|
            i <= m < e ==> !((#[trigger] t[m]) == '\n' && marker_at(t, w, m + 1)),
        e == t.len() || (t[e] == '\n' && marker_at(t, w, e + 1)),
    ensures
        section_end(t, w, i) == e,
    decreases e - i,
{
    if i < e {
        lemma_section_end_exact(t, w, i + 1, e);
    }
}

/// No character of the boundary marker is a newline.
proof fn lemma_marker_chars(w: nat)
    ensures
        forall|k: int| 0 <= k < w + 2 ==> (#[trigger] marker_seq(w)[k]) != '\n',
{
    assert forall|k: int| 0 <= k < w + 2 implies (#[trigger] marker_seq(w)[k]) != '\n' by {
        if k == 0 {
            assert(marker_seq(w)[k] == '<');
        } else if k <= w {
            assert(marker_seq(w)[1 + (k - 1)] == '=');
        } else {
            assert(marker_seq(w)[w + 1 as int] == '>');
        }
    }
}

/// Inside a safe text laid out at `start` and closed off by a newline (or
/// the end of the text), the section scan stops exactly at the text's end.
proof fn lemma_section_scan_of_text(t: Seq<char>, w: nat, start: int, c: Seq<char>)
    requires
        0 <= start,
        start + c.len() <= t.len(),
        t.subrange(start, start + c.len() as int) == c,
        text_ok(c, w),
        start + c.len() == t.len() || (t[start + c.len() as int] == '\n' && marker_at(
            t,
            w,
            start + c.len() + 1,
        )),
    ensures
        section_end(t, w, start) == start + c.len(),
{
    let e = start + c.len() as int;
    lemma_marker_chars(w);
    assert forall|m: int| start <= m < e implies !((#[trigger] t[m]) == '\n' && marker_at(
        t,
        w,
        m + 1,
    )) by {
        if t[m] == '\n' && marker_at(t, w, m + 1) {
            if m + 1 + w + 2 <= e {
                // the forbidden substring would lie wholly inside the text
                lemma_marker_seq_at(t, w, m + 1);
                let q = m - start;
                assert(c.subrange(q, q + w + 3) =~= forbidden_seq(w)) by {
                    assert(forall|x: int|
                        0 <= x < c.len() ==> #[trigger] c[x] == t[start + x]);
                    assert(t.subrange(m + 1, m + 1 + w + 2) == marker_seq(w));
                    assert(forall|x: int|
                        0 <= x < w + 2 ==> #[trigger] t[m + 1 + x] == marker_seq(w)[x]);
                    assert(forbidden_seq(w)[0] == '\n');
                    assert(forall|x: int|
                        0 <= x < w + 2 ==> #[trigger] forbidden_seq(w)[1 + x] == marker_seq(w)[x]);
                }
                assert(matches_at(c, forbidden_seq(w), q));
                assert(false);
            } else {
                // the marker would run across the closing newline
                let k = e - (m + 1);
                assert(0 <= k < w + 2);
                assert(t[m + 1 + k] == marker_seq(w)[k]) by {
                    lemma_marker_seq_at(t, w, m + 1);
                    assert(t.subrange(m + 1, m + 1 + w + 2)[k] == t[m + 1 + k]);
                }
                assert(t[e] != '\n');
                assert(e == t.len() || t[e] == '\n');
                assert(m + 1 + k < t.len());
                assert(false);
            }
        }
    }
    lemma_section_end_exact(t, w, start, e);
}

/// A text closed off by a newline (or the end of the whole text) that does
/// not itself begin with the marker does not put a marker at its position.
proof fn lemma_no_marker_at_text(t: Seq<char>, w: nat, start: int, c: Seq<char>)
    requires
        0 <= start,
        start + c.len() <= t.len(),
        t.subrange(start, start + c.len() as int) == c,
        !marker_at(c, w, 0),
        start + c.len() == t.len() || t[start + c.len() as int] == '\n',
    ensures
        !marker_at(t, w, start),
{
    lemma_marker_chars(w);
    if marker_at(t, w, start) {
        lemma_marker_seq_at(t, w, start);
        assert(forall|x: int|
            0 <= x < w + 2 ==> #[trigger] t[start + x] == marker_seq(w)[x]) by {
            assert(t.subrange(start, start + w + 2) == marker_seq(w));
            assert(forall|x: int|
                0 <= x < w + 2 ==> t.subrange(start, start + w + 2)[x] == #[trigger] t[start + x]);
        }
        if c.len() >= w + 2 {
            assert(c.subrange(0, w + 2 as int) =~= marker_seq(w)) by {
                assert(forall|x: int| 0 <= x < c.len() ==> #[trigger] c[x] == t[start + x]);
            }
            lemma_marker_seq_at(c, w, 0);
            assert(false);
        } else {
            let k = c.len() as int;
            assert(t[start + k] == marker_seq(w)[k]);
            assert(false);
        }
    }
}

/// A valid path is non-empty, holds no newline, and does not end in a slash.
proof fn lemma_valid_path_props(p: Seq<char>)
    requires
        valid_path(p),
    ensures
        p.len() >= 1,
        forall|k: int| 0 <= k < p.len() ==> (#[trigger] p[k]) != '\n',
        p[p.len() - 1] != '/',
{
    lemma_path_chars_from(p, 0);
}

/// Character facts carried by a passing path scan from position `i` on.
proof fn lemma_path_chars_from(p: Seq<char>, i: int)
    requires
        0 <= i <= p.len(),
        path_err_from(p, i) is None,
    ensures
        i < p.len(),
        forall|k: int| i <= k < p.len() ==> (#[trigger] p[k]) != '\n',
        p[p.len() - 1] != '/',
    decreases p.len() - i,
{
    let k = comp_end(p, i);
    lemma_comp_end_props(p, i);
    assert(component_err(p, i, k) is None);
    assert(k > i);
    assert forall|x: int| i <= x < k implies (#[trigger] p[x]) != '\n' by {
        assert(!crate::model::forbidden_path_char(p[x]));
    }
    if k < p.len() {
        lemma_path_chars_from(p, k + 1);
    } else {
        lemma_comp_end_clean(p, i);
        assert(p[p.len() - 1] != '/');
    }
}

/// The component scan stops at the text's length or at a slash, and sees no
/// slash on the way.
proof fn lemma_comp_end_props(p: Seq<char>, i: int)
    requires
        0 <= i <= p.len(),
    ensures
        i <= comp_end(p, i) <= p.len(),
        comp_end(p, i) < p.len() ==> p[comp_end(p, i)] == '/',
    decreases p.len() - i,
{
    if i < p.len() && p[i] != '/' {
        lemma_comp_end_props(p, i + 1);
    }
}

/// No slash stands before the component end.
proof fn lemma_comp_end_clean(p: Seq<char>, i: int)
    requires
        0 <= i <= p.len(),
    ensures
        forall|m: int| i <= m < comp_end(p, i) ==> (#[trigger] p[m]) != '/',
    decreases p.len() - i,
{
    if i < p.len() && p[i] != '/' {
        lemma_comp_end_clean(p, i + 1);
    }
}

/// When no gathered entry carries the key, the scan reports none.
proof fn lemma_find_key_from_none(entries: Seq<(Seq<char>, EntryModel)>, p: Seq<char>, i: int)
    requires
        0 <= i,
        forall|k: int| i <= k < entries.len() ==> (#[trigger] entries[k]).0 != p,
    ensures
        find_key_from(entries, p, i) is None,
    decreases entries.len() - i,
{
    if i < entries.len() {
        lemma_find_key_from_none(entries, p, i + 1);
    }
}

/// When no gathered file entry is an ancestor of the path, the scan reports
/// none.
proof fn lemma_find_ancestor_from_none(entries: Seq<(Seq<char>, EntryModel)>, p: Seq<char>, i: int)
    requires
        0 <= i,
        forall|k: int|
            i <= k < entries.len() ==> !(strict_ancestor((#[trigger] entries[k]).0, p)
                && entries[k].1.data matches EntryDataModel::File { .. }),
    ensures
        find_file_ancestor_from(entries, p, i) is None,
    decreases entries.len() - i,
{
    if i < entries.len() {
        lemma_find_ancestor_from_none(entries, p, i + 1);
    }
}

/// A text safe at width `w` that does not itself begin with the boundary
/// marker: laid out in a document, it reads back as itself.
pub open spec fn text_reparsable(t: Seq<char>, w: nat) -> bool {
    text_ok(t, w) && !marker_at(t, w, 0)
}

pub open spec fn opt_reparsable(o: Option<Seq<char>>, w: nat) -> bool {
    match o {
        Some(t) => text_reparsable(t, w),
        None => true,
    }
}

pub open spec fn entry_reparsable(e: EntryModel, w: nat) -> bool {
    &&& opt_reparsable(e.comment, w)
    &&& match e.data {
        EntryDataModel::File { body } => opt_reparsable(body, w),
        EntryDataModel::Directory => true,
    }
}

/// No entry lies under an earlier file entry.
pub open spec fn no_file_ancestors(entries: Seq<(Seq<char>, EntryModel)>) -> bool {
    forall|i: int, j: int|
        0 <= i < j < entries.len() ==> !(strict_ancestor(
            (#[trigger] entries[i]).0,
            (#[trigger] entries[j]).0,
        ) && entries[i].1.data matches EntryDataModel::File { .. })
}

/// The blocks end with a directory header and nothing after it: the one
/// layout whose final newline, if present, has no form of its own.
pub open spec fn ends_with_directory(
    entries: Seq<(Seq<char>, EntryModel)>,
    root: Option<Seq<char>>,
) -> bool {
    root is None && entries.len() > 0 && entries.last().1.data is Directory
}

/// Reading back the text of one path-bearing block: the block parses to
/// exactly the entry it was written from, and consumes exactly its text.
proof fn lemma_path_block_reparse(
    t: Seq<char>,
    w: nat,
    hpos: int,
    comment: Option<Seq<char>>,
    acc: Seq<(Seq<char>, EntryModel)>,
    p: Seq<char>,
    e: EntryModel,
    nxt: int,
)
    requires
        0 <= hpos,
        e.comment == comment,
        valid_path(p),
        entry_reparsable(e, w),
        nxt == hpos + path_part_seq(p, e, w).len(),
        nxt <= t.len(),
        t.subrange(hpos, nxt) == path_part_seq(p, e, w),
        nxt == t.len() || (t[nxt] == '\n' && marker_at(t, w, nxt + 1)),
        forall|k: int| 0 <= k < acc.len() ==> (#[trigger] acc[k]).0 != p,
        forall|k: int|
            0 <= k < acc.len() ==> !(strict_ancestor((#[trigger] acc[k]).0, p) && acc[k].1.data
                matches EntryDataModel::File { .. }),
    ensures
        hpos + w + 2 < t.len() && t[hpos + w + 2] == ' ' && marker_at(t, w, hpos),
        parse_path_block_model(t, w, hpos, comment, acc) == Ok::<_, ErrorModel>(
            (
                acc.push((p, e)),
                if nxt == t.len() {
                    t.len() as int
                } else {
                    nxt + 1
                },
            ),
        ),
{
    lemma_valid_path_props(p);
    lemma_marker_chars(w);
    let header = crate::model::header_seq(p, e.data, w);
    let ppart = path_part_seq(p, e, w);
    let hl = hpos + header.len();
    let slash: Seq<char> = if e.data is Directory {
        seq!['/']
    } else {
        Seq::empty()
    };
    let bpart: Seq<char> = match e.data {
        EntryDataModel::File { body: Some(b) } => seq!['\n'] + b,
        _ => Seq::empty(),
    };
    assert(header == marker_seq(w) + seq![' '] + p + slash);
    assert(ppart == header + bpart);
    assert(forall|x: int| 0 <= x < ppart.len() ==> #[trigger] t[hpos + x] == ppart[x]) by {
        assert(forall|x: int|
            0 <= x < ppart.len() ==> t.subrange(hpos, nxt)[x] == #[trigger] t[hpos + x]);
    }
    // the marker, the space, the header line
    assert(t.subrange(hpos, hpos + w + 2) =~= marker_seq(w)) by {
        assert(forall|x: int| 0 <= x < w + 2 ==> #[trigger] ppart[x] == marker_seq(w)[x]);
    }
    lemma_marker_seq_at(t, w, hpos);
    assert(t[hpos + (w + 2)] == ppart[w + 2 as int]);
    assert(ppart[w + 2 as int] == ' ');
    let after = hpos + w + 2;
    assert(after < nxt <= t.len());
    assert(line_end(t, after + 1) == hl) by {
        assert(forall|m: int|
            after + 1 <= m < hl ==> (#[trigger] t[m]) != '\n') by {
            assert(forall|m: int|
                after + 1 <= m < hl ==> #[trigger] t[m] == ppart[m - hpos]);
            assert(forall|x: int|
                w + 3 <= x < header.len() ==> #[trigger] ppart[x] == (p + slash)[x - (w + 3)]);
            assert(forall|y: int| 0 <= y < p.len() ==> (#[trigger] p[y]) != '\n');
        }
        if hl < t.len() {
            if bpart.len() > 0 {
                assert(t[hl] == ppart[header.len() as int]);
                assert(ppart[header.len() as int] == '\n');
            } else {
                assert(hl == nxt);
            }
            lemma_line_end_exact(t, after + 1, hl);
        } else {
            assert(hl == nxt == t.len());
            lemma_line_end_exact(t, after + 1, hl);
        }
    }
    let l = line_end(t, after + 1);
    let rawline = t.subrange(after + 1, l);
    assert(rawline =~= p + slash) by {
        assert(forall|m: int|
            after + 1 <= m < hl ==> #[trigger] t[m] == ppart[m - hpos]);
        assert(forall|x: int|
            w + 3 <= x < header.len() ==> #[trigger] ppart[x] == (p + slash)[x - (w + 3)]);
    }
    let dir = rawline.len() > 0 && rawline[rawline.len() - 1] == '/';
    assert(dir == (e.data is Directory)) by {
        if e.data is Directory {
            assert(rawline[rawline.len() - 1] == slash[0]);
        } else {
            assert(rawline =~= p);
            assert(rawline[rawline.len() - 1] == p[p.len() - 1]);
        }
    }
    let rawpath = if dir {
        rawline.drop_last()
    } else {
        rawline
    };
    assert(rawpath =~= p);
    // the body section
    let start = l + 1;
    match e.data {
        EntryDataModel::Directory => {
            assert(bpart.len() == 0 && hl == nxt);
            if nxt == t.len() {
                assert(l >= t.len() || start >= t.len());
            } else {
                assert(t[l] == '\n' && marker_at(t, w, l + 1));
                assert(start < t.len());
            }
        },
        EntryDataModel::File { body: None } => {
            assert(bpart.len() == 0 && hl == nxt);
            if nxt == t.len() {
                assert(l >= t.len() || start >= t.len());
            } else {
                assert(t[l] == '\n' && marker_at(t, w, l + 1));
            }
        },
        EntryDataModel::File { body: Some(b) } => {
            assert(t[l] == '\n') by {
                assert(t[hl] == ppart[header.len() as int]);
            }
            assert(l < t.len());
            assert(start + b.len() == nxt);
            assert forall|y: int| 0 <= y < b.len() implies #[trigger] t.subrange(start, nxt)[y]
                == b[y] by {
                assert(t.subrange(start, nxt)[y] == t[start + y]);
                assert(t[hpos + (header.len() + 1 + y)] == ppart[header.len() + 1 + y]);
                assert(ppart[header.len() + 1 + y] == bpart[1 + y]);
                assert(bpart[1 + y] == b[y]);
            }
            assert(t.subrange(start, nxt) =~= b);
            if b.len() == 0 && nxt == t.len() {
                assert(start >= t.len());
                assert(b =~= Seq::<char>::empty());
            } else if b.len() == 0 {
                assert(start < t.len());
                assert(t[start] == '\n' && marker_at(t, w, start + 1));
                assert(!marker_at(t, w, start));
                assert(section_end(t, w, start) == start);
                assert(t.subrange(start, start) =~= b);
            } else {
                assert(start < t.len());
                lemma_no_marker_at_text(t, w, start, b);
                lemma_section_scan_of_text(t, w, start, b);
                assert(section_end(t, w, start) == nxt);
            }
        },
    }
    // the gathered entries do not collide
    lemma_find_key_from_none(acc, rawpath, 0);
    lemma_find_ancestor_from_none(acc, rawpath, 0);
    let res = parse_path_block_model(t, w, hpos, comment, acc);
    assert(res matches Ok((ents2, np)) && ents2 == acc.push((p, e)) && np == (if nxt == t.len() {
        t.len() as int
    } else {
        nxt + 1
    })) by {
        let built = EntryModel {
            comment,
            data: match e.data {
                EntryDataModel::Directory => EntryDataModel::Directory,
                EntryDataModel::File { body } => EntryDataModel::File { body },
            },
        };
        assert(built =~~= e);
    }
}

/// An archive whose text form reads back as the same archive: its texts
/// pass content validation and none of them begins with the bare boundary
/// marker, its paths are valid and unique, and no entry lies under an
/// earlier file entry.
pub open spec fn reparsable(a: ArchiveModel) -> bool {
    &&& opt_reparsable(a.comment, a.boundary_length)
    &&& forall|k: int|
        0 <= k < a.entries.len() ==> entry_reparsable(
            (#[trigger] a.entries[k]).1,
            a.boundary_length,
        ) && valid_path(a.entries[k].0)
    &&& unique_keys(a.entries)
    &&& no_file_ancestors(a.entries)
}

/// Round trip, writing first: parsing the serialized form of a reparsable
/// archive gives back exactly that archive.
pub proof fn lemma_serialize_parse_round_trip(a: ArchiveModel)
    requires
        reparsable(a),
    ensures
        parse_model(serialize_model(a), a.boundary_length) == Ok::<ArchiveModel, ErrorModel>(a),
{
    let t = serialize_model(a);
    let w = a.boundary_length;
    let acc = Seq::<(Seq<char>, EntryModel)>::empty();
    assert(t.subrange(0, t.len() as int) =~= t);
    assert(acc + a.entries =~= a.entries);
    lemma_units_reparse(t, w, 0, acc, a.entries, a.comment);
    assert(parse_model(t, w) matches Ok(m) && m =~~= a);
}

/// Every block text begins with the boundary marker.
proof fn lemma_first_unit_marker(
    entries: Seq<(Seq<char>, EntryModel)>,
    root: Option<Seq<char>>,
    w: nat,
)
    requires
        units_of(entries, root, w).len() > 0,
    ensures
        units_of(entries, root, w)[0].len() >= w + 2,
        forall|x: int|
            0 <= x < w + 2 ==> #[trigger] units_of(entries, root, w)[0][x] == marker_seq(w)[x],
{
    let u0 = units_of(entries, root, w)[0];
    if entries.len() > 0 {
        let p = entries[0].0;
        let e = entries[0].1;
        assert(u0 == unit_seq(p, e, w));
        let ppart = path_part_seq(p, e, w);
        match e.comment {
            Some(c) => {
                assert(u0 == (marker_seq(w) + seq!['\n'] + c + seq!['\n']) + ppart);
                assert(forall|x: int|
                    0 <= x < w + 2 ==> #[trigger] u0[x] == marker_seq(w)[x]);
            },
            None => {
                assert(u0 =~= ppart);
                assert(forall|x: int|
                    0 <= x < w + 2 ==> #[trigger] u0[x] == marker_seq(w)[x]);
            },
        }
    } else {
        let c = root->Some_0;
        assert(u0 == root_unit_seq(c, w));
        assert(forall|x: int| 0 <= x < w + 2 ==> #[trigger] u0[x] == marker_seq(w)[x]);
    }
}

/// Reading back the text of all remaining blocks: parsing continues from
/// the gathered entries and returns exactly what was serialized.
#[verifier::rlimit(100)]
proof fn lemma_units_reparse(
    t: Seq<char>,
    w: nat,
    pos: int,
    acc: Seq<(Seq<char>, EntryModel)>,
    rest: Seq<(Seq<char>, EntryModel)>,
    root: Option<Seq<char>>,
)
    requires
        0 <= pos <= t.len(),
        t.subrange(pos, t.len() as int) == join_units(units_of(rest, root, w)),
        forall|k: int|
            0 <= k < rest.len() ==> entry_reparsable((#[trigger] rest[k]).1, w) && valid_path(
                rest[k].0,
            ),
        opt_reparsable(root, w),
        unique_keys(acc + rest),
        no_file_ancestors(acc + rest),
    ensures
        parse_rest_model(t, w, pos, acc) == Ok::<_, ErrorModel>((acc + rest, root)),
    decreases rest.len(), (match root {
        Some(_) => 1int,
        None => 0int,
    }), 1int,
{
    let whole = join_units(units_of(rest, root, w));
    assert(t.len() - pos == whole.len()) by {
        assert(t.subrange(pos, t.len() as int).len() == whole.len());
    }
    assert(forall|x: int| 0 <= x < whole.len() ==> #[trigger] t[pos + x] == whole[x]) by {
        assert(forall|x: int|
            0 <= x < whole.len() ==> t.subrange(pos, t.len() as int)[x] == #[trigger] t[pos + x]);
    }
    if rest.len() == 0 {
        match root {
            None => {
                assert(units_of(rest, root, w) =~= Seq::<Seq<char>>::empty());
                assert(pos >= t.len());
                assert(acc + rest =~= acc);
            },
            Some(c) => {
                let ru = root_unit_seq(c, w);
                assert(units_of(rest, root, w) =~= seq![ru]);
                assert(whole == ru);
                assert(ru == marker_seq(w) + seq!['\n'] + c);
                assert(t.subrange(pos, pos + w + 2) =~= marker_seq(w)) by {
                    assert(forall|x: int|
                        0 <= x < w + 2 ==> #[trigger] ru[x] == marker_seq(w)[x]);
                }
                lemma_marker_seq_at(t, w, pos);
                let after = pos + w + 2;
                assert(t[after] == '\n') by {
                    assert(t[pos + (w + 2)] == ru[w + 2 as int]);
                }
                let start = after + 1;
                assert(acc + rest =~= acc);
                if c.len() == 0 {
                    assert(start >= t.len());
                    assert(Some(c) == Some(Seq::<char>::empty())) by {
                        assert(c =~= Seq::<char>::empty());
                    }
                } else {
                    assert(start < t.len());
                    assert(t.subrange(start, t.len() as int) =~= c) by {
                        assert(forall|y: int|
                            0 <= y < c.len() ==> #[trigger] t[pos + (w + 3 + y)] == ru[w + 3 + y]);
                        assert(forall|y: int|
                            0 <= y < c.len() ==> #[trigger] ru[w + 3 + y] == c[y]);
                        assert(forall|y: int|
                            0 <= y < c.len() ==> t.subrange(start, t.len() as int)[y] == t[pos + (w
                                + 3 + y)]);
                    }
                    lemma_no_marker_at_text(t, w, start, c);
                    lemma_section_scan_of_text(t, w, start, c);
                    assert(section_end(t, w, start) == t.len());
                }
            },
        }
    } else {
        lemma_units_reparse_step(t, w, pos, acc, rest, root);
    }
}

/// One step of reading the blocks back: the first remaining entry's block.
#[verifier::rlimit(100)]
proof fn lemma_units_reparse_step(
    t: Seq<char>,
    w: nat,
    pos: int,
    acc: Seq<(Seq<char>, EntryModel)>,
    rest: Seq<(Seq<char>, EntryModel)>,
    root: Option<Seq<char>>,
)
    requires
        0 <= pos <= t.len(),
        rest.len() >= 1,
        t.subrange(pos, t.len() as int) == join_units(units_of(rest, root, w)),
        forall|k: int|
            0 <= k < rest.len() ==> entry_reparsable((#[trigger] rest[k]).1, w) && valid_path(
                rest[k].0,
            ),
        opt_reparsable(root, w),
        unique_keys(acc + rest),
        no_file_ancestors(acc + rest),
    ensures
        parse_rest_model(t, w, pos, acc) == Ok::<_, ErrorModel>((acc + rest, root)),
    decreases rest.len(), (match root {
        Some(_) => 1int,
        None => 0int,
    }), 0int,
{
    let whole = join_units(units_of(rest, root, w));
    assert(t.len() - pos == whole.len()) by {
        assert(t.subrange(pos, t.len() as int).len() == whole.len());
    }
    assert(forall|x: int| 0 <= x < whole.len() ==> #[trigger] t[pos + x] == whole[x]) by {
        assert(forall|x: int|
            0 <= x < whole.len() ==> t.subrange(pos, t.len() as int)[x] == #[trigger] t[pos + x]);
    }

    let p = rest[0].0;
    let e = rest[0].1;
    let rest2 = rest.drop_first();
    let u = unit_seq(p, e, w);
    lemma_units_cons(rest, root, w);
    let units2 = units_of(rest2, root, w);
    let cpart: Seq<char> = match e.comment {
        Some(c) => marker_seq(w) + seq!['\n'] + c + seq!['\n'],
        None => Seq::<char>::empty(),
    };
    let ppart = path_part_seq(p, e, w);
    assert(u == cpart + ppart);
    let single = units2.len() == 0;
    if single {
        assert(units_of(rest, root, w) =~= seq![u]);
        assert(whole == u);
    } else {
        assert((seq![u] + units2)[0] == u);
        assert((seq![u] + units2).drop_first() =~= units2);
        assert(whole == u + seq!['\n'] + join_units(units2));
    }
    assert(forall|x: int| 0 <= x < u.len() ==> #[trigger] whole[x] == u[x]);
    let hpos = pos + cpart.len();
    let nxt = hpos + ppart.len();
    assert(nxt == pos + u.len());
    assert(ppart.len() >= w + 4) by {
        lemma_valid_path_props(p);
    }
    // the path part of the block sits at hpos
    assert forall|y: int| 0 <= y < ppart.len() implies #[trigger] t.subrange(hpos, nxt)[y]
        == ppart[y] by {
        assert(t.subrange(hpos, nxt)[y] == t[hpos + y]);
        assert(t[pos + (cpart.len() + y)] == whole[cpart.len() + y]);
        assert(whole[cpart.len() + y] == u[cpart.len() + y]);
        assert(u[cpart.len() + y] == ppart[y]);
    }
    assert(t.subrange(hpos, nxt) =~= ppart);
    // what follows the block
    if !single {
        assert(t[nxt] == '\n') by {
            assert(t[pos + u.len()] == whole[u.len() as int]);
        }
        lemma_first_unit_marker(rest2, root, w);
        let u2 = units2[0];
        let join2 = join_units(units2);
        assert(forall|x: int| 0 <= x < u2.len() ==> #[trigger] join2[x] == u2[x]) by {
            if units2.len() > 1 {
                assert(join2 == u2 + seq!['\n'] + join_units(units2.drop_first()));
            }
        }
        assert(nxt + 1 + w + 2 <= t.len()) by {
            assert(whole.len() == u.len() + 1 + join2.len());
            assert(join2.len() >= u2.len() >= w + 2);
        }
        assert forall|x: int| 0 <= x < w + 2 implies #[trigger] t.subrange(
            nxt + 1,
            nxt + 1 + w + 2,
        )[x] == marker_seq(w)[x] by {
            assert(t.subrange(nxt + 1, nxt + 1 + w + 2)[x] == t[nxt + 1 + x]);
            assert(t[pos + (u.len() + 1 + x)] == whole[u.len() + 1 + x]);
            assert(whole[u.len() + 1 + x] == join2[x]);
            assert(join2[x] == u2[x]);
            assert(u2[x] == marker_seq(w)[x]);
        }
        assert(t.subrange(nxt + 1, nxt + 1 + w + 2) =~= marker_seq(w));
        lemma_marker_seq_at(t, w, nxt + 1);
    } else {
        assert(nxt == t.len());
    }
    // freshness of the new path among the gathered entries
    assert forall|k: int| 0 <= k < acc.len() implies (#[trigger] acc[k]).0 != p by {
        assert((acc + rest)[k] == acc[k]);
        assert((acc + rest)[acc.len() as int] == rest[0]);
    }
    assert forall|k: int|
        0 <= k < acc.len() implies !(strict_ancestor((#[trigger] acc[k]).0, p)
            && acc[k].1.data matches EntryDataModel::File { .. }) by {
        assert((acc + rest)[k] == acc[k]);
        assert((acc + rest)[acc.len() as int] == rest[0]);
    }
    lemma_path_block_reparse(t, w, hpos, e.comment, acc, p, e, nxt);
    let np = if nxt == t.len() {
        t.len() as int
    } else {
        nxt + 1
    };
    // walk the grammar from `pos` up to the path block
    match e.comment {
        None => {
            assert(hpos == pos);
        },
        Some(c) => {
            assert(cpart.len() == w + 4 + c.len());
            assert(t.subrange(pos, pos + w + 2) =~= marker_seq(w)) by {
                assert(forall|x: int|
                    0 <= x < w + 2 ==> #[trigger] u[x] == marker_seq(w)[x]);
                assert(forall|x: int|
                    0 <= x < w + 2 ==> t.subrange(pos, pos + w + 2)[x] == #[trigger] t[pos + x]);
            }
            lemma_marker_seq_at(t, w, pos);
            let after = pos + w + 2;
            assert(t[after] == '\n') by {
                assert(t[pos + (w + 2)] == whole[w + 2 as int]);
                assert(whole[w + 2 as int] == u[w + 2 as int]);
                assert(u[w + 2 as int] == cpart[w + 2 as int]);
            }
            let cstart = after + 1;
            assert(cstart + c.len() == hpos - 1);
            assert(cstart < t.len());
            assert forall|y: int| 0 <= y < c.len() implies #[trigger] t.subrange(
                cstart,
                cstart + c.len() as int,
            )[y] == c[y] by {
                assert(t.subrange(cstart, cstart + c.len() as int)[y] == t[cstart + y]);
                assert(t[pos + (w + 3 + y)] == whole[w + 3 + y]);
                assert(whole[w + 3 + y] == u[w + 3 + y]);
                assert(u[w + 3 + y] == cpart[w + 3 + y]);
                assert(cpart[w + 3 + y] == c[y]);
            }
            assert(t.subrange(cstart, cstart + c.len() as int) =~= c);
            assert(t[cstart + c.len()] == '\n') by {
                assert(t[pos + (cpart.len() - 1)] == whole[cpart.len() - 1]);
                assert(whole[cpart.len() - 1] == u[cpart.len() - 1]);
                assert(u[cpart.len() - 1] == cpart[cpart.len() - 1]);
                assert(cpart[cpart.len() - 1] == '\n');
            }
            lemma_no_marker_at_text(t, w, cstart, c);
            lemma_section_scan_of_text(t, w, cstart, c);
            assert(section_end(t, w, cstart) == cstart + c.len());
            assert(cstart + c.len() < t.len());
        },
    }
    // recurse over the remaining blocks
    let acc2 = acc.push((p, e));
    assert(acc + rest =~= acc2 + rest2);
    assert forall|y: int| 0 <= y < t.len() - np implies #[trigger] t.subrange(
        np,
        t.len() as int,
    )[y] == join_units(units2)[y] by {
        assert(t.subrange(np, t.len() as int)[y] == t[np + y]);
        if !single {
            assert(t[pos + (u.len() + 1 + y)] == whole[u.len() + 1 + y]);
            assert(whole[u.len() + 1 + y] == join_units(units2)[y]);
        }
    }
    assert(t.subrange(np, t.len() as int) =~= join_units(units2)) by {
        if single {
            assert(units2 =~= Seq::<Seq<char>>::empty());
        } else {
            assert(t.len() - np == join_units(units2).len());
        }
    }
    assert(forall|k: int|
        0 <= k < rest2.len() ==> entry_reparsable((#[trigger] rest2[k]).1, w) && valid_path(
            rest2[k].0,
        )) by {
        assert(forall|k: int|
            0 <= k < rest2.len() ==> (#[trigger] rest2[k]) == rest[k + 1]);
    }
    lemma_units_reparse(t, w, np, acc2, rest2, root);
    assert(parse_rest_model(t, w, np, acc2) == Ok::<_, ErrorModel>((acc2 + rest2, root)));
    assert((acc2 + rest2, root) == ((acc + rest, root)));
}

} // verus!
