//! The serializer: re-emits an archive as text, after content validation.

use vstd::prelude::*;

use crate::error::HrxError;
use crate::model::{
    check_model, join_units, lemma_join_push, marker_seq, path_part_seq, root_unit_seq,
    serialize_model, unit_seq, units_of, BodyTagModel, EntryDataModel, EntryModel, ErrorModel,
};
use crate::repr::{boundary_string, path_string, HrxArchive, HrxEntryData};

verus! {

impl HrxArchive {
    /// Writes the archive's text onto `into`, after content validation.
    ///
    /// On validation failure nothing is written and the path of the first
    /// offending comment or body is reported. On success the appended text
    /// is exactly the serialized form: each entry as an optional comment
    /// block followed by its path-bearing header and body, then the root
    /// comment as a trailing comment block, with single newlines between
    /// consecutive blocks.
    #[verifier::rlimit(100)]
    pub fn serialise(&self, into: &mut String) -> (r: Result<(), HrxError>)
        ensures
            match r {
                Ok(()) => {
                    &&& check_model(self@, self@.boundary_length) == Ok::<(), BodyTagModel>(())
                    &&& final(into)@ == old(into)@ + serialize_model(self@)
                },
                Err(e) => {
                    &&& check_model(self@, self@.boundary_length) matches Err(tag) && e@
                        == ErrorModel::BodyContainsBoundary(tag)
                    &&& final(into)@ == old(into)@
                },
            },
    {
        let w = self.boundary_length.get();
        match self.validate_boundlen(w) {
            Err(e) => {
                return Err(e);
            },
            Ok(()) => {},
        }
        let m = boundary_string(w);
        let ghost ev = self@.entries;
        let ghost eu = ev.map(|k: int, pe: (Seq<char>, EntryModel)| unit_seq(pe.0, pe.1, w as nat));
        let ghost base = into@;
        proof {
            reveal_strlit("\n");
            reveal_strlit(" ");
            reveal_strlit("/");
        }
        let mut i: usize = 0;
        while i < self.entries.len()
            invariant
                i <= self.entries@.len(),
                w == self.boundary_length.spec_get(),
                m@ == marker_seq(w as nat),
                ev == self@.entries,
                ev.len() == self.entries@.len(),
                eu.len() == ev.len(),
                forall|k: int|
                    0 <= k < ev.len() ==> #[trigger] eu[k] == unit_seq(ev[k].0, ev[k].1, w as nat),
                into@ == base + join_units(eu.take(i as int)),
            decreases self.entries@.len() - i,
        {
            proof {
                reveal_strlit("\n");
                reveal_strlit(" ");
                reveal_strlit("/");
                assert(ev[i as int] == (self.entries@[i as int].0@, self.entries@[i as int].1@));
            }
            let ghost before = into@;
            let pe = &self.entries[i];
            if i > 0 {
                into.append("\n");
            }
            let ghost sep = into@;
            match &pe.1.comment {
                Some(c) => {
                    into.append(m.as_str());
                    into.append("\n");
                    into.append(c.as_str());
                    into.append("\n");
                },
                None => {},
            }
            into.append(m.as_str());
            into.append(" ");
            into.append(path_string(&pe.0).as_str());
            match &pe.1.data {
                HrxEntryData::Directory => {
                    into.append("/");
                },
                HrxEntryData::File { body } => {
                    match body {
                        Some(b) => {
                            into.append("\n");
                            into.append(b.as_str());
                        },
                        None => {},
                    }
                },
            }
            proof {
                let p = ev[i as int].0;
                let e = ev[i as int].1;
                assert(into@ =~= sep + unit_seq(p, e, w as nat));
                lemma_join_push(eu.take(i as int), eu[i as int]);
                assert(eu.take(i as int).push(eu[i as int]) =~= eu.take(i + 1));
                assert(into@ =~= base + join_units(eu.take(i + 1)));
            }
            i += 1;
        }
        proof {
            assert(eu.take(ev.len() as int) =~= eu);
        }
        match &self.comment {
            Some(c) => {
                if self.entries.len() > 0 {
                    into.append("\n");
                }
                into.append(m.as_str());
                into.append("\n");
                into.append(c.as_str());
                proof {
                    reveal_strlit("\n");
                    lemma_join_push(eu, root_unit_seq(c@, w as nat));
                    assert(eu.push(root_unit_seq(c@, w as nat)) =~= units_of(
                        ev,
                        self@.comment,
                        w as nat,
                    ));
                    assert(into@ =~= base + serialize_model(self@));
                }
            },
            None => {
                proof {
                    assert(eu =~= units_of(ev, self@.comment, w as nat));
                    assert(into@ =~= base + serialize_model(self@));
                }
            },
        }
        Ok(())
    }
}

} // verus!
