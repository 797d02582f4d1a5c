//! Rebuilding the index from the note files: which notes are written to the
//! index, which are reported, and which index rows are dropped.

use vstd::prelude::*;
use crate::documents::{IndexedDocument, IndexStatus, StorageIssue};
use crate::normalize::opt_view;
use crate::text::{views, copy_string};
use crate::names::contains_string;

verus! {

/// A Markdown file found in the notes directory, with the outcome of reading
/// it as a note.
#[derive(Debug)]
pub struct NoteCandidate {
    pub relative_path: String,
    pub document: Result<IndexedDocument, String>,
}

/// What a rebuild does: the documents to write to the index, in order, the
/// issues to report, and the ids of the indexed documents.
#[derive(Debug)]
pub struct RebuildPlan {
    pub upserts: Vec<IndexedDocument>,
    pub issues: Vec<StorageIssue>,
    pub indexed_ids: Vec<String>,
}

/// The kind, message and path of an issue.
pub open spec fn issue_view(i: StorageIssue) -> (Seq<char>, Seq<char>, Option<Seq<char>>) {
    (i.kind@, i.message@, opt_view(i.relative_path))
}

/// The plan for a list of candidates, taken in order: a note whose id was
/// already seen is reported as a duplicate, a note that could not be read
/// is reported as invalid with the reading error, and every other note is
/// indexed.
pub open spec fn planned(cands: Seq<NoteCandidate>) -> (
    Seq<IndexedDocument>,
    Seq<(Seq<char>, Seq<char>, Option<Seq<char>>)>,
    Seq<Seq<char>>,
)
    decreases cands.len(),
{
    if cands.len() == 0 {
        (Seq::empty(), Seq::empty(), Seq::empty())
    } else {
        let (ups, issues, ids) = planned(cands.drop_last());
        let c = cands.last();
        match c.document {
            Ok(doc) => if ids.contains(doc.item.id@) {
                (
                    ups,
                    issues.push(
                        (
                            "duplicateDocumentId"@,
                            "duplicate document id: "@ + doc.item.id@,
                            Some(c.relative_path@),
                        ),
                    ),
                    ids,
                )
            } else {
                (ups.push(doc), issues, ids.push(doc.item.id@))
            },
            Err(e) => (
                ups,
                issues.push(("invalidDocument"@, e@, Some(c.relative_path@))),
                ids,
            ),
        }
    }
}

/// The ids of the documents of a list.
pub open spec fn document_ids(docs: Seq<IndexedDocument>) -> Seq<Seq<char>> {
    docs.map_values(|d: IndexedDocument| d.item.id@)
}

/// No id occurs twice.
pub open spec fn distinct(s: Seq<Seq<char>>) -> bool {
    forall|i: int, j: int| 0 <= i < j < s.len() ==> s[i] != s[j]
}

/// Each note is either indexed or reported; the indexed ids are those of the
/// written documents, in order, and none occurs twice.
pub proof fn lemma_plan_accounts_for_every_note(cands: Seq<NoteCandidate>)
    ensures
        planned(cands).0.len() + planned(cands).1.len() == cands.len(),
        document_ids(planned(cands).0) == planned(cands).2,
        distinct(planned(cands).2),
    decreases cands.len(),
{
    if cands.len() > 0 {
        lemma_plan_accounts_for_every_note(cands.drop_last());
        let (ups, issues, ids) = planned(cands.drop_last());
        let c = cands.last();
        if let Ok(doc) = c.document {
            if !ids.contains(doc.item.id@) {
                assert(document_ids(ups.push(doc)) =~= document_ids(ups).push(doc.item.id@));
                let n = ids.push(doc.item.id@);
                assert forall|i: int, j: int| 0 <= i < j < n.len() implies n[i] != n[j] by {
                    if j == n.len() - 1 {
                        assert(n[i] == ids[i]);
                    }
                }
            }
        }
    }
}

/// The candidate could be read as a note with id `t`.
pub open spec fn reads_as(c: NoteCandidate, t: Seq<char>) -> bool {
    c.document matches Ok(d) && d.item.id@ == t
}

/// A note is identified by the id in its frontmatter, whatever its file is
/// called: the indexed ids are exactly the ids of the notes that could be
/// read, each once.
pub proof fn lemma_indexed_ids_are_note_ids(cands: Seq<NoteCandidate>)
    ensures
        forall|t: Seq<char>|
            #[trigger] planned(cands).2.contains(t) <==> exists|i: int|
                0 <= i < cands.len() && #[trigger] reads_as(cands[i], t),
    decreases cands.len(),
{
    if cands.len() > 0 {
        let p = cands.drop_last();
        lemma_indexed_ids_are_note_ids(p);
        let ids = planned(p).2;
        let n = planned(cands).2;
        let c = cands.last();
        let last = cands.len() - 1;
        assert(cands[last] == c);
        assert forall|t: Seq<char>| #[trigger] n.contains(t) <==> exists|i: int|
            0 <= i < cands.len() && #[trigger] reads_as(cands[i], t) by {
            let new_id = match c.document {
                Ok(d) => !ids.contains(d.item.id@),
                Err(_) => false,
            };
            if new_id {
                assert(n == ids.push(c.document->Ok_0.item.id@));
            } else {
                assert(n == ids);
            }
            if n.contains(t) {
                if ids.contains(t) {
                    let i = choose|i: int| 0 <= i < p.len() && #[trigger] reads_as(p[i], t);
                    assert(cands[i] == p[i]);
                    assert(reads_as(cands[i], t));
                } else {
                    let k = choose|k: int| 0 <= k < n.len() && n[k] == t;
                    if k < ids.len() {
                        assert(ids[k] == n[k]);
                    }
                    assert(reads_as(cands[last], t));
                }
            }
            if exists|i: int| 0 <= i < cands.len() && #[trigger] reads_as(cands[i], t) {
                let i = choose|i: int| 0 <= i < cands.len() && #[trigger] reads_as(cands[i], t);
                if i < p.len() {
                    assert(p[i] == cands[i]);
                    assert(reads_as(p[i], t));
                    assert(ids.contains(t));
                    let k = choose|k: int| 0 <= k < ids.len() && ids[k] == t;
                    assert(n[k] == ids[k]);
                } else {
                    assert(i == last);
                    if !ids.contains(t) {
                        assert(n[n.len() - 1] == t);
                    }
                    else {
                        let k = choose|k: int| 0 <= k < ids.len() && ids[k] == t;
                        assert(n[k] == ids[k]);
                    }
                }
            }
        }
    }
}

/// Of several notes carrying the same id, the first is indexed: every
/// written document is what some note was read as, and no earlier note
/// carries its id.
pub proof fn lemma_first_note_of_an_id_wins(cands: Seq<NoteCandidate>)
    ensures
        forall|k: int|
            0 <= k < planned(cands).0.len() ==> exists|i: int|
                0 <= i < cands.len() && cands[i].document == Ok::<IndexedDocument, String>(
                    #[trigger] planned(cands).0[k],
                ) && forall|j: int| 0 <= j < i ==> !reads_as(cands[j], planned(cands).0[k].item.id@),
    decreases cands.len(),
{
    if cands.len() > 0 {
        let p = cands.drop_last();
        lemma_first_note_of_an_id_wins(p);
        lemma_indexed_ids_are_note_ids(p);
        let (ups, issues, ids) = planned(p);
        let n = planned(cands).0;
        let last = cands.len() - 1;
        assert(cands[last] == cands.last());
        assert forall|k: int| 0 <= k < n.len() implies exists|i: int|
            0 <= i < cands.len() && cands[i].document == Ok::<IndexedDocument, String>(
                #[trigger] n[k],
            ) && forall|j: int| 0 <= j < i ==> !reads_as(cands[j], n[k].item.id@) by {
            if k < ups.len() {
                assert(n[k] == ups[k]);
                let i = choose|i: int|
                    0 <= i < p.len() && p[i].document == Ok::<IndexedDocument, String>(ups[k])
                        && forall|j: int| 0 <= j < i ==> !reads_as(p[j], ups[k].item.id@);
                assert(cands[i] == p[i]);
                assert forall|j: int| 0 <= j < i implies !reads_as(cands[j], n[k].item.id@) by {
                    assert(cands[j] == p[j]);
                }
            } else {
                let doc = cands.last().document->Ok_0;
                assert(n[k] == doc);
                assert(!ids.contains(doc.item.id@));
                assert forall|j: int| 0 <= j < last implies !reads_as(cands[j], doc.item.id@) by {
                    assert(cands[j] == p[j]);
                    if reads_as(p[j], doc.item.id@) {
                        assert(ids.contains(doc.item.id@));
                    }
                }
            }
        }
    }
}

/// Every note that could not be read is reported as invalid with its
/// reading error and path, and every note whose id an earlier note already
/// carries is reported as a duplicate with its path.
pub proof fn lemma_skipped_notes_are_reported(cands: Seq<NoteCandidate>)
    ensures
        forall|i: int|
            0 <= i < cands.len() && (#[trigger] cands[i]).document is Err ==> planned(cands).1.contains(
                ("invalidDocument"@, cands[i].document->Err_0@, Some(cands[i].relative_path@)),
            ),
        forall|i: int, j: int|
            0 <= j < i < cands.len() && (#[trigger] cands[i]).document is Ok && reads_as(
                #[trigger] cands[j],
                cands[i].document->Ok_0.item.id@,
            ) ==> planned(cands).1.contains(
                (
                    "duplicateDocumentId"@,
                    "duplicate document id: "@ + cands[i].document->Ok_0.item.id@,
                    Some(cands[i].relative_path@),
                ),
            ),
    decreases cands.len(),
{
    if cands.len() > 0 {
        let p = cands.drop_last();
        lemma_skipped_notes_are_reported(p);
        lemma_indexed_ids_are_note_ids(p);
        let (ups, issues, ids) = planned(p);
        let n = planned(cands).1;
        let last = cands.len() - 1;
        let c = cands.last();
        assert(cands[last] == c);
        assert forall|x: (Seq<char>, Seq<char>, Option<Seq<char>>)| issues.contains(x) implies n.contains(
            x,
        ) by {
            let k = choose|k: int| 0 <= k < issues.len() && issues[k] == x;
            if n != issues {
                assert(n[k] == issues[k]);
            }
        }
        assert forall|i: int|
            0 <= i < cands.len() && (#[trigger] cands[i]).document is Err implies n.contains(
            ("invalidDocument"@, cands[i].document->Err_0@, Some(cands[i].relative_path@)),
        ) by {
            if i < last {
                assert(cands[i] == p[i]);
            } else {
                assert(n[n.len() - 1] == (
                    "invalidDocument"@,
                    c.document->Err_0@,
                    Some(c.relative_path@),
                ));
            }
        }
        assert forall|i: int, j: int|
            0 <= j < i < cands.len() && (#[trigger] cands[i]).document is Ok && reads_as(
                #[trigger] cands[j],
                cands[i].document->Ok_0.item.id@,
            ) implies n.contains(
            (
                "duplicateDocumentId"@,
                "duplicate document id: "@ + cands[i].document->Ok_0.item.id@,
                Some(cands[i].relative_path@),
            ),
        ) by {
            assert(cands[j] == p[j]);
            if i < last {
                assert(cands[i] == p[i]);
            } else {
                assert(reads_as(p[j], c.document->Ok_0.item.id@));
                assert(ids.contains(c.document->Ok_0.item.id@));
                assert(n[n.len() - 1] == (
                    "duplicateDocumentId"@,
                    "duplicate document id: "@ + c.document->Ok_0.item.id@,
                    Some(c.relative_path@),
                ));
            }
        }
    }
}

/// The plan of a rebuild over the Markdown files of the notes directory
/// (see `planned`).
pub fn plan_rebuild(candidates: Vec<NoteCandidate>) -> (r: RebuildPlan)
    ensures
        r.upserts@ == planned(candidates@).0,
        r.issues@.map_values(|i: StorageIssue| issue_view(i)) == planned(candidates@).1,
        views(r.indexed_ids@) == planned(candidates@).2,
{
    let mut upserts: Vec<IndexedDocument> = Vec::new();
    let mut issues: Vec<StorageIssue> = Vec::new();
    let mut ids: Vec<String> = Vec::new();
    let ghost all = candidates@;
    for c in it: candidates
        invariant
            it.seq() == all,
            ({
                let (u, i, d) = planned(all.take(it.index() as int));
                &&& upserts@ == u
                &&& issues@.map_values(|x: StorageIssue| issue_view(x)) == i
                &&& views(ids@) == d
            }),
    {
        let ghost k = it.index() as int;
        let ghost before_issues = issues@.map_values(|x: StorageIssue| issue_view(x));
        let ghost before_ids = views(ids@);
        proof {
            assert(all.take(k + 1).drop_last() == all.take(k));
            assert(all.take(k + 1).last() == all[k]);
        }
        let NoteCandidate { relative_path, document } = c;
        match document {
            Ok(doc) => {
                if contains_string(&ids, &doc.item.id) {
                    let message = String::from_str("duplicate document id: ").concat(
                        doc.item.id.as_str(),
                    );
                    issues.push(
                        StorageIssue {
                            kind: String::from_str("duplicateDocumentId"),
                            message,
                            relative_path: Some(relative_path),
                        },
                    );
                    proof {
                        assert(issues@.map_values(|x: StorageIssue| issue_view(x)) =~= before_issues.push(
                            issue_view(issues@.last()),
                        ));
                    }
                } else {
                    ids.push(copy_string(&doc.item.id));
                    proof {
                        assert(views(ids@) =~= before_ids.push(doc.item.id@));
                    }
                    upserts.push(doc);
                }
            },
            Err(e) => {
                issues.push(
                    StorageIssue {
                        kind: String::from_str("invalidDocument"),
                        message: e,
                        relative_path: Some(relative_path),
                    },
                );
                proof {
                    assert(issues@.map_values(|x: StorageIssue| issue_view(x)) =~= before_issues.push(
                        issue_view(issues@.last()),
                    ));
                }
            },
        }
    }
    proof {
        assert(all.take(all.len() as int) == all);
    }
    RebuildPlan { upserts, issues, indexed_ids: ids }
}

/// The ids of `existing` that are not among `indexed`, in their order.
pub open spec fn not_indexed(existing: Seq<Seq<char>>, indexed: Seq<Seq<char>>) -> Seq<Seq<char>>
    decreases existing.len(),
{
    if existing.len() == 0 {
        existing
    } else if indexed.contains(existing.last()) {
        not_indexed(existing.drop_last(), indexed)
    } else {
        not_indexed(existing.drop_last(), indexed).push(existing.last())
    }
}

proof fn lemma_not_indexed_members(existing: Seq<Seq<char>>, indexed: Seq<Seq<char>>)
    ensures
        forall|t: Seq<char>|
            #[trigger] not_indexed(existing, indexed).contains(t) <==> existing.contains(t)
                && !indexed.contains(t),
    decreases existing.len(),
{
    if existing.len() > 0 {
        let p = existing.drop_last();
        lemma_not_indexed_members(p, indexed);
        let n = not_indexed(existing, indexed);
        let np = not_indexed(p, indexed);
        assert forall|t: Seq<char>| #[trigger] n.contains(t) <==> existing.contains(t)
            && !indexed.contains(t) by {
            if existing.contains(t) {
                let k = choose|k: int| 0 <= k < existing.len() && existing[k] == t;
                if k < p.len() {
                    assert(p[k] == t);
                }
            }
            if p.contains(t) {
                let k = choose|k: int| 0 <= k < p.len() && p[k] == t;
                assert(existing[k] == t);
            }
            if !indexed.contains(existing.last()) {
                assert(n == np.push(existing.last()));
                if n.contains(t) {
                    let k = choose|k: int| 0 <= k < n.len() && n[k] == t;
                    if k < np.len() {
                        assert(np[k] == t);
                    }
                }
                if np.contains(t) {
                    let k = choose|k: int| 0 <= k < np.len() && np[k] == t;
                    assert(n[k] == t);
                }
                assert(n[n.len() - 1] == existing.last());
                assert(existing[existing.len() - 1] == existing.last());
            }
        }
    }
}

/// Rebuilding from the note files does not depend on what the index held
/// before, not even on whether it existed: whatever ids it held, once the
/// indexed documents are written and the rows that are not indexed are
/// removed, the index holds exactly the ids of the indexed notes.
pub proof fn lemma_rebuild_restores_index(existing: Seq<Seq<char>>, indexed: Seq<Seq<char>>)
    ensures
        existing.to_set().union(indexed.to_set()).difference(
            not_indexed(existing, indexed).to_set(),
        ) == indexed.to_set(),
{
    lemma_not_indexed_members(existing, indexed);
    assert(existing.to_set().union(indexed.to_set()).difference(
        not_indexed(existing, indexed).to_set(),
    ) =~= indexed.to_set());
}

/// The ids held by the index that belong to no indexed note; their rows are
/// removed at the end of a rebuild.
pub fn missing_document_ids(existing: Vec<String>, indexed: &Vec<String>) -> (r: Vec<String>)
    ensures
        views(r@) == not_indexed(views(existing@), views(indexed@)),
{
    let mut r: Vec<String> = Vec::new();
    let ghost all = views(existing@);
    let mut i: usize = 0;
    while i < existing.len()
        invariant
            i <= existing.len(),
            all == views(existing@),
            views(r@) == not_indexed(all.take(i as int), views(indexed@)),
        decreases existing.len() - i,
    {
        proof {
            assert(all.take(i + 1).drop_last() == all.take(i as int));
            assert(all.take(i + 1).last() == existing@[i as int]@);
        }
        if !contains_string(indexed, &existing[i]) {
            let ghost before = views(r@);
            r.push(copy_string(&existing[i]));
            proof {
                assert(views(r@) =~= before.push(existing@[i as int]@));
            }
        }
        i = i + 1;
    }
    proof {
        assert(all.take(all.len() as int) == all);
    }
    r
}

/// What a rebuild reports: how many documents were indexed, and the issues.
pub fn index_status(plan: RebuildPlan) -> (r: IndexStatus)
    ensures
        r.document_count == plan.indexed_ids.len(),
        r.issue_count == plan.issues.len(),
        r.issues@ == plan.issues@,
{
    let document_count = plan.indexed_ids.len();
    let issue_count = plan.issues.len();
    IndexStatus { document_count, issue_count, issues: plan.issues }
}

} // verus!
