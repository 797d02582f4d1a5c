//! Searching documents: what is asked of the full-text index, and how its
//! hits are filtered and ordered.

use vstd::prelude::*;
use crate::documents::{DocumentFilter, DocumentListItem, SearchInput, SearchResult};
use crate::normalize::{
    opt_view, normalized_optional, normalized_tag, normalized_tag_set, normalize_optional_string,
    normalize_tags,
};
use crate::order::{
    lex_lt, lex_less, lemma_lex_transitive, lemma_lex_asymmetric, lemma_lex_total,
    lemma_lex_irreflexive,
};
use crate::query::{sanitized_query, sanitize_fts_query};
use crate::text::{views, copy_option, is_empty_string, copy_string, trim, lowercase};
use crate::names::contains_string;
use crate::listing::{list_documents_in_vault, list_filters, matching_items};

verus! {

/// What a search asks of the index: a plain listing when the sanitized query
/// is empty, or a full-text match of the sanitized query.
pub enum SearchPlan {
    Listing(DocumentFilter),
    FullText(String),
}

/// The tags asked for by a search, or none.
pub open spec fn requested_tags(tags: Option<Vec<String>>) -> Seq<Seq<char>> {
    match tags {
        Some(t) => views(t@),
        None => Seq::empty(),
    }
}

/// The plan of a search: with an empty sanitized query, a listing restricted
/// to the category asked for and to the first tag asked for; otherwise a
/// full-text match of the sanitized query.
pub fn plan_search(input: &SearchInput) -> (r: SearchPlan)
    ensures
        match r {
            SearchPlan::Listing(f) => {
                &&& sanitized_query(input.query@).len() == 0
                &&& opt_view(f.category) == opt_view(input.category)
                &&& opt_view(f.tag) == (if requested_tags(input.tags).len() > 0 {
                    Some(requested_tags(input.tags)[0])
                } else {
                    None::<Seq<char>>
                })
                &&& f.query is None
            },
            SearchPlan::FullText(q) => {
                &&& sanitized_query(input.query@).len() > 0
                &&& q@ == sanitized_query(input.query@)
            },
        },
{
    let query = sanitize_fts_query(input.query.as_str());
    if is_empty_string(&query) {
        let tag = match &input.tags {
            Some(tags) => if tags.len() > 0 {
                Some(copy_string(&tags[0]))
            } else {
                None
            },
            None => None,
        };
        SearchPlan::Listing(
            DocumentFilter { category: copy_option(&input.category), tag, query: None },
        )
    } else {
        SearchPlan::FullText(query)
    }
}

/// Listed documents as search hits, with an empty snippet; `rank` is the
/// position in the listing.
pub fn listing_search_results(items: Vec<DocumentListItem>) -> (r: Vec<SearchResult>)
    ensures
        r.len() == items.len(),
        forall|i: int|
            #![trigger r@[i]]
            0 <= i < r.len() ==> {
                &&& r@[i].id == items@[i].id
                &&& r@[i].title == items@[i].title
                &&& r@[i].category == items@[i].category
                &&& r@[i].tags == items@[i].tags
                &&& r@[i].relative_path == items@[i].relative_path
                &&& r@[i].updated_at == items@[i].updated_at
                &&& r@[i].snippet@ == Seq::<char>::empty()
                &&& r@[i].rank == i
            },
{
    let mut r: Vec<SearchResult> = Vec::new();
    let ghost all = items@;
    let mut i: usize = 0;
    for item in it: items
        invariant
            it.seq() == all,
            i == it.index(),
            i <= all.len(),
            all.len() == items.len(),
            r.len() == i,
            forall|j: int|
                #![trigger r@[j]]
                0 <= j < i ==> {
                    &&& r@[j].id == all[j].id
                    &&& r@[j].title == all[j].title
                    &&& r@[j].category == all[j].category
                    &&& r@[j].tags == all[j].tags
                    &&& r@[j].relative_path == all[j].relative_path
                    &&& r@[j].updated_at == all[j].updated_at
                    &&& r@[j].snippet@ == Seq::<char>::empty()
                    &&& r@[j].rank == j
                },
    {
        let DocumentListItem { id, title, category, tags, relative_path, updated_at, .. } = item;
        r.push(
            SearchResult {
                id,
                title,
                category,
                tags,
                relative_path,
                updated_at,
                snippet: String::new(),
                rank: i,
            },
        );
        i = i + 1;
    }
    r
}

/// The listing that a search with an empty sanitized query runs: the
/// category asked for, the first tag asked for, and no query.
pub open spec fn empty_query_filter(input: SearchInput) -> DocumentFilter {
    DocumentFilter {
        category: input.category,
        tag: match input.tags {
            Some(t) => if t.len() > 0 {
                Some(t@[0])
            } else {
                None
            },
            None => None,
        },
        query: None,
    }
}

/// `hits` are the listed `items` as search hits, in order: the same fields,
/// an empty snippet, and their position as rank.
pub open spec fn listed_as_hits(hits: Seq<SearchResult>, items: Seq<DocumentListItem>) -> bool {
    &&& hits.len() == items.len()
    &&& forall|i: int|
        #![trigger hits[i]]
        0 <= i < hits.len() ==> {
            &&& hits[i].id == items[i].id
            &&& hits[i].title == items[i].title
            &&& hits[i].category == items[i].category
            &&& hits[i].tags == items[i].tags
            &&& hits[i].relative_path == items[i].relative_path
            &&& hits[i].updated_at == items[i].updated_at
            &&& hits[i].snippet@ == Seq::<char>::empty()
            &&& hits[i].rank == i
        }
}

/// The hits of a search whose sanitized query is empty, from the rows of
/// the index: exactly what the listing restricted to the category asked for
/// and the first tag asked for returns, in its order (the other tags and the
/// sort are not used). `None` when the sanitized query is not empty: such a
/// search goes to the full-text index.
pub fn search_without_query(input: &SearchInput, rows: Vec<DocumentListItem>) -> (r: Option<
    Vec<SearchResult>,
>)
    ensures
        r is None <==> sanitized_query(input.query@).len() > 0,
        r matches Some(hits) ==> listed_as_hits(
            hits@,
            matching_items(rows@, list_filters(Some(empty_query_filter(*input)))),
        ),
{
    match plan_search(input) {
        SearchPlan::Listing(f) => {
            proof {
                assert(list_filters(Some(f)) == list_filters(Some(empty_query_filter(*input))));
            }
            let items = list_documents_in_vault(rows, Some(f));
            let hits = listing_search_results(items);
            Some(hits)
        },
        SearchPlan::FullText(_) => None,
    }
}

/// A hit passes the restrictions of a search: its category is the one asked
/// for, and it carries every tag asked for.
pub open spec fn hit_matches(
    hit: SearchResult,
    category: Option<Seq<char>>,
    tags: Set<Seq<char>>,
) -> bool {
    &&& match category {
        Some(c) => opt_view(hit.category) == Some(c),
        None => true,
    }
    &&& forall|t: Seq<char>| tags.contains(t) ==> views(hit.tags@).contains(t)
}

/// The hits that pass the restrictions, in their order.
pub open spec fn matching_hits(
    rows: Seq<SearchResult>,
    category: Option<Seq<char>>,
    tags: Set<Seq<char>>,
) -> Seq<SearchResult>
    decreases rows.len(),
{
    if rows.len() == 0 {
        rows
    } else if hit_matches(rows.last(), category, tags) {
        matching_hits(rows.drop_last(), category, tags).push(rows.last())
    } else {
        matching_hits(rows.drop_last(), category, tags)
    }
}

/// `x` placed into a list ordered by update time, newest first: before the
/// first hit updated strictly earlier, so after every hit updated at the
/// same time.
pub open spec fn insert_by_update(sorted: Seq<SearchResult>, x: SearchResult) -> Seq<SearchResult>
    decreases sorted.len(),
{
    if sorted.len() == 0 {
        seq![x]
    } else if lex_lt(sorted[0].updated_at@, x.updated_at@) {
        seq![x] + sorted
    } else {
        seq![sorted[0]] + insert_by_update(sorted.drop_first(), x)
    }
}

/// The hits in order of update time, newest first, hits updated at the same
/// time keeping their order (the stable sort that `slice::sort_by` does).
pub open spec fn sorted_by_update(s: Seq<SearchResult>) -> Seq<SearchResult>
    decreases s.len(),
{
    if s.len() == 0 {
        s
    } else {
        insert_by_update(sorted_by_update(s.drop_last()), s.last())
    }
}

/// The hits of a full-text search as they are returned: filtered, and
/// ordered by update time when the sort `updatedAt` is asked for.
pub open spec fn full_text_results(
    rows: Seq<SearchResult>,
    category: Option<Seq<char>>,
    tags: Seq<Seq<char>>,
    sort: Option<Seq<char>>,
) -> Seq<SearchResult> {
    let kept = matching_hits(rows, normalized_optional(category), normalized_tag_set(tags));
    if sort == Some("updatedAt"@) {
        sorted_by_update(kept)
    } else {
        kept
    }
}

/// Update times never increase along the list.
pub open spec fn newest_first(s: Seq<SearchResult>) -> bool {
    forall|i: int, j: int|
        0 <= i < j < s.len() ==> !lex_lt(#[trigger] s[i].updated_at@, #[trigger] s[j].updated_at@)
}

proof fn lemma_insert_at(sorted: Seq<SearchResult>, x: SearchResult, p: int)
    requires
        0 <= p <= sorted.len(),
        forall|k: int| 0 <= k < p ==> !lex_lt(#[trigger] sorted[k].updated_at@, x.updated_at@),
        p < sorted.len() ==> lex_lt(sorted[p].updated_at@, x.updated_at@),
    ensures
        insert_by_update(sorted, x) == sorted.insert(p, x),
    decreases p,
{
    if p == 0 {
        if sorted.len() == 0 {
            assert(sorted.insert(0, x) =~= seq![x]);
        } else {
            assert(sorted.insert(0, x) =~= seq![x] + sorted);
        }
    } else {
        let rest = sorted.drop_first();
        assert forall|k: int| 0 <= k < p - 1 implies !lex_lt(#[trigger] rest[k].updated_at@, x.updated_at@) by {
            assert(rest[k] == sorted[k + 1]);
        }
        lemma_insert_at(rest, x, p - 1);
        assert(sorted.insert(p, x) =~= seq![sorted[0]] + rest.insert(p - 1, x));
    }
}

proof fn lemma_insert_keeps_order(sorted: Seq<SearchResult>, x: SearchResult, p: int)
    requires
        newest_first(sorted),
        0 <= p <= sorted.len(),
        forall|k: int| 0 <= k < p ==> !lex_lt(#[trigger] sorted[k].updated_at@, x.updated_at@),
        p < sorted.len() ==> lex_lt(sorted[p].updated_at@, x.updated_at@),
    ensures
        newest_first(sorted.insert(p, x)),
{
    let s = sorted.insert(p, x);
    assert forall|i: int, j: int| 0 <= i < j < s.len() implies !lex_lt(
        #[trigger] s[i].updated_at@,
        #[trigger] s[j].updated_at@,
    ) by {
        if i < p && j == p {
            assert(s[i] == sorted[i]);
        } else if i == p {
            let y = sorted[j - 1];
            assert(s[j] == y);
            // y is no newer than sorted[p], which is older than x.
            lemma_lex_asymmetric(sorted[p].updated_at@, x.updated_at@);
            if lex_lt(x.updated_at@, y.updated_at@) {
                if j - 1 > p {
                    assert(!lex_lt(sorted[p].updated_at@, y.updated_at@));
                    if sorted[p].updated_at@ != y.updated_at@ {
                        lemma_lex_total(sorted[p].updated_at@, y.updated_at@);
                        lemma_lex_transitive(y.updated_at@, sorted[p].updated_at@, x.updated_at@);
                        lemma_lex_asymmetric(y.updated_at@, x.updated_at@);
                    } else {
                        lemma_lex_asymmetric(sorted[p].updated_at@, x.updated_at@);
                    }
                } else {
                    lemma_lex_asymmetric(sorted[p].updated_at@, x.updated_at@);
                }
            }
        } else if i < p {
            assert(s[i] == sorted[i]);
            if j > p {
                assert(s[j] == sorted[j - 1]);
            } else {
                assert(s[j] == sorted[j]);
            }
        } else {
            assert(s[i] == sorted[i - 1] && s[j] == sorted[j - 1]);
        }
    }
}

/// Sorted hits are ordered newest first.
pub proof fn lemma_sorted_by_update_is_newest_first(s: Seq<SearchResult>)
    ensures
        newest_first(sorted_by_update(s)),
        sorted_by_update(s).len() == s.len(),
    decreases s.len(),
{
    if s.len() > 0 {
        lemma_sorted_by_update_is_newest_first(s.drop_last());
        let t = sorted_by_update(s.drop_last());
        let x = s.last();
        let p = insertion_point(t, x);
        lemma_insertion_point(t, x);
        lemma_insert_at(t, x, p);
        lemma_insert_keeps_order(t, x, p);
    }
}

/// Sorting neither loses nor adds hits.
pub proof fn lemma_sorted_by_update_permutes(s: Seq<SearchResult>)
    ensures
        sorted_by_update(s).to_multiset() == s.to_multiset(),
    decreases s.len(),
{
    if s.len() > 0 {
        lemma_sorted_by_update_permutes(s.drop_last());
        let t = sorted_by_update(s.drop_last());
        let x = s.last();
        lemma_insertion_point(t, x);
        lemma_insert_at(t, x, insertion_point(t, x));
        vstd::seq_lib::to_multiset_insert(t, insertion_point(t, x), x);
        vstd::seq_lib::to_multiset_build(s.drop_last(), x);
        assert(s.drop_last().push(x) == s);
    }
}

/// Whether a hit was updated at time `u`.
pub open spec fn updated_at_is(u: Seq<char>) -> spec_fn(SearchResult) -> bool {
    |h: SearchResult| h.updated_at@ == u
}

/// The hits updated at time `u`, in order.
pub open spec fn updated_at_time(s: Seq<SearchResult>, u: Seq<char>) -> Seq<SearchResult> {
    s.filter(updated_at_is(u))
}

/// Sorting by update time is stable: the hits updated at any one time come
/// out in the order they went in.
pub proof fn lemma_sorted_by_update_is_stable(s: Seq<SearchResult>, u: Seq<char>)
    ensures
        updated_at_time(sorted_by_update(s), u) == updated_at_time(s, u),
    decreases s.len(),
{
    let pred = updated_at_is(u);
    if s.len() > 0 {
        let init = s.drop_last();
        let x = s.last();
        lemma_sorted_by_update_is_stable(init, u);
        lemma_sorted_by_update_is_newest_first(init);
        let t = sorted_by_update(init);
        let p = insertion_point(t, x);
        lemma_insertion_point(t, x);
        lemma_insert_at(t, x, p);
        let a = t.take(p);
        let b = t.skip(p);
        assert(t.insert(p, x) =~= a + seq![x] + b);
        assert(t =~= a + b);
        Seq::filter_distributes_over_add(a + seq![x], b, pred);
        Seq::filter_distributes_over_add(a, seq![x], pred);
        Seq::filter_distributes_over_add(a, b, pred);
        assert(init.push(x) =~= s);
        init.lemma_filter_push(x, pred);
        Seq::<SearchResult>::empty().lemma_filter_push(x, pred);
        assert(seq![x] =~= Seq::<SearchResult>::empty().push(x));
        assert(Seq::<SearchResult>::empty().filter(pred) =~= Seq::<SearchResult>::empty()) by {
            reveal(Seq::filter);
        }
        if pred(x) {
            assert(b.all(|h: SearchResult| !pred(h))) by {
                assert forall|j: int| 0 <= j < b.len() implies !pred(#[trigger] b[j]) by {
                    assert(b[j] == t[p + j]);
                    assert(lex_lt(t[p].updated_at@, x.updated_at@));
                    if j > 0 {
                        assert(!lex_lt(t[p].updated_at@, t[p + j].updated_at@));
                    } else {
                        lemma_lex_irreflexive(x.updated_at@);
                    }
                }
            }
            b.lemma_all_neg_filter_empty(pred);
            assert(b.filter(pred) =~= Seq::<SearchResult>::empty());
            assert(t.insert(p, x).filter(pred) =~= t.filter(pred).push(x));
        } else {
            assert(t.insert(p, x).filter(pred) =~= t.filter(pred));
        }
        assert(sorted_by_update(s) == t.insert(p, x));
    } else {
        assert(s.filter(pred) =~= s) by {
            reveal(Seq::filter);
        }
    }
}

/// Where `x` goes in `t`: after the leading hits that are not updated
/// strictly earlier than it.
pub open spec fn insertion_point(t: Seq<SearchResult>, x: SearchResult) -> int
    decreases t.len(),
{
    if t.len() == 0 {
        0
    } else if lex_lt(t[0].updated_at@, x.updated_at@) {
        0
    } else {
        1 + insertion_point(t.drop_first(), x)
    }
}

proof fn lemma_insertion_point(t: Seq<SearchResult>, x: SearchResult)
    ensures
        0 <= insertion_point(t, x) <= t.len(),
        forall|k: int|
            0 <= k < insertion_point(t, x) ==> !lex_lt(#[trigger] t[k].updated_at@, x.updated_at@),
        insertion_point(t, x) < t.len() ==> lex_lt(
            t[insertion_point(t, x)].updated_at@,
            x.updated_at@,
        ),
    decreases t.len(),
{
    if t.len() > 0 && !lex_lt(t[0].updated_at@, x.updated_at@) {
        let r = t.drop_first();
        lemma_insertion_point(r, x);
        let q = insertion_point(r, x);
        assert forall|k: int| 0 <= k < q + 1 implies !lex_lt(#[trigger] t[k].updated_at@, x.updated_at@) by {
            if k > 0 {
                assert(t[k] == r[k - 1]);
            }
        }
        if q + 1 < t.len() {
            assert(t[q + 1] == r[q]);
        }
    }
}

/// No two hits carry the same document id.
pub open spec fn distinct_ids(s: Seq<SearchResult>) -> bool {
    forall|a: int, b: int| 0 <= a < b < s.len() ==> (#[trigger] s[a]).id@ != (#[trigger] s[b]).id@
}

proof fn lemma_matching_hits_sound(
    rows: Seq<SearchResult>,
    category: Option<Seq<char>>,
    tags: Set<Seq<char>>,
)
    ensures
        matching_hits(rows, category, tags).len() <= rows.len(),
        forall|i: int|
            0 <= i < matching_hits(rows, category, tags).len() ==> hit_matches(
                #[trigger] matching_hits(rows, category, tags)[i],
                category,
                tags,
            ) && rows.contains(matching_hits(rows, category, tags)[i]),
        distinct_ids(rows) ==> distinct_ids(matching_hits(rows, category, tags)),
    decreases rows.len(),
{
    if rows.len() > 0 {
        let init = rows.drop_last();
        lemma_matching_hits_sound(init, category, tags);
        let m = matching_hits(rows, category, tags);
        let p = matching_hits(init, category, tags);
        assert forall|i: int| 0 <= i < m.len() implies hit_matches(#[trigger] m[i], category, tags)
            && rows.contains(m[i]) by {
            if i < p.len() {
                assert(m[i] == p[i]);
                let k = choose|k: int| 0 <= k < init.len() && init[k] == p[i];
                assert(rows[k] == p[i]);
            } else {
                assert(m[i] == rows.last());
                assert(rows[rows.len() - 1] == rows.last());
            }
        }
        if distinct_ids(rows) {
            assert(distinct_ids(init)) by {
                assert forall|a: int, b: int| 0 <= a < b < init.len() implies (#[trigger] init[a]).id@
                    != (#[trigger] init[b]).id@ by {
                    assert(init[a] == rows[a] && init[b] == rows[b]);
                }
            }
            assert forall|a: int, b: int| 0 <= a < b < m.len() implies (#[trigger] m[a]).id@ != (
            #[trigger] m[b]).id@ by {
                if b < p.len() {
                    assert(m[a] == p[a] && m[b] == p[b]);
                } else {
                    assert(m[a] == p[a]);
                    assert(m[b] == rows.last());
                    let k = choose|k: int| 0 <= k < init.len() && init[k] == p[a];
                    assert(rows[k] == init[k]);
                    assert(rows[rows.len() - 1] == rows.last());
                }
            }
        }
    }
}

proof fn lemma_sorted_by_update_distinct(s: Seq<SearchResult>)
    requires
        distinct_ids(s),
    ensures
        distinct_ids(sorted_by_update(s)),
    decreases s.len(),
{
    if s.len() > 0 {
        let init = s.drop_last();
        let x = s.last();
        assert(distinct_ids(init)) by {
            assert forall|a: int, b: int| 0 <= a < b < init.len() implies (#[trigger] init[a]).id@
                != (#[trigger] init[b]).id@ by {
                assert(init[a] == s[a] && init[b] == s[b]);
            }
        }
        lemma_sorted_by_update_distinct(init);
        lemma_sorted_by_update_permutes(init);
        let t = sorted_by_update(init);
        let p = insertion_point(t, x);
        lemma_insertion_point(t, x);
        lemma_insert_at(t, x, p);
        assert forall|i: int| 0 <= i < t.len() implies (#[trigger] t[i]).id@ != x.id@ by {
            vstd::seq_lib::to_multiset_contains(t, t[i]);
            vstd::seq_lib::to_multiset_contains(init, t[i]);
            assert(t.contains(t[i]));
            let k = choose|k: int| 0 <= k < init.len() && init[k] == t[i];
            assert(s[k] == init[k]);
            assert(s[s.len() - 1] == x);
        }
        let r = t.insert(p, x);
        assert forall|a: int, b: int| 0 <= a < b < r.len() implies (#[trigger] r[a]).id@ != (
        #[trigger] r[b]).id@ by {
            if b < p {
                assert(r[a] == t[a] && r[b] == t[b]);
            } else if b == p {
                assert(r[a] == t[a] && r[b] == x);
            } else if a < p {
                assert(r[a] == t[a] && r[b] == t[b - 1]);
            } else if a == p {
                assert(r[a] == x && r[b] == t[b - 1]);
            } else {
                assert(r[a] == t[a - 1] && r[b] == t[b - 1]);
            }
        }
    }
}

/// Every hit a full-text search returns is one of the engine's hits, is in
/// the category asked for and carries every tag asked for (both after
/// normalization); none is returned twice when the engine returned each
/// document once.
pub proof fn lemma_full_text_results_sound(
    rows: Seq<SearchResult>,
    category: Option<Seq<char>>,
    tags: Seq<Seq<char>>,
    sort: Option<Seq<char>>,
)
    ensures
        full_text_results(rows, category, tags, sort).len() <= rows.len(),
        forall|i: int|
            0 <= i < full_text_results(rows, category, tags, sort).len() ==> hit_matches(
                #[trigger] full_text_results(rows, category, tags, sort)[i],
                normalized_optional(category),
                normalized_tag_set(tags),
            ) && rows.contains(full_text_results(rows, category, tags, sort)[i]),
        distinct_ids(rows) ==> distinct_ids(full_text_results(rows, category, tags, sort)),
{
    let c = normalized_optional(category);
    let ts = normalized_tag_set(tags);
    let kept = matching_hits(rows, c, ts);
    lemma_matching_hits_sound(rows, c, ts);
    if sort == Some("updatedAt"@) {
        let r = sorted_by_update(kept);
        lemma_sorted_by_update_permutes(kept);
        lemma_sorted_by_update_is_newest_first(kept);
        assert forall|i: int| 0 <= i < r.len() implies hit_matches(#[trigger] r[i], c, ts)
            && rows.contains(r[i]) by {
            vstd::seq_lib::to_multiset_contains(r, r[i]);
            vstd::seq_lib::to_multiset_contains(kept, r[i]);
            assert(r.contains(r[i]));
            let k = choose|k: int| 0 <= k < kept.len() && kept[k] == r[i];
        }
        if distinct_ids(rows) {
            lemma_sorted_by_update_distinct(kept);
        }
    }
}

proof fn lemma_matching_hits_complete(
    rows: Seq<SearchResult>,
    category: Option<Seq<char>>,
    tags: Set<Seq<char>>,
    k: int,
)
    requires
        0 <= k < rows.len(),
        hit_matches(rows[k], category, tags),
    ensures
        matching_hits(rows, category, tags).contains(rows[k]),
    decreases rows.len(),
{
    let m = matching_hits(rows, category, tags);
    if k == rows.len() - 1 {
        assert(rows.last() == rows[k]);
        assert(m[m.len() - 1] == rows[k]);
    } else {
        let init = rows.drop_last();
        assert(init[k] == rows[k]);
        lemma_matching_hits_complete(init, category, tags, k);
        let p = matching_hits(init, category, tags);
        let j = choose|j: int| 0 <= j < p.len() && p[j] == rows[k];
        if hit_matches(rows.last(), category, tags) {
            assert(m[j] == p[j]);
        }
    }
}

proof fn lemma_matching_hits_unrestricted(rows: Seq<SearchResult>)
    ensures
        matching_hits(rows, None, Set::empty()) == rows,
    decreases rows.len(),
{
    if rows.len() > 0 {
        lemma_matching_hits_unrestricted(rows.drop_last());
        assert(rows.drop_last().push(rows.last()) =~= rows);
    }
}

/// A full-text search keeps every hit of the engine that is in the category
/// asked for (compared without surrounding whitespace; an absent or blank
/// category restricts nothing) and carries every tag asked for (each
/// trimmed and lower-cased; blank ones restrict nothing).
pub proof fn lemma_full_text_results_complete(
    rows: Seq<SearchResult>,
    category: Option<Seq<char>>,
    tags: Seq<Seq<char>>,
    sort: Option<Seq<char>>,
    k: int,
)
    requires
        0 <= k < rows.len(),
        category is None || trim(category->0).len() == 0 || opt_view(rows[k].category) == Some(
            trim(category->0),
        ),
        forall|i: int|
            0 <= i < tags.len() && lowercase(trim(#[trigger] tags[i])).len() > 0 ==> views(
                rows[k].tags@,
            ).contains(lowercase(trim(tags[i]))),
    ensures
        full_text_results(rows, category, tags, sort).contains(rows[k]),
{
    let c = normalized_optional(category);
    let ts = normalized_tag_set(tags);
    assert forall|t: Seq<char>| ts.contains(t) implies views(rows[k].tags@).contains(t) by {
        let i = choose|i: int| 0 <= i < tags.len() && normalized_tag(tags[i]) == t;
    }
    lemma_matching_hits_complete(rows, c, ts, k);
    let kept = matching_hits(rows, c, ts);
    if sort == Some("updatedAt"@) {
        let r = sorted_by_update(kept);
        lemma_sorted_by_update_permutes(kept);
        vstd::seq_lib::to_multiset_contains(kept, rows[k]);
        vstd::seq_lib::to_multiset_contains(r, rows[k]);
    }
}

/// Every hit a full-text search returns is one of the engine's hits, is in
/// the category asked for (trimmed; an absent or blank one restricts
/// nothing) and carries every tag asked for (trimmed and lower-cased; blank
/// ones restrict nothing).
pub proof fn lemma_full_text_results_meet_restrictions(
    rows: Seq<SearchResult>,
    category: Option<Seq<char>>,
    tags: Seq<Seq<char>>,
    sort: Option<Seq<char>>,
)
    ensures
        forall|j: int|
            0 <= j < full_text_results(rows, category, tags, sort).len() ==> {
                let h = #[trigger] full_text_results(rows, category, tags, sort)[j];
                &&& rows.contains(h)
                &&& category is Some && trim(category->0).len() > 0 ==> opt_view(h.category)
                    == Some(trim(category->0))
                &&& forall|i: int|
                    0 <= i < tags.len() && lowercase(trim(#[trigger] tags[i])).len() > 0 ==> views(
                        h.tags@,
                    ).contains(lowercase(trim(tags[i])))
            },
{
    lemma_full_text_results_sound(rows, category, tags, sort);
    let r = full_text_results(rows, category, tags, sort);
    let ts = normalized_tag_set(tags);
    assert forall|j: int| 0 <= j < r.len() implies {
        let h = #[trigger] r[j];
        &&& rows.contains(h)
        &&& category is Some && trim(category->0).len() > 0 ==> opt_view(h.category) == Some(
            trim(category->0),
        )
        &&& forall|i: int|
            0 <= i < tags.len() && lowercase(trim(#[trigger] tags[i])).len() > 0 ==> views(
                h.tags@,
            ).contains(lowercase(trim(tags[i])))
    } by {
        let h = r[j];
        assert(hit_matches(h, normalized_optional(category), ts));
        assert forall|i: int|
            0 <= i < tags.len() && lowercase(trim(#[trigger] tags[i])).len() > 0 implies views(
            h.tags@,
        ).contains(lowercase(trim(tags[i]))) by {
            assert(normalized_tag(tags[i]) == lowercase(trim(tags[i])));
            assert(ts.contains(lowercase(trim(tags[i]))));
        }
    }
}

/// A hit is in the category asked for (trimmed; an absent or blank one
/// restricts nothing) and carries every tag asked for (trimmed and
/// lower-cased; blank ones restrict nothing).
pub open spec fn meets_search(h: SearchResult, category: Option<Seq<char>>, tags: Seq<Seq<char>>) -> bool {
    &&& category is Some && trim(category->0).len() > 0 ==> opt_view(h.category) == Some(
        trim(category->0),
    )
    &&& forall|i: int|
        0 <= i < tags.len() && lowercase(trim(#[trigger] tags[i])).len() > 0 ==> views(
            h.tags@,
        ).contains(lowercase(trim(tags[i])))
}

/// Whether a hit meets a search's restrictions (see `meets_search`).
pub open spec fn meets_restrictions(category: Option<Seq<char>>, tags: Seq<Seq<char>>) -> spec_fn(
    SearchResult,
) -> bool {
    |h: SearchResult| meets_search(h, category, tags)
}

/// Unsorted, a full-text search returns the engine's hits that meet its
/// restrictions, in the engine's order.
pub proof fn lemma_full_text_results_keep_engine_order(
    rows: Seq<SearchResult>,
    category: Option<Seq<char>>,
    tags: Seq<Seq<char>>,
    sort: Option<Seq<char>>,
)
    requires
        sort != Some("updatedAt"@),
    ensures
        full_text_results(rows, category, tags, sort) == rows.filter(meets_restrictions(category, tags)),
    decreases rows.len(),
{
    reveal(Seq::filter);
    if rows.len() > 0 {
        lemma_full_text_results_keep_engine_order(rows.drop_last(), category, tags, sort);
        let h = rows.last();
        let ts = normalized_tag_set(tags);
        if meets_search(h, category, tags) {
            assert forall|t: Seq<char>| ts.contains(t) implies views(h.tags@).contains(t) by {
                let i = choose|i: int| 0 <= i < tags.len() && normalized_tag(tags[i]) == t;
            }
        }
        if hit_matches(h, normalized_optional(category), ts) {
            assert forall|i: int|
                0 <= i < tags.len() && lowercase(trim(#[trigger] tags[i])).len() > 0 implies views(
                h.tags@,
            ).contains(lowercase(trim(tags[i]))) by {
                assert(normalized_tag(tags[i]) == lowercase(trim(tags[i])));
                assert(ts.contains(lowercase(trim(tags[i]))));
            }
        }
    }
}

/// With no category and no tag asked for, a full-text search returns the
/// engine's hits: all of them in the engine's order, or all of them newest
/// first when the sort `updatedAt` is asked for.
pub proof fn lemma_full_text_results_unrestricted(rows: Seq<SearchResult>, sort: Option<Seq<char>>)
    ensures
        sort != Some("updatedAt"@) ==> full_text_results(rows, None, Seq::empty(), sort) == rows,
        full_text_results(rows, None, Seq::empty(), sort).to_multiset() == rows.to_multiset(),
{
    assert(normalized_tag_set(Seq::<Seq<char>>::empty()) =~= Set::<Seq<char>>::empty());
    lemma_matching_hits_unrestricted(rows);
    lemma_sorted_by_update_permutes(rows);
}

/// Whether a hit passes the normalized restrictions.
fn hit_passes(hit: &SearchResult, category: &Option<String>, tags: &Vec<String>) -> (r: bool)
    ensures
        r == hit_matches(*hit, opt_view(*category), views(tags@).to_set()),
{
    if let Some(c) = category {
        let same = match &hit.category {
            Some(hc) => *hc == *c,
            None => false,
        };
        if !same {
            return false;
        }
    }
    let mut i: usize = 0;
    while i < tags.len()
        invariant
            i <= tags.len(),
            forall|k: int| 0 <= k < i ==> views(hit.tags@).contains(#[trigger] views(tags@)[k]),
        decreases tags.len() - i,
    {
        if !contains_string(&hit.tags, &tags[i]) {
            proof {
                assert(views(tags@).to_set().contains(views(tags@)[i as int]));
            }
            return false;
        }
        i = i + 1;
    }
    proof {
        assert forall|t: Seq<char>| views(tags@).to_set().contains(t) implies views(hit.tags@).contains(t) by {
            let k = choose|k: int| 0 <= k < views(tags@).len() && views(tags@)[k] == t;
        }
    }
    true
}

/// The hits of a full-text search, in the engine's order of relevance, kept
/// when they are in the category asked for and carry every tag asked for
/// (both compared after normalization), then ordered by update time, newest
/// first, when the sort `updatedAt` is asked for.
pub fn filter_full_text_results(
    rows: Vec<SearchResult>,
    category: Option<String>,
    tags: Option<Vec<String>>,
    sort: Option<String>,
) -> (r: Vec<SearchResult>)
    ensures
        r@ == full_text_results(rows@, opt_view(category), requested_tags(tags), opt_view(sort)),
{
    let ghost cat_view = opt_view(category);
    let ghost tag_views = requested_tags(tags);
    let category_filter = normalize_optional_string(category);
    let tag_list: Vec<String> = match tags {
        Some(t) => t,
        None => Vec::new(),
    };
    proof {
        assert(views(tag_list@) =~= tag_views);
    }
    let tag_filters = normalize_tags(tag_list);
    let ghost tag_set = normalized_tag_set(tag_views);
    let mut kept: Vec<SearchResult> = Vec::new();
    let ghost all = rows@;
    for hit in it: rows
        invariant
            it.seq() == all,
            opt_view(category_filter) == normalized_optional(cat_view),
            views(tag_filters@).to_set() == tag_set,
            kept@ == matching_hits(all.take(it.index() as int), normalized_optional(cat_view), tag_set),
    {
        let ghost k = it.index() as int;
        proof {
            assert(all.take(k + 1).drop_last() == all.take(k));
            assert(all.take(k + 1).last() == all[k]);
        }
        if hit_passes(&hit, &category_filter, &tag_filters) {
            kept.push(hit);
        }
    }
    proof {
        assert(all.take(all.len() as int) == all);
    }
    let by_update = match &sort {
        Some(s) => *s == String::from_str("updatedAt"),
        None => false,
    };
    proof {
        if by_update {
            assert(opt_view(sort) == Some("updatedAt"@));
        } else {
            assert(opt_view(sort) != Some("updatedAt"@));
        }
    }
    if !by_update {
        return kept;
    }
    let mut sorted: Vec<SearchResult> = Vec::new();
    let ghost kept_all = kept@;
    proof {
        assert(kept_all.take(0) =~= Seq::<SearchResult>::empty());
    }
    for hit in it: kept
        invariant
            it.seq() == kept_all,
            sorted@ == sorted_by_update(kept_all.take(it.index() as int)),
    {
        let ghost k = it.index() as int;
        let mut p: usize = 0;
        while p < sorted.len()
            invariant
                p <= sorted.len(),
                forall|j: int| 0 <= j < p ==> !lex_lt(#[trigger] sorted@[j].updated_at@, hit.updated_at@),
            ensures
                p <= sorted.len(),
                forall|j: int| 0 <= j < p ==> !lex_lt(#[trigger] sorted@[j].updated_at@, hit.updated_at@),
                p < sorted.len() ==> lex_lt(sorted@[p as int].updated_at@, hit.updated_at@),
            decreases sorted.len() - p,
        {
            if lex_less(sorted[p].updated_at.as_str(), hit.updated_at.as_str()) {
                break;
            }
            p = p + 1;
        }
        proof {
            lemma_insert_at(sorted@, hit, p as int);
            assert(kept_all.take(k + 1).drop_last() == kept_all.take(k));
            assert(kept_all.take(k + 1).last() == kept_all[k]);
        }
        sorted.insert(p, hit);
    }
    proof {
        assert(kept_all.take(kept_all.len() as int) == kept_all);
    }
    sorted
}

} // verus!
