//! Listing documents: which indexed documents a filter keeps.

use vstd::prelude::*;
use crate::documents::{DocumentFilter, DocumentListItem};
use crate::normalize::{opt_view, normalized_optional, normalized_tag, normalize_optional_string, normalize_tag};
use crate::text::{
    views, lowercase, join_seqs, contains_seq, to_lowercase, join_strings, contains_str, is_blank,
    lemma_blank_trims_to_empty, is_ascii_seq, ascii_lower, trim, lemma_trim_ascii, lemma_trim_idempotent,
    occurs_at, is_ascii_char,
};
use crate::names::contains_string;

verus! {

/// The text of a category, empty when there is none.
pub open spec fn category_text(c: Option<String>) -> Seq<char> {
    match c {
        Some(s) => s@,
        None => Seq::empty(),
    }
}

/// The lower-cased text a listing query is looked up in: the title, the
/// category and the tags, separated by spaces.
pub open spec fn list_haystack(item: DocumentListItem) -> Seq<char> {
    lowercase(
        item.title@ + " "@ + category_text(item.category) + " "@ + join_seqs(views(item.tags@), " "@),
    )
}

/// The normalized restrictions of a listing: the category (trimmed), the tag
/// (trimmed and normalized) and the query (trimmed and lower-cased); blank
/// ones are dropped.
pub open spec fn list_filters(filter: Option<DocumentFilter>) -> (
    Option<Seq<char>>,
    Option<Seq<char>>,
    Option<Seq<char>>,
) {
    match filter {
        Some(f) => (
            normalized_optional(opt_view(f.category)),
            match normalized_optional(opt_view(f.tag)) {
                Some(t) => Some(normalized_tag(t)),
                None => None,
            },
            match normalized_optional(opt_view(f.query)) {
                Some(q) => Some(lowercase(q)),
                None => None,
            },
        ),
        None => (None, None, None),
    }
}

/// A document passes a listing's restrictions: its category is the one asked
/// for, it carries the tag asked for, and the query occurs in its title,
/// category or tags (ignoring case).
pub open spec fn list_item_matches(
    item: DocumentListItem,
    filters: (Option<Seq<char>>, Option<Seq<char>>, Option<Seq<char>>),
) -> bool {
    &&& match filters.0 {
        Some(c) => opt_view(item.category) == Some(c),
        None => true,
    }
    &&& match filters.1 {
        Some(t) => views(item.tags@).contains(t),
        None => true,
    }
    &&& match filters.2 {
        Some(q) => contains_seq(list_haystack(item), q),
        None => true,
    }
}

/// The rows that pass the restrictions, in their order.
pub open spec fn matching_items(
    rows: Seq<DocumentListItem>,
    filters: (Option<Seq<char>>, Option<Seq<char>>, Option<Seq<char>>),
) -> Seq<DocumentListItem>
    decreases rows.len(),
{
    if rows.len() == 0 {
        rows
    } else if list_item_matches(rows.last(), filters) {
        matching_items(rows.drop_last(), filters).push(rows.last())
    } else {
        matching_items(rows.drop_last(), filters)
    }
}

/// Every listed document passes the filter, and the listing keeps the
/// order of the index.
pub proof fn lemma_matching_items_sound(
    rows: Seq<DocumentListItem>,
    filters: (Option<Seq<char>>, Option<Seq<char>>, Option<Seq<char>>),
)
    ensures
        matching_items(rows, filters).len() <= rows.len(),
        forall|i: int|
            0 <= i < matching_items(rows, filters).len() ==> list_item_matches(
                #[trigger] matching_items(rows, filters)[i],
                filters,
            ) && rows.contains(matching_items(rows, filters)[i]),
    decreases rows.len(),
{
    if rows.len() > 0 {
        lemma_matching_items_sound(rows.drop_last(), filters);
        let m = matching_items(rows, filters);
        let p = matching_items(rows.drop_last(), filters);
        assert forall|i: int| 0 <= i < m.len() implies list_item_matches(#[trigger] m[i], filters)
            && rows.contains(m[i]) by {
            if i < p.len() {
                assert(m[i] == p[i]);
                let k = choose|k: int| 0 <= k < rows.drop_last().len() && rows.drop_last()[k] == p[i];
                assert(rows[k] == p[i]);
            } else {
                assert(m[i] == rows.last());
                assert(rows[rows.len() - 1] == rows.last());
            }
        }
    }
}

/// Without a filter, every indexed document is listed, in the index's
/// order.
pub proof fn lemma_unfiltered_listing_is_complete(rows: Seq<DocumentListItem>)
    ensures
        matching_items(rows, list_filters(None)) == rows,
    decreases rows.len(),
{
    if rows.len() > 0 {
        lemma_unfiltered_listing_is_complete(rows.drop_last());
        assert(rows.drop_last().push(rows.last()) == rows);
    }
}

/// Blank restrictions are ignored: a filter whose category, tag and query
/// are each absent or made of whitespace only lists exactly what no filter
/// lists.
pub proof fn lemma_blank_filter_is_no_filter(f: DocumentFilter, rows: Seq<DocumentListItem>)
    requires
        f.category matches Some(c) ==> is_blank(c@),
        f.tag matches Some(t) ==> is_blank(t@),
        f.query matches Some(q) ==> is_blank(q@),
    ensures
        list_filters(Some(f)) == list_filters(None),
        matching_items(rows, list_filters(Some(f))) == rows,
{
    if let Some(c) = f.category {
        lemma_blank_trims_to_empty(c@);
    }
    if let Some(t) = f.tag {
        lemma_blank_trims_to_empty(t@);
    }
    if let Some(q) = f.query {
        lemma_blank_trims_to_empty(q@);
    }
    lemma_unfiltered_listing_is_complete(rows);
}

/// The tag of a listing is compared without surrounding whitespace and
/// without regard to the case of ASCII letters: two filters that differ only
/// in such ASCII tags list the same documents.
pub proof fn lemma_tag_filter_ignores_ascii_case(
    f: DocumentFilter,
    g: DocumentFilter,
    rows: Seq<DocumentListItem>,
)
    requires
        opt_view(f.category) == opt_view(g.category),
        opt_view(f.query) == opt_view(g.query),
        f.tag is Some,
        g.tag is Some,
        is_ascii_seq(f.tag->0@),
        is_ascii_seq(g.tag->0@),
        trim(f.tag->0@).map_values(|c: char| ascii_lower(c)) == trim(g.tag->0@).map_values(
            |c: char| ascii_lower(c),
        ),
    ensures
        list_filters(Some(f)) == list_filters(Some(g)),
        matching_items(rows, list_filters(Some(f))) == matching_items(rows, list_filters(Some(g))),
{
    let a = trim(f.tag->0@);
    let b = trim(g.tag->0@);
    lemma_trim_ascii(f.tag->0@);
    lemma_trim_ascii(g.tag->0@);
    assert(a.map_values(|c: char| ascii_lower(c)).len() == a.len());
    assert(b.map_values(|c: char| ascii_lower(c)).len() == b.len());
    lemma_trim_idempotent(f.tag->0@);
    lemma_trim_idempotent(g.tag->0@);
}

/// Every row that passes the restrictions is listed.
pub proof fn lemma_matching_items_complete(
    rows: Seq<DocumentListItem>,
    filters: (Option<Seq<char>>, Option<Seq<char>>, Option<Seq<char>>),
    k: int,
)
    requires
        0 <= k < rows.len(),
        list_item_matches(rows[k], filters),
    ensures
        matching_items(rows, filters).contains(rows[k]),
    decreases rows.len(),
{
    let m = matching_items(rows, filters);
    if k == rows.len() - 1 {
        assert(rows.last() == rows[k]);
        assert(m[m.len() - 1] == rows[k]);
    } else {
        let init = rows.drop_last();
        assert(init[k] == rows[k]);
        lemma_matching_items_complete(init, filters, k);
        let p = matching_items(init, filters);
        let j = choose|j: int| 0 <= j < p.len() && p[j] == rows[k];
        if list_item_matches(rows.last(), filters) {
            assert(m[j] == p[j]);
        }
    }
}

proof fn lemma_contains_trans(a: Seq<char>, b: Seq<char>, c: Seq<char>)
    requires
        contains_seq(a, b),
        contains_seq(b, c),
    ensures
        contains_seq(a, c),
{
    let i = choose|i: int| occurs_at(a, b, i);
    let j = choose|j: int| occurs_at(b, c, j);
    assert(a.subrange(i + j, i + j + c.len()) =~= b.subrange(j, j + c.len()));
    assert(occurs_at(a, c, i + j));
}

proof fn lemma_contains_parts(a: Seq<char>, b: Seq<char>)
    ensures
        contains_seq(a + b, a),
        contains_seq(a + b, b),
{
    assert((a + b).subrange(0, a.len() as int) =~= a);
    assert(occurs_at(a + b, a, 0));
    assert((a + b).subrange(a.len() as int, (a.len() + b.len()) as int) =~= b);
    assert(occurs_at(a + b, b, a.len() as int));
}

proof fn lemma_contains_lowered(x: Seq<char>, y: Seq<char>)
    requires
        contains_seq(x, y),
    ensures
        contains_seq(x.map_values(|c: char| ascii_lower(c)), y.map_values(|c: char| ascii_lower(c))),
{
    let i = choose|i: int| occurs_at(x, y, i);
    let xm = x.map_values(|c: char| ascii_lower(c));
    let ym = y.map_values(|c: char| ascii_lower(c));
    assert forall|k: int| 0 <= k < y.len() implies xm.subrange(i, i + y.len())[k] == ym[k] by {
        assert(x.subrange(i, i + y.len())[k] == y[k]);
        assert(x[i + k] == y[k]);
    }
    assert(xm.subrange(i, i + y.len()) =~= ym);
    assert(occurs_at(xm, ym, i));
}

proof fn lemma_ascii_concat(a: Seq<char>, b: Seq<char>)
    requires
        is_ascii_seq(a),
        is_ascii_seq(b),
    ensures
        is_ascii_seq(a + b),
{
    assert forall|i: int| 0 <= i < (a + b).len() implies is_ascii_char(#[trigger] (a + b)[i]) by {
        if i < a.len() {
            assert((a + b)[i] == a[i]);
        } else {
            assert((a + b)[i] == b[i - a.len()]);
        }
    }
}

proof fn lemma_join_parts(parts: Seq<Seq<char>>)
    requires
        forall|i: int| 0 <= i < parts.len() ==> is_ascii_seq(#[trigger] parts[i]),
    ensures
        is_ascii_seq(join_seqs(parts, " "@)),
        forall|i: int| 0 <= i < parts.len() ==> contains_seq(join_seqs(parts, " "@), #[trigger] parts[i]),
    decreases parts.len(),
{
    reveal_strlit(" ");
    if parts.len() == 1 {
        assert(join_seqs(parts, " "@) == parts[0]);
        assert(parts[0].subrange(0, parts[0].len() as int) =~= parts[0]);
        assert(occurs_at(parts[0], parts[0], 0));
    } else if parts.len() > 1 {
        let init = parts.drop_last();
        assert forall|i: int| 0 <= i < init.len() implies is_ascii_seq(#[trigger] init[i]) by {
            assert(init[i] == parts[i]);
        }
        lemma_join_parts(init);
        let a = join_seqs(init, " "@);
        let last = parts.last();
        assert(last == parts[parts.len() - 1]);
        assert(is_ascii_seq(" "@)) by {
            assert((" "@)[0] == ' ');
        }
        lemma_ascii_concat(a, " "@);
        lemma_ascii_concat(a + " "@, last);
        lemma_contains_parts(a + " "@, last);
        lemma_contains_parts(a, " "@);
        assert forall|i: int| 0 <= i < parts.len() implies contains_seq(
            join_seqs(parts, " "@),
            #[trigger] parts[i],
        ) by {
            if i < init.len() {
                assert(init[i] == parts[i]);
                lemma_contains_trans(a + " "@, a, parts[i]);
                lemma_contains_trans(a + " "@ + last, a + " "@, parts[i]);
            }
        }
    }
}

/// A listing whose only restriction is a query finds the query, ignoring
/// case, in the title, the category and every tag of a document: any
/// document whose lower-cased title, category or tag contains the trimmed,
/// lower-cased query is listed (for documents written in ASCII, whose
/// lower-casing is known character by character).
pub proof fn lemma_query_searches_title_category_tags(
    rows: Seq<DocumentListItem>,
    f: DocumentFilter,
    k: int,
)
    requires
        0 <= k < rows.len(),
        f.category is None,
        f.tag is None,
        f.query is Some,
        trim(f.query->0@).len() > 0,
        is_ascii_seq(rows[k].title@),
        is_ascii_seq(category_text(rows[k].category)),
        forall|t: int| 0 <= t < rows[k].tags.len() ==> is_ascii_seq(#[trigger] rows[k].tags@[t]@),
        contains_seq(lowercase(rows[k].title@), lowercase(trim(f.query->0@)))
            || contains_seq(lowercase(category_text(rows[k].category)), lowercase(trim(f.query->0@)))
            || exists|t: int|
            0 <= t < rows[k].tags.len() && contains_seq(
                lowercase(#[trigger] rows[k].tags@[t]@),
                lowercase(trim(f.query->0@)),
            ),
    ensures
        matching_items(rows, list_filters(Some(f))).contains(rows[k]),
{
    reveal_strlit(" ");
    let item = rows[k];
    let q = lowercase(trim(f.query->0@));
    lemma_trim_idempotent(f.query->0@);
    let tags = views(item.tags@);
    assert forall|i: int| 0 <= i < tags.len() implies is_ascii_seq(#[trigger] tags[i]) by {
        assert(tags[i] == item.tags@[i]@);
    }
    lemma_join_parts(tags);
    let title = item.title@;
    let cat = category_text(item.category);
    let joined = join_seqs(tags, " "@);
    assert(is_ascii_seq(" "@)) by {
        assert((" "@)[0] == ' ');
    }
    lemma_ascii_concat(title, " "@);
    lemma_ascii_concat(title + " "@, cat);
    lemma_ascii_concat(title + " "@ + cat, " "@);
    lemma_ascii_concat(title + " "@ + cat + " "@, joined);
    let h = title + " "@ + cat + " "@ + joined;
    assert(list_haystack(item) == h.map_values(|c: char| ascii_lower(c)));
    lemma_contains_parts(title + " "@ + cat + " "@, joined);
    lemma_contains_parts(title + " "@ + cat, " "@);
    lemma_contains_parts(title + " "@, cat);
    lemma_contains_parts(title, " "@);
    lemma_contains_trans(h, title + " "@ + cat + " "@, title + " "@ + cat);
    lemma_contains_trans(h, title + " "@ + cat, title + " "@);
    lemma_contains_trans(h, title + " "@, title);
    lemma_contains_trans(h, title + " "@ + cat, cat);
    let hm = h.map_values(|c: char| ascii_lower(c));
    if contains_seq(lowercase(title), q) {
        lemma_contains_lowered(h, title);
        lemma_contains_trans(hm, title.map_values(|c: char| ascii_lower(c)), q);
    } else if contains_seq(lowercase(cat), q) {
        lemma_contains_lowered(h, cat);
        lemma_contains_trans(hm, cat.map_values(|c: char| ascii_lower(c)), q);
    } else {
        let t = choose|t: int| 0 <= t < item.tags.len() && contains_seq(
            lowercase(#[trigger] item.tags@[t]@),
            q,
        );
        let tag = item.tags@[t]@;
        assert(tags[t] == tag);
        lemma_contains_trans(h, joined, tag);
        lemma_contains_lowered(h, tag);
        lemma_contains_trans(hm, tag.map_values(|c: char| ascii_lower(c)), q);
    }
    assert(list_item_matches(item, list_filters(Some(f))));
    lemma_matching_items_complete(rows, list_filters(Some(f)), k);
}

/// The text a listing query is looked up in, before lower-casing: the
/// title, the category and the tags, separated by spaces.
pub open spec fn listed_text(item: DocumentListItem) -> Seq<char> {
    item.title@ + " "@ + category_text(item.category) + " "@ + join_seqs(views(item.tags@), " "@)
}

/// A document meets the restrictions of a filter: the category asked for
/// (trimmed), the tag asked for (trimmed and lower-cased) and the query
/// (trimmed and lower-cased, found in the lower-cased title, category and
/// tags); absent or blank restrictions restrict nothing.
pub open spec fn meets_filter(item: DocumentListItem, f: DocumentFilter) -> bool {
    &&& f.category is Some && trim(f.category->0@).len() > 0 ==> opt_view(item.category) == Some(
        trim(f.category->0@),
    )
    &&& f.tag is Some && trim(f.tag->0@).len() > 0 ==> views(item.tags@).contains(
        lowercase(trim(f.tag->0@)),
    )
    &&& f.query is Some && trim(f.query->0@).len() > 0 ==> contains_seq(
        lowercase(listed_text(item)),
        lowercase(trim(f.query->0@)),
    )
}

/// A filtered listing lists exactly the indexed documents that meet the
/// filter: every listed document is indexed and meets it, and every indexed
/// document that meets it is listed.
pub proof fn lemma_listing_is_exactly_the_matches(rows: Seq<DocumentListItem>, f: DocumentFilter)
    ensures
        forall|i: int|
            0 <= i < matching_items(rows, list_filters(Some(f))).len() ==> rows.contains(
                #[trigger] matching_items(rows, list_filters(Some(f)))[i],
            ) && meets_filter(matching_items(rows, list_filters(Some(f)))[i], f),
        forall|k: int|
            0 <= k < rows.len() && meets_filter(#[trigger] rows[k], f) ==> matching_items(
                rows,
                list_filters(Some(f)),
            ).contains(rows[k]),
{
    let filters = list_filters(Some(f));
    if let Some(t) = f.tag {
        lemma_trim_idempotent(t@);
    }
    if let Some(q) = f.query {
        lemma_trim_idempotent(q@);
    }
    if let Some(c) = f.category {
        lemma_trim_idempotent(c@);
    }
    lemma_matching_items_sound(rows, filters);
    let m = matching_items(rows, filters);
    assert forall|i: int| 0 <= i < m.len() implies rows.contains(#[trigger] m[i]) && meets_filter(
        m[i],
        f,
    ) by {
        assert(list_item_matches(m[i], filters));
    }
    assert forall|k: int| 0 <= k < rows.len() && meets_filter(#[trigger] rows[k], f) implies m.contains(
        rows[k],
    ) by {
        assert(list_item_matches(rows[k], filters));
        lemma_matching_items_complete(rows, filters, k);
    }
}

/// Whether a document meets a filter (see `meets_filter`).
pub open spec fn meets(f: DocumentFilter) -> spec_fn(DocumentListItem) -> bool {
    |x: DocumentListItem| meets_filter(x, f)
}

/// A filtered listing is the index's rows that meet the filter, in the
/// index's order.
pub proof fn lemma_listing_keeps_index_order(rows: Seq<DocumentListItem>, f: DocumentFilter)
    ensures
        matching_items(rows, list_filters(Some(f))) == rows.filter(meets(f)),
    decreases rows.len(),
{
    reveal(Seq::filter);
    if let Some(t) = f.tag {
        lemma_trim_idempotent(t@);
    }
    if let Some(q) = f.query {
        lemma_trim_idempotent(q@);
    }
    if let Some(c) = f.category {
        lemma_trim_idempotent(c@);
    }
    if rows.len() > 0 {
        lemma_listing_keeps_index_order(rows.drop_last(), f);
        assert(list_item_matches(rows.last(), list_filters(Some(f))) == meets_filter(rows.last(), f));
    }
}

/// Whether a document passes the normalized restrictions of a listing.
fn item_matches(
    item: &DocumentListItem,
    category: &Option<String>,
    tag: &Option<String>,
    query: &Option<String>,
) -> (r: bool)
    ensures
        r == list_item_matches(*item, (opt_view(*category), opt_view(*tag), opt_view(*query))),
{
    if let Some(c) = category {
        let same = match &item.category {
            Some(ic) => *ic == *c,
            None => false,
        };
        if !same {
            return false;
        }
    }
    if let Some(t) = tag {
        if !contains_string(&item.tags, t) {
            return false;
        }
    }
    if let Some(q) = query {
        let category_part = match &item.category {
            Some(c) => c.as_str(),
            None => "",
        };
        let text = item.title.clone().concat(" ").concat(category_part).concat(" ").concat(
            join_strings(&item.tags, " ").as_str(),
        );
        let haystack = to_lowercase(text.as_str());
        proof {
            reveal_strlit("");
            assert(category_part@ == category_text(item.category));
        }
        if !contains_str(haystack.as_str(), q.as_str()) {
            return false;
        }
    }
    true
}

/// The indexed documents (in the index's order: most recently updated first,
/// then by title) that pass the filter: when a category is given, only
/// documents in it; when a tag is given, only documents carrying it (the tag
/// is compared after normalization); when a query is given, only documents
/// whose title, category or tags contain it, ignoring case. Blank
/// restrictions are ignored.
pub fn list_documents_in_vault(rows: Vec<DocumentListItem>, filter: Option<DocumentFilter>) -> (r:
    Vec<DocumentListItem>)
    ensures
        r@ == matching_items(rows@, list_filters(filter)),
{
    let ghost filters = list_filters(filter);
    let (category, tag, query) = match filter {
        Some(f) => {
            let category = normalize_optional_string(f.category);
            let tag = match normalize_optional_string(f.tag) {
                Some(t) => Some(normalize_tag(t)),
                None => None,
            };
            let query = match normalize_optional_string(f.query) {
                Some(q) => Some(to_lowercase(q.as_str())),
                None => None,
            };
            (category, tag, query)
        },
        None => (None, None, None),
    };
    proof {
        assert((opt_view(category), opt_view(tag), opt_view(query)) == filters);
    }
    let mut out: Vec<DocumentListItem> = Vec::new();
    let ghost all = rows@;
    for item in it: rows
        invariant
            it.seq() == all,
            (opt_view(category), opt_view(tag), opt_view(query)) == filters,
            out@ == matching_items(all.take(it.index() as int), filters),
    {
        let ghost k = it.index() as int;
        proof {
            assert(all.take(k + 1).drop_last() == all.take(k));
            assert(all.take(k + 1).last() == all[k]);
        }
        if item_matches(&item, &category, &tag, &query) {
            out.push(item);
        }
    }
    proof {
        assert(all.take(all.len() as int) == all);
    }
    out
}

} // verus!
