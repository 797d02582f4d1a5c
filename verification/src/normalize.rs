//! Normalization of the user-facing fields of a note: titles, categories,
//! required identifiers and tags.

use vstd::prelude::*;
use crate::text::{
    trim_start, trim_end, char_is_whitespace, is_ascii_seq, is_ascii_char, ascii_lower, ascii_upper,
    lemma_trim_start_is_suffix, lemma_trim_edges,
    trim, lowercase, trim_str, lemma_trim_idempotent, to_lowercase, views, is_empty_string, chars_of,
};
use crate::order::{lex_lt, strictly_sorted, lex_less_chars, lemma_lex_total, lemma_lex_transitive};

verus! {

/// The view of an optional string.
pub open spec fn opt_view(o: Option<String>) -> Option<Seq<char>> {
    match o {
        Some(s) => Some(s@),
        None => None,
    }
}

/// The view of a result whose value and error are strings.
pub open spec fn result_view(r: Result<String, String>) -> Result<Seq<char>, Seq<char>> {
    match r {
        Ok(v) => Ok(v@),
        Err(e) => Err(e@),
    }
}

/// A trimmed value, or nothing when the value is absent or blank.
pub open spec fn normalized_optional(v: Option<Seq<char>>) -> Option<Seq<char>> {
    match v {
        Some(s) => if trim(s).len() == 0 {
            None
        } else {
            Some(trim(s))
        },
        None => None,
    }
}

/// A title: the trimmed title, or `Untitled` when absent or blank.
pub open spec fn normalized_title(v: Option<Seq<char>>) -> Seq<char> {
    match normalized_optional(v) {
        Some(t) => t,
        None => "Untitled"@,
    }
}

/// A tag: trimmed, then lower-cased.
pub open spec fn normalized_tag(t: Seq<char>) -> Seq<char> {
    lowercase(trim(t))
}

/// The set of non-empty normalized tags of a list of tags.
pub open spec fn normalized_tag_set(tags: Seq<Seq<char>>) -> Set<Seq<char>> {
    Set::new(
        |t: Seq<char>|
            t.len() > 0 && exists|i: int| 0 <= i < tags.len() && normalized_tag(tags[i]) == t,
    )
}

/// A normalized ASCII tag is ASCII, non-blank at both ends and free of
/// upper-case letters, and normalizing it again changes nothing.
pub proof fn lemma_normalized_tag_idempotent_ascii(t: Seq<char>)
    requires
        is_ascii_seq(t),
    ensures
        is_ascii_seq(normalized_tag(t)),
        normalized_tag(normalized_tag(t)) == normalized_tag(t),
{
    let a = trim_start(t);
    let x = trim(t);
    lemma_trim_start_is_suffix(t);
    lemma_trim_edges(t);
    lemma_trim_edges(a);
    assert forall|i: int| 0 <= i < x.len() implies is_ascii_char(#[trigger] x[i]) by {
        assert(x[i] == a[i]);
        assert(a[i] == t[t.len() - a.len() + i]);
    }
    let y = x.map_values(|c: char| ascii_lower(c));
    assert(normalized_tag(t) == y);
    assert forall|i: int| 0 <= i < y.len() implies is_ascii_char(#[trigger] y[i]) && !ascii_upper(
        y[i],
    ) by {
        assert(y[i] == ascii_lower(x[i]));
        if ascii_upper(x[i]) {
            let u = (x[i] as u32) + 32;
            assert((u as char) as u32 == u);
        }
    }
    if y.len() > 0 {
        assert(x[0] == a[0]);
        assert(!char_is_whitespace(x[0]));
        assert(!char_is_whitespace(x.last()));
        assert(y[0] == ascii_lower(x[0]));
        assert(y.last() == ascii_lower(x.last()));
        if ascii_upper(x[0]) {
            let u = (x[0] as u32) + 32;
            assert((u as char) as u32 == u);
        }
        if ascii_upper(x.last()) {
            let u = (x.last() as u32) + 32;
            assert((u as char) as u32 == u);
        }
        assert(trim_start(y) == y);
        assert(trim_end(y) == y);
    }
    assert(trim(y) == y);
    assert(y.map_values(|c: char| ascii_lower(c)) =~= y);
}

/// Normalizing the non-empty normalized forms of ASCII tags gives the same
/// set back.
pub proof fn lemma_normalized_tag_set_fixed(tags: Seq<Seq<char>>, normalized: Seq<Seq<char>>)
    requires
        forall|i: int| 0 <= i < tags.len() ==> is_ascii_seq(#[trigger] tags[i]),
        normalized.to_set() == normalized_tag_set(tags),
    ensures
        normalized_tag_set(normalized) == normalized.to_set(),
{
    assert forall|x: Seq<char>| normalized.to_set().contains(x) implies #[trigger] normalized_tag_set(
        normalized,
    ).contains(x) by {
        assert(normalized_tag_set(tags).contains(x));
        let i = choose|i: int| 0 <= i < tags.len() && normalized_tag(tags[i]) == x;
        lemma_normalized_tag_idempotent_ascii(tags[i]);
        let j = choose|j: int| 0 <= j < normalized.len() && normalized[j] == x;
        assert(normalized_tag(normalized[j]) == x);
    }
    assert forall|x: Seq<char>| #[trigger] normalized_tag_set(normalized).contains(x) implies normalized.to_set().contains(
        x,
    ) by {
        let j = choose|j: int| 0 <= j < normalized.len() && normalized_tag(normalized[j]) == x;
        assert(normalized.to_set().contains(normalized[j]));
        assert(normalized_tag_set(tags).contains(normalized[j]));
        let i = choose|i: int| 0 <= i < tags.len() && normalized_tag(tags[i]) == normalized[j];
        lemma_normalized_tag_idempotent_ascii(tags[i]);
    }
    assert(normalized_tag_set(normalized) =~= normalized.to_set());
}

/// Normalizing an optional value twice changes nothing more.
pub proof fn lemma_normalized_optional_idempotent(v: Option<Seq<char>>)
    ensures
        normalized_optional(normalized_optional(v)) == normalized_optional(v),
{
    if let Some(s) = v {
        lemma_trim_idempotent(s);
    }
}

/// The trimmed value, or nothing when it is absent or blank.
pub fn normalize_optional_string(value: Option<String>) -> (r: Option<String>)
    ensures
        opt_view(r) == normalized_optional(opt_view(value)),
        value is Some && trim(value->0@).len() > 0 ==> r is Some && r->0@ == trim(value->0@),
        value is None || trim(value->0@).len() == 0 ==> r is None,
{
    match value {
        Some(v) => {
            let trimmed = trim_str(v.as_str());
            if is_empty_string(&trimmed) {
                None
            } else {
                Some(trimmed)
            }
        },
        None => None,
    }
}

/// The trimmed title, or `Untitled` when it is absent or blank.
pub fn normalize_title(title: Option<String>) -> (r: String)
    ensures
        r@ == normalized_title(opt_view(title)),
        title is Some && trim(title->0@).len() > 0 ==> r@ == trim(title->0@),
        title is None || trim(title->0@).len() == 0 ==> r@ == "Untitled"@,
{
    proof {
        lemma_title_is_trimmed_text(opt_view(title));
    }
    match normalize_optional_string(title) {
        Some(t) => t,
        None => String::from_str("Untitled"),
    }
}

/// A title is stored as exactly its text without surrounding whitespace;
/// only an absent or blank title becomes `Untitled`.
pub proof fn lemma_title_is_trimmed_text(v: Option<Seq<char>>)
    ensures
        v is Some && trim(v->0).len() > 0 ==> normalized_title(v) == trim(v->0),
        v is None || trim(v->0).len() == 0 ==> normalized_title(v) == "Untitled"@,
{
}

/// An optional value (a category) is stored as exactly its text without
/// surrounding whitespace, and is dropped only when absent or blank.
pub proof fn lemma_optional_is_trimmed_text(v: Option<Seq<char>>)
    ensures
        v is Some && trim(v->0).len() > 0 ==> normalized_optional(v) == Some(trim(v->0)),
        v is None || trim(v->0).len() == 0 ==> normalized_optional(v) is None,
{
}

/// A tag is stored as what `str::to_lowercase` makes of its text without
/// surrounding whitespace, whatever characters it holds.
pub proof fn lemma_tag_is_lowercased_trimmed_text(t: Seq<char>)
    ensures
        normalized_tag(t) == lowercase(trim(t)),
{
}

/// The trimmed value, or the error `<field> is required` when it is blank.
pub fn normalize_required(value: String, field: &str) -> (r: Result<String, String>)
    ensures
        result_view(r) == (if trim(value@).len() > 0 {
            Ok(trim(value@))
        } else {
            Err(field@ + " is required"@)
        }),
{
    let normalized = trim_str(value.as_str());
    if is_empty_string(&normalized) {
        Err(String::from_str(field).concat(" is required"))
    } else {
        Ok(normalized)
    }
}

/// A tag trimmed and lower-cased.
pub fn normalize_tag(tag: String) -> (r: String)
    ensures
        r@ == normalized_tag(tag@),
        r@ == lowercase(trim(tag@)),
{
    let trimmed = trim_str(tag.as_str());
    to_lowercase(trimmed.as_str())
}

/// Inserts `x` into a strictly sorted list unless it is already there.
fn insert_sorted_unique(r: &mut Vec<String>, x: String)
    requires
        strictly_sorted(views(old(r)@)),
    ensures
        strictly_sorted(views(final(r)@)),
        views(final(r)@).to_set() == views(old(r)@).to_set().insert(x@),
{
    let xc = chars_of(x.as_str());
    let mut p: usize = 0;
    while p < r.len()
        invariant
            p <= r.len(),
            xc@ == x@,
            forall|k: int| 0 <= k < p ==> lex_lt(#[trigger] views(r@)[k], x@),
        ensures
            p <= r.len(),
            forall|k: int| 0 <= k < p ==> lex_lt(#[trigger] views(r@)[k], x@),
            p < r.len() ==> !lex_lt(views(r@)[p as int], x@),
        decreases r.len() - p,
    {
        let rc = chars_of(r[p].as_str());
        if !lex_less_chars(&rc, &xc) {
            proof {
                assert(views(r@)[p as int] == r@[p as int]@);
            }
            break;
        }
        proof {
            assert(views(r@)[p as int] == r@[p as int]@);
        }
        p = p + 1;
    }
    let ghost old_views = views(r@);
    if p < r.len() && r[p] == x {
        proof {
            assert(old_views[p as int] == x@);
            assert(old_views.to_set().insert(x@) =~= old_views.to_set());
        }
        return;
    }
    proof {
        if p < r.len() {
            lemma_lex_total(old_views[p as int], x@);
            assert(lex_lt(x@, old_views[p as int]));
        }
    }
    r.insert(p, x);
    proof {
        let nv = views(r@);
        assert(nv =~= old_views.insert(p as int, x@));
        assert forall|i: int, j: int| 0 <= i < j < nv.len() implies lex_lt(
            #[trigger] nv[i],
            #[trigger] nv[j],
        ) by {
            if j < p {
                assert(nv[i] == old_views[i] && nv[j] == old_views[j]);
            } else if j == p {
                assert(nv[i] == old_views[i]);
            } else if i == p {
                assert(nv[j] == old_views[j - 1]);
                if j - 1 > p {
                    lemma_lex_transitive(x@, old_views[p as int], old_views[j - 1]);
                }
            } else if i < p {
                assert(nv[i] == old_views[i] && nv[j] == old_views[j - 1]);
                assert(lex_lt(old_views[i], x@));
                if j - 1 >= p {
                    if j - 1 > p {
                        lemma_lex_transitive(x@, old_views[p as int], old_views[j - 1]);
                    }
                    lemma_lex_transitive(old_views[i], x@, old_views[j - 1]);
                }
            } else {
                assert(nv[i] == old_views[i - 1] && nv[j] == old_views[j - 1]);
            }
        }
        assert forall|t: Seq<char>| nv.to_set().contains(t) <==> old_views.to_set().insert(
            x@,
        ).contains(t) by {
            if nv.to_set().contains(t) {
                let k = choose|k: int| 0 <= k < nv.len() && nv[k] == t;
                if k < p {
                    assert(old_views[k] == t);
                } else if k > p {
                    assert(old_views[k - 1] == t);
                }
            }
            if old_views.to_set().contains(t) {
                let k = choose|k: int| 0 <= k < old_views.len() && old_views[k] == t;
                if k < p {
                    assert(nv[k] == t);
                } else {
                    assert(nv[k + 1] == t);
                }
            }
            if t == x@ {
                assert(nv[p as int] == t);
            }
        }
        assert(nv.to_set() =~= old_views.to_set().insert(x@));
    }
}

/// `x` is what `str::to_lowercase` makes of one of `tags` without its
/// surrounding whitespace.
pub open spec fn lowercase_of_some_tag(x: Seq<char>, tags: Seq<String>) -> bool {
    exists|i: int| 0 <= i < tags.len() && x == lowercase(trim(#[trigger] tags[i]@))
}

/// The distinct non-empty normalized tags, in ascending order.
pub fn normalize_tags(tags: Vec<String>) -> (r: Vec<String>)
    ensures
        strictly_sorted(views(r@)),
        views(r@).to_set() == normalized_tag_set(views(tags@)),
        forall|i: int|
            0 <= i < tags.len() && lowercase(trim(#[trigger] tags@[i]@)).len() > 0 ==> views(
                r@,
            ).contains(lowercase(trim(tags@[i]@))),
        forall|j: int| 0 <= j < r.len() ==> lowercase_of_some_tag(#[trigger] r@[j]@, tags@),
{
    let mut r: Vec<String> = Vec::new();
    let mut i: usize = 0;
    proof {
        assert(views(r@).to_set() =~= normalized_tag_set(views(tags@.take(0))));
    }
    while i < tags.len()
        invariant
            i <= tags.len(),
            strictly_sorted(views(r@)),
            views(r@).to_set() == normalized_tag_set(views(tags@.take(i as int))),
        decreases tags.len() - i,
    {
        let tag = normalize_tag(tags[i].clone());
        let ghost before = views(r@).to_set();
        let ghost prefix = views(tags@.take(i as int));
        let ghost next = views(tags@.take(i + 1));
        proof {
            assert(next =~= prefix.push(tags@[i as int]@));
        }
        if !is_empty_string(&tag) {
            insert_sorted_unique(&mut r, tag);
            proof {
                assert forall|t: Seq<char>| normalized_tag_set(next).contains(t) <==> before.insert(
                    tag@,
                ).contains(t) by {
                    if normalized_tag_set(next).contains(t) {
                        let k = choose|k: int|
                            0 <= k < next.len() && normalized_tag(next[k]) == t;
                        if k < prefix.len() {
                            assert(prefix[k] == next[k]);
                            assert(normalized_tag_set(prefix).contains(t));
                        }
                    }
                    if before.contains(t) {
                        let k = choose|k: int|
                            0 <= k < prefix.len() && normalized_tag(prefix[k]) == t;
                        assert(next[k] == prefix[k]);
                    }
                    if t == tag@ {
                        assert(next[i as int] == tags@[i as int]@);
                    }
                }
                assert(normalized_tag_set(next) =~= before.insert(tag@));
            }
        } else {
            proof {
                assert forall|t: Seq<char>| normalized_tag_set(next).contains(t) <==> before.contains(
                    t,
                ) by {
                    if normalized_tag_set(next).contains(t) {
                        let k = choose|k: int|
                            0 <= k < next.len() && normalized_tag(next[k]) == t;
                        if k < prefix.len() {
                            assert(prefix[k] == next[k]);
                        } else {
                            assert(next[k] == tags@[i as int]@);
                        }
                    }
                    if before.contains(t) {
                        let k = choose|k: int|
                            0 <= k < prefix.len() && normalized_tag(prefix[k]) == t;
                        assert(next[k] == prefix[k]);
                    }
                }
                assert(normalized_tag_set(next) =~= before);
            }
        }
        i = i + 1;
    }
    proof {
        assert(tags@.take(tags@.len() as int) == tags@);
        let tv = views(tags@);
        assert forall|i: int|
            0 <= i < tags.len() && lowercase(trim(#[trigger] tags@[i]@)).len() > 0 implies views(
            r@,
        ).contains(lowercase(trim(tags@[i]@))) by {
            assert(tv[i] == tags@[i]@);
            assert(normalized_tag_set(tv).contains(lowercase(trim(tags@[i]@))));
            assert(views(r@).to_set().contains(lowercase(trim(tags@[i]@))));
        }
        assert forall|j: int| 0 <= j < r.len() implies lowercase_of_some_tag(
            #[trigger] r@[j]@,
            tags@,
        ) by {
            assert(views(r@)[j] == r@[j]@);
            assert(views(r@).to_set().contains(r@[j]@));
            assert(normalized_tag_set(tv).contains(r@[j]@));
            let i = choose|i: int| 0 <= i < tv.len() && normalized_tag(tv[i]) == r@[j]@;
            assert(tv[i] == tags@[i]@);
            assert(0 <= i < tags.len() && r@[j]@ == lowercase(trim(tags@[i]@)));
        }
    }
    r
}

} // verus!
