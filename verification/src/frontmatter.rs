//! The on-disk note format: a YAML frontmatter block fenced by `---` lines,
//! followed by the Markdown body.
//!
//! The YAML inside the fence is read and written by `serde_yaml` outside this
//! crate; here the fence is framed and split, and the fields read from it are
//! normalized and checked.

use vstd::prelude::*;
use crate::text::{chars_of, string_from_range, occurs_at, contains_seq, is_first_occurrence, find_seq, views};
use crate::order::{strictly_sorted, lex_lt, lemma_lex_asymmetric, lemma_lex_irreflexive};
use crate::normalize::{
    opt_view, normalized_optional, normalized_tag_set, normalized_title, normalize_required,
    normalize_title, normalize_optional_string, normalize_tags, result_view,
    lemma_normalized_tag_set_fixed,
};
use crate::text::{trim, is_ascii_seq};

verus! {

/// The fields of a note's frontmatter.
#[derive(Debug)]
pub struct Frontmatter {
    pub id: String,
    pub title: String,
    pub category: Option<String>,
    pub tags: Vec<String>,
    pub created_at: String,
    pub updated_at: String,
}

/// A note split into its frontmatter and its Markdown body.
#[derive(Debug)]
pub struct ParsedDocument {
    pub meta: Frontmatter,
    pub body: String,
}

/// Whether chrono's `DateTime::parse_from_rfc3339` accepts a string.
pub uninterp spec fn is_rfc3339(s: Seq<char>) -> bool;

/// `chrono::DateTime::parse_from_rfc3339`, reduced to whether it succeeds.
/// Claimed: the answer is a function of the string alone; which strings are
/// accepted is left unstated.
#[verifier::external_body]
fn parses_as_rfc3339(value: &str) -> (r: bool)
    ensures
        r == is_rfc3339(value@),
{
    chrono::DateTime::parse_from_rfc3339(value).is_ok()
}

/// `Ok` when the value is an RFC 3339 timestamp, else the error
/// `<field> must be RFC3339`.
pub fn validate_rfc3339(value: &str, field: &str) -> (r: Result<(), String>)
    ensures
        r is Ok <==> is_rfc3339(value@),
        r matches Err(e) ==> e@ == field@ + " must be RFC3339"@,
{
    if parses_as_rfc3339(value) {
        Ok(())
    } else {
        Err(String::from_str(field).concat(" must be RFC3339"))
    }
}

/// `s` with every carriage return that precedes a line feed removed, as
/// `str::replace("\r\n", "\n")` does it (left to right, without overlap).
pub open spec fn crlf_to_lf(s: Seq<char>) -> Seq<char>
    decreases s.len(),
{
    if s.len() == 0 {
        s
    } else if s.len() >= 2 && s[0] == '\r' && s[1] == '\n' {
        seq!['\n'] + crlf_to_lf(s.skip(2))
    } else {
        seq![s[0]] + crlf_to_lf(s.skip(1))
    }
}

/// The opening fence of the frontmatter block.
pub open spec fn opening_fence() -> Seq<char> {
    "---\n"@
}

/// The closing fence of the frontmatter block, with the line feeds around it.
pub open spec fn closing_fence() -> Seq<char> {
    "\n---\n"@
}

/// The first index of the closing fence in `rest` (meaningful when there is
/// one).
pub open spec fn closing_index(rest: Seq<char>) -> int {
    choose|i: int| is_first_occurrence(rest, closing_fence(), i)
}

/// How a note's text splits into the frontmatter text and the body: after
/// line endings are normalized, the text must start with the opening fence,
/// the frontmatter runs up to the first closing fence, and the body is what
/// follows it, less the one line feed of the blank separator line where
/// there is one.
pub open spec fn split_result(content: Seq<char>) -> Result<(Seq<char>, Seq<char>), Seq<char>> {
    let n = crlf_to_lf(content);
    if !occurs_at(n, opening_fence(), 0) {
        Err("missing YAML frontmatter"@)
    } else {
        let rest = n.skip(4);
        if !contains_seq(rest, closing_fence()) {
            Err("unterminated YAML frontmatter"@)
        } else {
            let i = closing_index(rest);
            Ok((rest.take(i), without_separator(rest.skip(i + 5))))
        }
    }
}

/// What follows the closing fence, less one leading line feed: the blank line
/// that separates the frontmatter from the body.
pub open spec fn without_separator(after: Seq<char>) -> Seq<char> {
    if after.len() > 0 && after[0] == '\n' {
        after.skip(1)
    } else {
        after
    }
}

/// The text of a note with frontmatter text `yaml` and body `body`.
pub open spec fn framed(yaml: Seq<char>, body: Seq<char>) -> Seq<char> {
    "---\n"@ + yaml + "---\n\n"@ + body
}

/// The view of a split result.
pub open spec fn split_view(r: Result<(String, String), String>) -> Result<(Seq<char>, Seq<char>), Seq<char>> {
    match r {
        Ok((y, b)) => Ok((y@, b@)),
        Err(e) => Err(e@),
    }
}

proof fn lemma_first_occurrence_unique(s: Seq<char>, p: Seq<char>, i: int, j: int)
    requires
        is_first_occurrence(s, p, i),
        is_first_occurrence(s, p, j),
    ensures
        i == j,
{
}

/// Line endings normalized to line feeds.
pub fn normalize_line_endings(v: &Vec<char>) -> (r: Vec<char>)
    ensures
        r@ == crlf_to_lf(v@),
{
    let mut out: Vec<char> = Vec::new();
    let mut i: usize = 0;
    proof {
        assert(v@.skip(0) == v@);
    }
    while i < v.len()
        invariant
            i <= v.len(),
            crlf_to_lf(v@) == out@ + crlf_to_lf(v@.skip(i as int)),
        decreases v.len() - i,
    {
        let ghost rest = v@.skip(i as int);
        if i + 1 < v.len() && v[i] == '\r' && v[i + 1] == '\n' {
            proof {
                assert(rest[0] == '\r' && rest[1] == '\n');
                assert(rest.skip(2) == v@.skip(i + 2));
                assert(out@ + crlf_to_lf(rest) == out@.push('\n') + crlf_to_lf(v@.skip(i + 2)));
            }
            out.push('\n');
            i = i + 2;
        } else {
            proof {
                assert(rest[0] == v@[i as int]);
                assert(rest.skip(1) == v@.skip(i + 1));
                assert(out@ + crlf_to_lf(rest) == out@.push(v@[i as int]) + crlf_to_lf(
                    v@.skip(i + 1),
                ));
            }
            out.push(v[i]);
            i = i + 1;
        }
    }
    proof {
        assert(v@.skip(i as int) == Seq::<char>::empty());
        assert(out@ + Seq::<char>::empty() == out@);
    }
    out
}

/// Splits a note's text into its frontmatter text and its body (see
/// `split_result`).
pub fn split_markdown_document(content: &str) -> (r: Result<(String, String), String>)
    ensures
        split_view(r) == split_result(content@),
{
    let raw = chars_of(content);
    let n = normalize_line_endings(&raw);
    let open = chars_of("---\n");
    proof {
        reveal_strlit("---\n");
    }
    if !crate::text::matches_at(&n, &open, 0) {
        return Err(String::from_str("missing YAML frontmatter"));
    }
    let rest = chars_of(string_from_range(&n, 4, n.len()).as_str());
    let fence = chars_of("\n---\n");
    proof {
        reveal_strlit("\n---\n");
        assert(rest@ == n@.skip(4));
    }
    match find_seq(&rest, &fence) {
        None => Err(String::from_str("unterminated YAML frontmatter")),
        Some(i) => {
            let yaml = string_from_range(&rest, 0, i);
            let start: usize = if i + 5 < rest.len() && rest[i + 5] == '\n' {
                i + 6
            } else {
                i + 5
            };
            let body = string_from_range(&rest, start, rest.len());
            proof {
                let c = closing_index(rest@);
                lemma_first_occurrence_unique(rest@, closing_fence(), i as int, c);
                assert(rest@.subrange(0, i as int) == rest@.take(i as int));
                assert(rest@.subrange(start as int, rest@.len() as int) == without_separator(
                    rest@.skip(i + 5),
                ));
            }
            Ok((yaml, body))
        },
    }
}

/// The text of a note: the opening fence, the frontmatter text (which ends
/// with a line feed as written by `serde_yaml`), the closing fence, a blank
/// line and the body.
pub fn frame_markdown_document(yaml: &str, body: &str) -> (r: String)
    ensures
        r@ == framed(yaml@, body@),
{
    String::from_str("---\n").concat(yaml).concat("---\n\n").concat(body)
}

proof fn lemma_no_crlf_fixed(s: Seq<char>)
    requires
        !contains_seq(s, "\r\n"@),
    ensures
        crlf_to_lf(s) == s,
    decreases s.len(),
{
    reveal_strlit("\r\n");
    if s.len() > 0 {
        if s.len() >= 2 && s[0] == '\r' && s[1] == '\n' {
            assert(s.subrange(0, 2) =~= "\r\n"@);
            assert(occurs_at(s, "\r\n"@, 0));
        }
        assert forall|i: int| !occurs_at(s.skip(1), "\r\n"@, i) by {
            if occurs_at(s.skip(1), "\r\n"@, i) {
                assert(s.subrange(i + 1, i + 3) =~= s.skip(1).subrange(i, i + 2));
                assert(occurs_at(s, "\r\n"@, i + 1));
            }
        }
        lemma_no_crlf_fixed(s.skip(1));
        assert(s == seq![s[0]] + s.skip(1));
    }
}

proof fn lemma_no_crlf_concat(a: Seq<char>, b: Seq<char>)
    requires
        !contains_seq(a, "\r\n"@),
        !contains_seq(b, "\r\n"@),
        a.len() == 0 || b.len() == 0 || a.last() != '\r' || b[0] != '\n',
    ensures
        !contains_seq(a + b, "\r\n"@),
{
    reveal_strlit("\r\n");
    let s = a + b;
    assert forall|i: int| !occurs_at(s, "\r\n"@, i) by {
        if occurs_at(s, "\r\n"@, i) {
            assert(s[i] == '\r' && s[i + 1] == '\n') by {
                assert(s.subrange(i, i + 2)[0] == s[i]);
                assert(s.subrange(i, i + 2)[1] == s[i + 1]);
            }
            if i + 2 <= a.len() {
                assert(a.subrange(i, i + 2) =~= "\r\n"@);
                assert(occurs_at(a, "\r\n"@, i));
            } else if i >= a.len() {
                assert(b.subrange(i - a.len(), i - a.len() + 2) =~= "\r\n"@);
                assert(occurs_at(b, "\r\n"@, i - a.len()));
            } else {
                assert(a.last() == s[i]);
                assert(b[0] == s[i + 1]);
            }
        }
    }
}

proof fn lemma_literal_no_crlf(s: Seq<char>)
    requires
        forall|i: int| 0 <= i < s.len() ==> s[i] != '\r',
    ensures
        !contains_seq(s, "\r\n"@),
{
    reveal_strlit("\r\n");
    assert forall|i: int| !occurs_at(s, "\r\n"@, i) by {
        if occurs_at(s, "\r\n"@, i) {
            assert(s.subrange(i, i + 2)[0] == s[i]);
        }
    }
}

/// Reading back a note that was written gives back what was written: the
/// frontmatter text without its final line feed, and the body itself (the
/// blank line that the framing adds is the separator). This holds whenever the frontmatter
/// text ends with a line feed, neither part holds a carriage return followed
/// by a line feed (those are normalized on reading), and the frontmatter text
/// does not itself contain a closing fence (checked on the text followed by
/// the dashes of the real one).
pub proof fn lemma_split_of_framed(yaml: Seq<char>, body: Seq<char>)
    requires
        yaml.len() > 0,
        yaml.last() == '\n',
        !contains_seq(yaml, "\r\n"@),
        !contains_seq(body, "\r\n"@),
        !contains_seq(yaml + "---"@, "\n---\n"@),
    ensures
        split_result(framed(yaml, body)) == Ok::<(Seq<char>, Seq<char>), Seq<char>>(
            (yaml.drop_last(), body),
        ),
{
    reveal_strlit("---\n");
    reveal_strlit("---\n\n");
    reveal_strlit("\n---\n");
    reveal_strlit("---");
    reveal_strlit("\n");
    let open = "---\n"@;
    let mid = "---\n\n"@;
    let f = framed(yaml, body);
    lemma_literal_no_crlf(open);
    lemma_literal_no_crlf(mid);
    lemma_no_crlf_concat(open, yaml);
    lemma_no_crlf_concat(open + yaml, mid);
    lemma_no_crlf_concat(open + yaml + mid, body);
    lemma_no_crlf_fixed(f);
    assert(f.subrange(0, 4) =~= open);
    let rest = f.skip(4);
    assert(rest =~= yaml + mid + body);
    let k = yaml.len() - 1;
    assert(rest.subrange(k, k + 5) =~= closing_fence());
    assert forall|j: int| 0 <= j < k implies !occurs_at(rest, closing_fence(), j) by {
        if occurs_at(rest, closing_fence(), j) {
            let y3 = yaml + "---"@;
            assert(rest.subrange(j, j + 5) =~= y3.subrange(j, j + 5));
            assert(occurs_at(y3, "\n---\n"@, j));
        }
    }
    assert(is_first_occurrence(rest, closing_fence(), k));
    assert(contains_seq(rest, closing_fence()));
    lemma_first_occurrence_unique(rest, closing_fence(), k, closing_index(rest));
    assert(rest.take(k) =~= yaml.drop_last());
    assert(rest.skip(k + 5) =~= "\n"@ + body);
    assert(without_separator(rest.skip(k + 5)) =~= body);
}

/// `out` is the normalized form of the tag list `input`: its distinct
/// non-empty normalized tags in ascending order.
pub open spec fn tags_normalized(out: Seq<String>, input: Seq<String>) -> bool {
    strictly_sorted(views(out)) && views(out).to_set() == normalized_tag_set(views(input))
}

/// A strictly sorted list is determined by the set of its elements.
pub proof fn lemma_sorted_lists_equal(a: Seq<Seq<char>>, b: Seq<Seq<char>>)
    requires
        strictly_sorted(a),
        strictly_sorted(b),
        a.to_set() == b.to_set(),
    ensures
        a == b,
    decreases a.len(),
{
    if a.len() == 0 {
        if b.len() > 0 {
            assert(b.to_set().contains(b[0]));
        }
        assert(a =~= b);
    } else if b.len() == 0 {
        assert(a.to_set().contains(a[0]));
    } else {
        // The first elements are the least of the common set.
        assert(b.to_set().contains(a[0]));
        assert(a.to_set().contains(b[0]));
        let ia = choose|i: int| 0 <= i < a.len() && a[i] == b[0];
        let ib = choose|i: int| 0 <= i < b.len() && b[i] == a[0];
        if ia > 0 && ib > 0 {
            assert(lex_lt(a[0], a[ia]));
            assert(lex_lt(b[0], b[ib]));
            lemma_lex_asymmetric(a[0], b[0]);
        }
        if ia == 0 {
            if ib > 0 {
                assert(lex_lt(b[0], b[ib]));
                lemma_lex_irreflexive(a[0]);
            }
        } else if ib == 0 {
            assert(lex_lt(a[0], a[ia]));
            lemma_lex_irreflexive(b[0]);
        }
        assert(a[0] == b[0]);
        let ra = a.drop_first();
        let rb = b.drop_first();
        assert forall|t: Seq<char>| ra.to_set().contains(t) <==> rb.to_set().contains(t) by {
            if ra.to_set().contains(t) {
                let i = choose|i: int| 0 <= i < ra.len() && ra[i] == t;
                assert(a[i + 1] == t);
                assert(lex_lt(a[0], t));
                assert(b.to_set().contains(t));
                let j = choose|j: int| 0 <= j < b.len() && b[j] == t;
                if j == 0 {
                    lemma_lex_irreflexive(t);
                }
                assert(rb[j - 1] == t);
            }
            if rb.to_set().contains(t) {
                let i = choose|i: int| 0 <= i < rb.len() && rb[i] == t;
                assert(b[i + 1] == t);
                assert(lex_lt(b[0], t));
                assert(a.to_set().contains(t));
                let j = choose|j: int| 0 <= j < a.len() && a[j] == t;
                if j == 0 {
                    lemma_lex_irreflexive(t);
                }
                assert(ra[j - 1] == t);
            }
        }
        assert(ra.to_set() =~= rb.to_set());
        lemma_sorted_lists_equal(ra, rb);
        assert(a =~= seq![a[0]] + ra);
        assert(b =~= seq![b[0]] + rb);
    }
}

/// Normalizing a normalized list of ASCII tags gives it back: the result of
/// a second normalization equals the first.
pub proof fn lemma_normalize_tags_idempotent_ascii(
    input: Seq<Seq<char>>,
    once: Seq<Seq<char>>,
    twice: Seq<Seq<char>>,
)
    requires
        forall|i: int| 0 <= i < input.len() ==> is_ascii_seq(#[trigger] input[i]),
        strictly_sorted(once),
        once.to_set() == normalized_tag_set(input),
        strictly_sorted(twice),
        twice.to_set() == normalized_tag_set(once),
    ensures
        twice == once,
{
    lemma_normalized_tag_set_fixed(input, once);
    lemma_sorted_lists_equal(twice, once);
}

/// The frontmatter with its fields normalized, or the first check that
/// fails: the id must not be blank, and both timestamps must be RFC 3339.
pub open spec fn frontmatter_ok(raw: Frontmatter) -> bool {
    trim(raw.id@).len() > 0 && is_rfc3339(raw.created_at@) && is_rfc3339(raw.updated_at@)
}

/// The error reported for frontmatter that fails a check.
pub open spec fn frontmatter_error(raw: Frontmatter) -> Seq<char> {
    if trim(raw.id@).len() == 0 {
        "id is required"@
    } else if !is_rfc3339(raw.created_at@) {
        "created_at must be RFC3339"@
    } else {
        "updated_at must be RFC3339"@
    }
}

/// `out` is `raw` with its fields normalized: the id and title trimmed (an
/// empty title becomes `Untitled`), the category trimmed or dropped when
/// blank, the tags normalized, and the timestamps unchanged.
pub open spec fn frontmatter_normalized(out: Frontmatter, raw: Frontmatter) -> bool {
    &&& out.id@ == trim(raw.id@)
    &&& out.title@ == normalized_title(Some(raw.title@))
    &&& opt_view(out.category) == normalized_optional(opt_view(raw.category))
    &&& tags_normalized(out.tags@, raw.tags@)
    &&& out.created_at@ == raw.created_at@
    &&& out.updated_at@ == raw.updated_at@
}

/// The frontmatter read from a note, checked and normalized.
pub fn normalize_frontmatter(raw: Frontmatter) -> (r: Result<Frontmatter, String>)
    ensures
        r is Ok <==> frontmatter_ok(raw),
        r matches Ok(m) ==> frontmatter_normalized(m, raw),
        r matches Err(e) ==> e@ == frontmatter_error(raw),
{
    let ghost raw_copy = raw;
    let Frontmatter { id, title, category, tags, created_at, updated_at } = raw;
    let id = match normalize_required(id, "id") {
        Ok(v) => v,
        Err(e) => {
            proof {
                reveal_strlit("id");
                reveal_strlit(" is required");
                reveal_strlit("id is required");
            }
            return Err(e);
        },
    };
    let title = normalize_title(Some(title));
    let category = normalize_optional_string(category);
    let tags = normalize_tags(tags);
    match validate_rfc3339(created_at.as_str(), "created_at") {
        Ok(()) => {},
        Err(e) => {
            proof {
                reveal_strlit("created_at");
                reveal_strlit(" must be RFC3339");
                reveal_strlit("created_at must be RFC3339");
            }
            return Err(e);
        },
    }
    match validate_rfc3339(updated_at.as_str(), "updated_at") {
        Ok(()) => {},
        Err(e) => {
            proof {
                reveal_strlit("updated_at");
                reveal_strlit(" must be RFC3339");
                reveal_strlit("updated_at must be RFC3339");
            }
            return Err(e);
        },
    }
    Ok(Frontmatter { id, title, category, tags, created_at, updated_at })
}

} // verus!
