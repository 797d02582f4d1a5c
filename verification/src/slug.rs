//! Human-readable file-name slugs for note titles.

use vstd::prelude::*;
use crate::text::{
    char_is_alphanumeric, char_lowercase, trim, trim_str, chars_of, char_to_lowercase,
    is_alphanumeric, push_char, string_from_range, contains_seq, occurs_at, ascii_alphanumeric,
    ascii_upper, ascii_lower, is_ascii_char, is_ascii_seq, trim_start, trim_end, char_is_whitespace,
    lemma_trim_start_is_suffix, lemma_trim_edges,
};

verus! {

/// Characters that may not appear in a file name on common file systems.
pub open spec fn is_forbidden_char(c: char) -> bool {
    c == '<' || c == '>' || c == ':' || c == '"' || c == '/' || c == '\\' || c == '|' || c == '?'
        || c == '*'
}

/// The characters of `s` each replaced by what `char::to_lowercase` yields.
pub open spec fn lowered_chars(s: Seq<char>) -> Seq<char>
    decreases s.len(),
{
    if s.len() == 0 {
        Seq::empty()
    } else {
        lowered_chars(s.drop_last()) + char_lowercase(s.last())
    }
}

/// Scanning `cs` left to right: forbidden characters are dropped,
/// alphanumeric ones kept, and each run of other characters becomes a single
/// dash. The flag says whether the last character written was such a dash.
pub open spec fn raw_slug(cs: Seq<char>) -> (Seq<char>, bool)
    decreases cs.len(),
{
    if cs.len() == 0 {
        (Seq::empty(), false)
    } else {
        let (s, dash) = raw_slug(cs.drop_last());
        let c = cs.last();
        if is_forbidden_char(c) {
            (s, dash)
        } else if char_is_alphanumeric(c) {
            (s.push(c), false)
        } else if !dash {
            (s.push('-'), true)
        } else {
            (s, dash)
        }
    }
}

/// `s` without leading dashes.
pub open spec fn strip_leading_dashes(s: Seq<char>) -> Seq<char>
    decreases s.len(),
{
    if s.len() > 0 && s[0] == '-' {
        strip_leading_dashes(s.drop_first())
    } else {
        s
    }
}

/// `s` without trailing dashes.
pub open spec fn strip_trailing_dashes(s: Seq<char>) -> Seq<char>
    decreases s.len(),
{
    if s.len() > 0 && s.last() == '-' {
        strip_trailing_dashes(s.drop_last())
    } else {
        s
    }
}

/// The slug of a title: the trimmed, lower-cased title scanned as by
/// `raw_slug`, without leading and trailing dashes, or `untitled` when nothing
/// is left.
pub open spec fn slug_of(title: Seq<char>) -> Seq<char> {
    let s = strip_trailing_dashes(strip_leading_dashes(raw_slug(lowered_chars(trim(title))).0));
    if s.len() == 0 {
        "untitled"@
    } else {
        s
    }
}

proof fn lemma_raw_slug_step(seen: Seq<char>, c: char)
    ensures
        raw_slug(seen.push(c)) == ({
            let (s, dash) = raw_slug(seen);
            if is_forbidden_char(c) {
                (s, dash)
            } else if char_is_alphanumeric(c) {
                (s.push(c), false)
            } else if !dash {
                (s.push('-'), true)
            } else {
                (s, dash)
            }
        }),
{
    assert(seen.push(c).drop_last() == seen);
}

proof fn lemma_raw_slug_allowed(cs: Seq<char>)
    ensures
        forall|i: int| 0 <= i < raw_slug(cs).0.len() ==> !is_forbidden_char(#[trigger] raw_slug(cs).0[i]),
    decreases cs.len(),
{
    if cs.len() > 0 {
        lemma_raw_slug_allowed(cs.drop_last());
        let prev = raw_slug(cs.drop_last()).0;
        let cur = raw_slug(cs).0;
        assert forall|i: int| 0 <= i < cur.len() implies !is_forbidden_char(#[trigger] cur[i]) by {
            if i < prev.len() {
                assert(cur[i] == prev[i]);
            }
        }
    }
}

proof fn lemma_strip_is_piece(s: Seq<char>)
    ensures
        forall|i: int|
            0 <= i < strip_trailing_dashes(strip_leading_dashes(s)).len() ==> exists|j: int|
                0 <= j < s.len() && #[trigger] strip_trailing_dashes(strip_leading_dashes(s))[i]
                    == s[j],
{
    lemma_strip_leading_piece(s);
    lemma_strip_trailing_piece(strip_leading_dashes(s));
    let a = strip_leading_dashes(s);
    let b = strip_trailing_dashes(a);
    assert forall|i: int| 0 <= i < b.len() implies exists|j: int| 0 <= j < s.len() && #[trigger] b[i]
        == s[j] by {
        assert(b[i] == a[i]);
        assert(a[i] == s[s.len() - a.len() + i]);
    }
}

proof fn lemma_strip_leading_piece(s: Seq<char>)
    ensures
        strip_leading_dashes(s).len() <= s.len(),
        strip_leading_dashes(s) == s.skip(s.len() - strip_leading_dashes(s).len()),
    decreases s.len(),
{
    if s.len() > 0 && s[0] == '-' {
        lemma_strip_leading_piece(s.drop_first());
        assert(s.drop_first().skip(s.drop_first().len() - strip_leading_dashes(s).len()) == s.skip(
            s.len() - strip_leading_dashes(s).len(),
        ));
    } else {
        assert(s.skip(0) == s);
    }
}

proof fn lemma_strip_trailing_piece(s: Seq<char>)
    ensures
        strip_trailing_dashes(s).len() <= s.len(),
        strip_trailing_dashes(s) == s.take(strip_trailing_dashes(s).len() as int),
    decreases s.len(),
{
    if s.len() > 0 && s.last() == '-' {
        lemma_strip_trailing_piece(s.drop_last());
        assert(s.drop_last().take(strip_trailing_dashes(s).len() as int) == s.take(
            strip_trailing_dashes(s).len() as int,
        ));
    } else {
        assert(s.take(s.len() as int) == s);
    }
}

/// A slug is never empty and never holds a character that file systems
/// forbid in names, such as a path separator: the note file name built from
/// it is a single path component.
pub proof fn lemma_slug_is_file_name_safe(title: Seq<char>)
    ensures
        slug_of(title).len() > 0,
        forall|i: int| 0 <= i < slug_of(title).len() ==> !is_forbidden_char(#[trigger] slug_of(title)[i]),
{
    let raw = raw_slug(lowered_chars(trim(title))).0;
    lemma_raw_slug_allowed(lowered_chars(trim(title)));
    lemma_strip_is_piece(raw);
    reveal_strlit("untitled");
}

/// No two dashes stand next to each other.
spec fn no_adjacent_dashes(s: Seq<char>) -> bool {
    forall|i: int, j: int|
        #![trigger s[i], s[j]]
        0 <= i && j == i + 1 && j < s.len() ==> !(s[i] == '-' && s[j] == '-')
}

proof fn lemma_raw_slug_chars(cs: Seq<char>)
    ensures
        forall|i: int|
            0 <= i < raw_slug(cs).0.len() ==> char_is_alphanumeric(#[trigger] raw_slug(cs).0[i])
                || raw_slug(cs).0[i] == '-',
    decreases cs.len(),
{
    if cs.len() > 0 {
        lemma_raw_slug_chars(cs.drop_last());
        let prev = raw_slug(cs.drop_last()).0;
        let cur = raw_slug(cs).0;
        assert forall|i: int| 0 <= i < cur.len() implies char_is_alphanumeric(#[trigger] cur[i])
            || cur[i] == '-' by {
            if i < prev.len() {
                assert(cur[i] == prev[i]);
            }
        }
    }
}

proof fn lemma_raw_slug_no_run(cs: Seq<char>)
    requires
        !char_is_alphanumeric('-'),
    ensures
        raw_slug(cs).1 == (raw_slug(cs).0.len() > 0 && raw_slug(cs).0.last() == '-'),
        no_adjacent_dashes(raw_slug(cs).0),
    decreases cs.len(),
{
    if cs.len() > 0 {
        lemma_raw_slug_no_run(cs.drop_last());
        let (prev, dash) = raw_slug(cs.drop_last());
        let cur = raw_slug(cs).0;
        let c = cs.last();
        assert forall|i: int, j: int|
            #![trigger cur[i], cur[j]]
            0 <= i && j == i + 1 && j < cur.len() implies !(cur[i] == '-' && cur[j] == '-') by {
            if j < prev.len() {
                assert(cur[i] == prev[i] && cur[j] == prev[j]);
            } else if cur.len() > prev.len() {
                assert(cur[i] == prev[i]);
                assert(prev.last() == prev[i]);
            }
        }
    }
}

proof fn lemma_strip_ends(s: Seq<char>)
    ensures
        strip_leading_dashes(s).len() > 0 ==> strip_leading_dashes(s)[0] != '-',
        strip_trailing_dashes(s).len() > 0 ==> strip_trailing_dashes(s).last() != '-',
    decreases s.len(),
{
    if s.len() > 0 && s[0] == '-' {
        lemma_strip_ends(s.drop_first());
    }
    if s.len() > 0 && s.last() == '-' {
        lemma_strip_ends(s.drop_last());
    }
}

/// A slug neither starts nor ends with a dash, is made of alphanumeric
/// characters and dashes only, and never holds two dashes in a row.
pub proof fn lemma_slug_shape(title: Seq<char>)
    ensures
        slug_of(title).len() > 0,
        slug_of(title)[0] != '-',
        slug_of(title).last() != '-',
        forall|i: int|
            0 <= i < slug_of(title).len() ==> char_is_alphanumeric(#[trigger] slug_of(title)[i])
                || slug_of(title)[i] == '-',
        !contains_seq(slug_of(title), "--"@),
{
    reveal_strlit("untitled");
    reveal_strlit("--");
    assert(!char_is_alphanumeric('-'));
    let cs = lowered_chars(trim(title));
    let raw = raw_slug(cs).0;
    let a = strip_leading_dashes(raw);
    let b = strip_trailing_dashes(a);
    lemma_strip_leading_piece(raw);
    lemma_strip_trailing_piece(a);
    lemma_strip_ends(raw);
    lemma_strip_ends(a);
    let off = raw.len() - a.len();
    assert forall|i: int| 0 <= i < b.len() implies b[i] == raw[off + i] by {
        assert(b[i] == a[i]);
        assert(a[i] == raw[off + i]);
    }
    let s = slug_of(title);
    if b.len() > 0 {
        assert(b[0] == a[0]);
        lemma_raw_slug_chars(cs);
        assert forall|i: int| 0 <= i < b.len() implies char_is_alphanumeric(#[trigger] b[i]) || b[i]
            == '-' by {
            assert(b[i] == raw[off + i]);
        }
        lemma_raw_slug_no_run(cs);
    } else {
        assert forall|i: int| 0 <= i < s.len() implies char_is_alphanumeric(#[trigger] s[i]) by {
            assert(ascii_alphanumeric(s[i]));
        }
    }
    assert forall|k: int| !occurs_at(s, "--"@, k) by {
        if occurs_at(s, "--"@, k) {
            assert(s.subrange(k, k + 2)[0] == s[k]);
            assert(s.subrange(k, k + 2)[1] == s[k + 1]);
            if b.len() > 0 {
                assert(s[k] == raw[off + k] && s[k + 1] == raw[off + k + 1]);
            }
        }
    }
}

/// A character of the slug of an ASCII title: a lower-case ASCII letter, a
/// digit or a dash.
spec fn ascii_slug_char(c: char) -> bool {
    c == '-' || (ascii_alphanumeric(c) && !ascii_upper(c))
}

proof fn lemma_ascii_lower_char(c: char)
    requires
        is_ascii_char(c),
    ensures
        is_ascii_char(ascii_lower(c)),
        !ascii_upper(ascii_lower(c)),
        ascii_alphanumeric(ascii_lower(c)) == ascii_alphanumeric(c),
        !ascii_upper(c) ==> ascii_lower(c) == c,
{
    if ascii_upper(c) {
        let u = (c as u32) + 32;
        assert(97 <= u <= 122);
        assert((u as char) as u32 == u);
    }
}

proof fn lemma_lowered_ascii(s: Seq<char>)
    requires
        is_ascii_seq(s),
    ensures
        lowered_chars(s) == s.map_values(|c: char| ascii_lower(c)),
    decreases s.len(),
{
    if s.len() > 0 {
        let init = s.drop_last();
        assert(is_ascii_seq(init)) by {
            assert forall|i: int| 0 <= i < init.len() implies is_ascii_char(#[trigger] init[i]) by {
                assert(init[i] == s[i]);
            }
        }
        lemma_lowered_ascii(init);
        assert(is_ascii_char(s[s.len() - 1]));
        assert(s.map_values(|c: char| ascii_lower(c)) =~= init.map_values(|c: char| ascii_lower(c))
            + seq![ascii_lower(s.last())]);
    } else {
        assert(s.map_values(|c: char| ascii_lower(c)) =~= Seq::<char>::empty());
    }
}

proof fn lemma_raw_slug_ascii(cs: Seq<char>)
    requires
        forall|i: int| 0 <= i < cs.len() ==> is_ascii_char(#[trigger] cs[i]) && !ascii_upper(cs[i]),
    ensures
        forall|i: int| 0 <= i < raw_slug(cs).0.len() ==> ascii_slug_char(#[trigger] raw_slug(cs).0[i]),
    decreases cs.len(),
{
    if cs.len() > 0 {
        let init = cs.drop_last();
        assert forall|i: int| 0 <= i < init.len() implies is_ascii_char(#[trigger] init[i])
            && !ascii_upper(init[i]) by {
            assert(init[i] == cs[i]);
        }
        lemma_raw_slug_ascii(init);
        assert(is_ascii_char(cs[cs.len() - 1]));
        let prev = raw_slug(init).0;
        let cur = raw_slug(cs).0;
        assert forall|i: int| 0 <= i < cur.len() implies ascii_slug_char(#[trigger] cur[i]) by {
            if i < prev.len() {
                assert(cur[i] == prev[i]);
            }
        }
    }
}

proof fn lemma_raw_slug_identity(p: Seq<char>)
    requires
        forall|i: int| 0 <= i < p.len() ==> ascii_slug_char(#[trigger] p[i]),
        no_adjacent_dashes(p),
    ensures
        raw_slug(p) == (p, p.len() > 0 && p.last() == '-'),
    decreases p.len(),
{
    if p.len() > 0 {
        let init = p.drop_last();
        assert forall|i: int| 0 <= i < init.len() implies ascii_slug_char(#[trigger] init[i]) by {
            assert(init[i] == p[i]);
        }
        assert forall|i: int, j: int|
            #![trigger init[i], init[j]]
            0 <= i && j == i + 1 && j < init.len() implies !(init[i] == '-' && init[j] == '-') by {
            assert(init[i] == p[i] && init[j] == p[j]);
        }
        lemma_raw_slug_identity(init);
        let c = p.last();
        assert(ascii_slug_char(p[p.len() - 1]));
        if init.len() > 0 && c == '-' {
            assert(init.last() == p[p.len() - 2]);
            assert(p[p.len() - 1] == c);
        }
        assert(init.push(c) =~= p);
    }
}

proof fn lemma_slug_of_slug(s: Seq<char>)
    requires
        s.len() > 0,
        s[0] != '-',
        s.last() != '-',
        forall|i: int| 0 <= i < s.len() ==> ascii_slug_char(#[trigger] s[i]),
        no_adjacent_dashes(s),
    ensures
        slug_of(s) == s,
{
    assert(ascii_slug_char(s[0]));
    assert(ascii_slug_char(s[s.len() - 1]));
    assert(!char_is_whitespace(s[0]));
    assert(!char_is_whitespace(s.last()));
    assert(trim_start(s) == s);
    assert(trim_end(s) == s);
    assert(is_ascii_seq(s)) by {
        assert forall|i: int| 0 <= i < s.len() implies is_ascii_char(#[trigger] s[i]) by {
            assert(ascii_slug_char(s[i]));
        }
    }
    lemma_lowered_ascii(s);
    assert(s.map_values(|c: char| ascii_lower(c)) =~= s) by {
        assert forall|i: int| 0 <= i < s.len() implies #[trigger] ascii_lower(s[i]) == s[i] by {
            assert(ascii_slug_char(s[i]));
        }
    }
    lemma_raw_slug_identity(s);
}

/// The slug of an ASCII title is its own slug: slugging twice changes
/// nothing.
pub proof fn lemma_slug_idempotent_ascii(title: Seq<char>)
    requires
        is_ascii_seq(title),
    ensures
        slug_of(slug_of(title)) == slug_of(title),
{
    reveal_strlit("untitled");
    reveal_strlit("--");
    lemma_slug_shape(title);
    let t = trim(title);
    lemma_trim_start_is_suffix(title);
    lemma_trim_edges(trim_start(title));
    assert(is_ascii_seq(t)) by {
        let a = trim_start(title);
        assert forall|i: int| 0 <= i < t.len() implies is_ascii_char(#[trigger] t[i]) by {
            assert(t[i] == a[i]);
            assert(a[i] == title[title.len() - a.len() + i]);
        }
    }
    lemma_lowered_ascii(t);
    let cs = lowered_chars(t);
    assert forall|i: int| 0 <= i < cs.len() implies is_ascii_char(#[trigger] cs[i]) && !ascii_upper(
        cs[i],
    ) by {
        assert(cs[i] == ascii_lower(t[i]));
        lemma_ascii_lower_char(t[i]);
    }
    lemma_raw_slug_ascii(cs);
    let raw = raw_slug(cs).0;
    let a = strip_leading_dashes(raw);
    let b = strip_trailing_dashes(a);
    lemma_strip_leading_piece(raw);
    lemma_strip_trailing_piece(a);
    let s = slug_of(title);
    assert forall|i: int| 0 <= i < s.len() implies ascii_slug_char(#[trigger] s[i]) by {
        if b.len() > 0 {
            assert(s[i] == b[i]);
            assert(b[i] == a[i]);
            assert(a[i] == raw[raw.len() - a.len() + i]);
        }
    }
    assert forall|i: int, j: int|
        #![trigger s[i], s[j]]
        0 <= i && j == i + 1 && j < s.len() implies !(s[i] == '-' && s[j] == '-') by {
        if s[i] == '-' && s[j] == '-' {
            assert(s.subrange(i, i + 2) =~= "--"@);
            assert(occurs_at(s, "--"@, i));
        }
    }
    lemma_slug_of_slug(s);
}

/// Whether a character is not a dash.
pub open spec fn not_dash() -> spec_fn(char) -> bool {
    |c: char| c != '-'
}

/// Whether a character is alphanumeric.
pub open spec fn alphanumeric() -> spec_fn(char) -> bool {
    |c: char| char_is_alphanumeric(c)
}

proof fn lemma_raw_slug_keeps_alphanumerics(cs: Seq<char>)
    ensures
        raw_slug(cs).0.filter(not_dash()) == cs.filter(alphanumeric()),
    decreases cs.len(),
{
    reveal(Seq::filter);
    if cs.len() > 0 {
        let init = cs.drop_last();
        let c = cs.last();
        lemma_raw_slug_keeps_alphanumerics(init);
        let (prev, dash) = raw_slug(init);
        prev.lemma_filter_push(c, not_dash());
        prev.lemma_filter_push('-', not_dash());
        assert(!char_is_alphanumeric('-'));
        if is_forbidden_char(c) {
            assert(!char_is_alphanumeric(c));
        }
    } else {
        assert(raw_slug(cs).0.filter(not_dash()) =~= cs.filter(alphanumeric()));
    }
}

proof fn lemma_strip_keeps_non_dashes(s: Seq<char>)
    ensures
        strip_leading_dashes(s).filter(not_dash()) == s.filter(not_dash()),
        strip_trailing_dashes(s).filter(not_dash()) == s.filter(not_dash()),
    decreases s.len(),
{
    reveal(Seq::filter);
    if s.len() > 0 && s[0] == '-' {
        lemma_strip_keeps_non_dashes(s.drop_first());
        assert(s =~= seq![s[0]] + s.drop_first());
        Seq::filter_distributes_over_add(seq![s[0]], s.drop_first(), not_dash());
        assert(seq![s[0]].filter(not_dash()) =~= Seq::<char>::empty()) by {
            assert(seq![s[0]] =~= Seq::<char>::empty().push(s[0]));
            Seq::<char>::empty().lemma_filter_push(s[0], not_dash());
            assert(Seq::<char>::empty().filter(not_dash()) =~= Seq::<char>::empty());
        }
        assert(Seq::<char>::empty() + s.drop_first().filter(not_dash()) =~= s.drop_first().filter(
            not_dash(),
        ));
    }
    if s.len() > 0 && s.last() == '-' {
        lemma_strip_keeps_non_dashes(s.drop_last());
    }
}

/// A slug keeps every alphanumeric character of the trimmed, lower-cased
/// title, in order, and nothing else but dashes; a title with no
/// alphanumeric character gets the slug `untitled`.
pub proof fn lemma_slug_keeps_alphanumerics(title: Seq<char>)
    ensures
        lowered_chars(trim(title)).filter(alphanumeric()).len() == 0 ==> slug_of(title)
            == "untitled"@,
        lowered_chars(trim(title)).filter(alphanumeric()).len() > 0 ==> slug_of(title).filter(
            not_dash(),
        ) == lowered_chars(trim(title)).filter(alphanumeric()),
{
    let cs = lowered_chars(trim(title));
    let raw = raw_slug(cs).0;
    let a = strip_leading_dashes(raw);
    let b = strip_trailing_dashes(a);
    lemma_raw_slug_keeps_alphanumerics(cs);
    lemma_strip_keeps_non_dashes(raw);
    lemma_strip_keeps_non_dashes(a);
    lemma_strip_ends(raw);
    lemma_strip_ends(a);
    lemma_strip_trailing_piece(a);
    if b.len() == 0 {
        assert(b.filter(not_dash()) =~= Seq::<char>::empty()) by {
            reveal(Seq::filter);
        }
    } else {
        assert(b[0] == a[0]);
        b.lemma_filter_contains(not_dash(), 0);
    }
}

/// The slug of a title, for use in a note's file name.
pub fn slugify_title(title: &str) -> (r: String)
    ensures
        r@ == slug_of(title@),
{
    let trimmed = trim_str(title);
    let tv = chars_of(trimmed.as_str());
    let mut slug: Vec<char> = Vec::new();
    let mut last_was_dash = false;
    let mut i: usize = 0;
    let ghost mut seen: Seq<char> = Seq::empty();
    while i < tv.len()
        invariant
            i <= tv.len(),
            tv@ == trim(title@),
            seen == lowered_chars(tv@.take(i as int)),
            raw_slug(seen) == (slug@, last_was_dash),
        decreases tv.len() - i,
    {
        let lowered = char_to_lowercase(tv[i]);
        let mut j: usize = 0;
        proof {
            assert(seen + lowered@.take(0) == seen);
        }
        while j < lowered.len()
            invariant
                j <= lowered.len(),
                raw_slug(seen + lowered@.take(j as int)) == (slug@, last_was_dash),
            decreases lowered.len() - j,
        {
            let ch = lowered[j];
            proof {
                assert(seen + lowered@.take(j + 1) == (seen + lowered@.take(j as int)).push(ch));
                lemma_raw_slug_step(seen + lowered@.take(j as int), ch);
            }
            let forbidden = ch == '<' || ch == '>' || ch == ':' || ch == '"' || ch == '/' || ch
                == '\\' || ch == '|' || ch == '?' || ch == '*';
            if forbidden {
            } else if is_alphanumeric(ch) {
                slug.push(ch);
                last_was_dash = false;
            } else if !last_was_dash {
                slug.push('-');
                last_was_dash = true;
            }
            j = j + 1;
        }
        proof {
            assert(lowered@.take(lowered@.len() as int) == lowered@);
            assert(tv@.take(i + 1).drop_last() == tv@.take(i as int));
            assert(tv@.take(i + 1).last() == tv@[i as int]);
            seen = seen + lowered@;
        }
        i = i + 1;
    }
    proof {
        assert(tv@.take(tv@.len() as int) == tv@);
    }
    // Strip the dashes at both ends.
    let mut from: usize = 0;
    proof {
        assert(slug@.skip(0) == slug@);
    }
    while from < slug.len() && slug[from] == '-'
        invariant
            from <= slug.len(),
            strip_leading_dashes(slug@) == strip_leading_dashes(slug@.skip(from as int)),
        decreases slug.len() - from,
    {
        proof {
            assert(slug@.skip(from as int).drop_first() == slug@.skip(from + 1));
        }
        from = from + 1;
    }
    proof {
        if from < slug.len() {
            assert(slug@.skip(from as int)[0] == slug@[from as int]);
        }
        assert(slug@.skip(from as int) == slug@.subrange(from as int, slug@.len() as int));
    }
    let mut to: usize = slug.len();
    while to > from && slug[to - 1] == '-'
        invariant
            from <= to <= slug.len(),
            strip_trailing_dashes(strip_leading_dashes(slug@)) == strip_trailing_dashes(
                slug@.subrange(from as int, to as int),
            ),
        decreases to - from,
    {
        proof {
            assert(slug@.subrange(from as int, to as int).drop_last() == slug@.subrange(
                from as int,
                to - 1,
            ));
        }
        to = to - 1;
    }
    proof {
        let t = slug@.subrange(from as int, to as int);
        if to > from {
            assert(t.last() == slug@[to - 1]);
        }
        assert(strip_trailing_dashes(t) == t);
    }
    if to == from {
        String::from_str("untitled")
    } else {
        string_from_range(&slug, from, to)
    }
}

} // verus!
