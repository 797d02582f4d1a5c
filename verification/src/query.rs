//! Full-text query sanitization: a user's search text reduced to plain
//! terms that SQLite FTS5 reads as words, never as query syntax.

use vstd::prelude::*;
use crate::text::{
    char_is_alphanumeric, char_is_whitespace, chars_of, is_alphanumeric, is_whitespace, join_seqs,
    push_char, is_empty_string,
};

verus! {

/// A character that may stay in a search term.
pub open spec fn kept_in_term(c: char) -> bool {
    char_is_alphanumeric(c) || c == '_' || c == '-'
}

/// Scanning the query left to right: the finished terms, and the term being
/// read. Whitespace ends a term (empty terms are dropped); other characters
/// extend the current term when they may stay in it and are dropped
/// otherwise.
pub open spec fn query_scan(cs: Seq<char>) -> (Seq<Seq<char>>, Seq<char>)
    decreases cs.len(),
{
    if cs.len() == 0 {
        (Seq::empty(), Seq::empty())
    } else {
        let (terms, cur) = query_scan(cs.drop_last());
        let c = cs.last();
        if char_is_whitespace(c) {
            if cur.len() > 0 {
                (terms.push(cur), Seq::empty())
            } else {
                (terms, cur)
            }
        } else if kept_in_term(c) {
            (terms, cur.push(c))
        } else {
            (terms, cur)
        }
    }
}

/// The non-empty filtered terms of a query, in order.
pub open spec fn query_terms(q: Seq<char>) -> Seq<Seq<char>> {
    let (terms, cur) = query_scan(q);
    if cur.len() > 0 {
        terms.push(cur)
    } else {
        terms
    }
}

/// The sanitized query: its terms joined by single spaces.
pub open spec fn sanitized_query(q: Seq<char>) -> Seq<char> {
    join_seqs(query_terms(q), " "@)
}

proof fn lemma_join_push(parts: Seq<Seq<char>>, x: Seq<char>, sep: Seq<char>)
    ensures
        join_seqs(parts.push(x), sep) == if parts.len() == 0 {
            x
        } else {
            join_seqs(parts, sep) + sep + x
        },
{
    assert(parts.push(x).drop_last() == parts);
    assert(parts.push(x).last() == x);
    if parts.len() == 0 {
        assert(parts.push(x)[0] == x);
    }
}

proof fn lemma_scan_step(seen: Seq<char>, c: char)
    ensures
        query_scan(seen.push(c)) == ({
            let (terms, cur) = query_scan(seen);
            if char_is_whitespace(c) {
                if cur.len() > 0 {
                    (terms.push(cur), Seq::empty())
                } else {
                    (terms, cur)
                }
            } else if kept_in_term(c) {
                (terms, cur.push(c))
            } else {
                (terms, cur)
            }
        }),
{
    assert(seen.push(c).drop_last() == seen);
}

/// A character that may appear in a term handed to the full-text engine:
/// one that may stay in a term and is not whitespace.
pub open spec fn term_char(c: char) -> bool {
    kept_in_term(c) && !char_is_whitespace(c)
}

/// Every character of every term may appear in a term.
pub open spec fn plain_terms(terms: Seq<Seq<char>>) -> bool {
    forall|i: int, j: int|
        0 <= i < terms.len() && 0 <= j < terms[i].len() ==> term_char(#[trigger] terms[i][j])
}

proof fn lemma_scan_plain(cs: Seq<char>)
    ensures
        plain_terms(query_scan(cs).0),
        forall|j: int| 0 <= j < query_scan(cs).1.len() ==> term_char(#[trigger] query_scan(cs).1[j]),
    decreases cs.len(),
{
    if cs.len() > 0 {
        lemma_scan_plain(cs.drop_last());
        let (terms, cur) = query_scan(cs.drop_last());
        let c = cs.last();
        if char_is_whitespace(c) && cur.len() > 0 {
            let t = terms.push(cur);
            assert forall|i: int, j: int| 0 <= i < t.len() && 0 <= j < t[i].len() implies term_char(
                #[trigger] t[i][j],
            ) by {
                if i < terms.len() {
                    assert(t[i] == terms[i]);
                }
            }
        } else if !char_is_whitespace(c) && kept_in_term(c) {
            let n = cur.push(c);
            assert forall|j: int| 0 <= j < n.len() implies term_char(#[trigger] n[j]) by {
                if j < cur.len() {
                    assert(n[j] == cur[j]);
                }
            }
        }
    }
}

proof fn lemma_join_plain(parts: Seq<Seq<char>>)
    requires
        plain_terms(parts),
    ensures
        forall|i: int|
            0 <= i < join_seqs(parts, " "@).len() ==> #[trigger] join_seqs(parts, " "@)[i] == ' '
                || term_char(join_seqs(parts, " "@)[i]),
    decreases parts.len(),
{
    reveal_strlit(" ");
    if parts.len() > 1 {
        let init = parts.drop_last();
        assert(plain_terms(init)) by {
            assert forall|i: int, j: int| 0 <= i < init.len() && 0 <= j < init[i].len() implies term_char(
                #[trigger] init[i][j],
            ) by {
                assert(init[i] == parts[i]);
            }
        }
        lemma_join_plain(init);
        let a = join_seqs(init, " "@);
        let last = parts.last();
        let r = join_seqs(parts, " "@);
        assert(r == a + " "@ + last);
        assert forall|i: int| 0 <= i < r.len() implies #[trigger] r[i] == ' ' || term_char(r[i]) by {
            if i < a.len() {
                assert(r[i] == a[i]);
            } else if i == a.len() {
                assert(r[i] == ' ');
            } else {
                assert(r[i] == last[i - a.len() - 1]);
                assert(last == parts[parts.len() - 1]);
            }
        }
    } else if parts.len() == 1 {
        let r = join_seqs(parts, " "@);
        assert forall|i: int| 0 <= i < r.len() implies #[trigger] r[i] == ' ' || term_char(r[i]) by {
            assert(r[i] == parts[0][i]);
        }
    }
}

/// The query handed to the full-text engine holds only single-space
/// separators and characters that may stay in a term: alphanumeric
/// characters, `_` and `-`, none of them whitespace.
pub proof fn lemma_sanitized_query_is_plain(q: Seq<char>)
    ensures
        forall|i: int|
            0 <= i < sanitized_query(q).len() ==> #[trigger] sanitized_query(q)[i] == ' ' || term_char(
                sanitized_query(q)[i],
            ),
{
    lemma_query_terms_shape(q);
    lemma_join_plain(query_terms(q));
}

proof fn lemma_scan_terms_nonempty(cs: Seq<char>)
    ensures
        forall|a: int| 0 <= a < query_scan(cs).0.len() ==> (#[trigger] query_scan(cs).0[a]).len() > 0,
    decreases cs.len(),
{
    if cs.len() > 0 {
        lemma_scan_terms_nonempty(cs.drop_last());
        let (terms, cur) = query_scan(cs.drop_last());
        let t = query_scan(cs).0;
        assert forall|a: int| 0 <= a < t.len() implies (#[trigger] t[a]).len() > 0 by {
            if a < terms.len() {
                assert(t[a] == terms[a]);
            }
        }
    }
}

/// The terms of a query are non-empty and hold only characters that may
/// appear in a term.
proof fn lemma_query_terms_shape(q: Seq<char>)
    ensures
        plain_terms(query_terms(q)),
        forall|a: int| 0 <= a < query_terms(q).len() ==> (#[trigger] query_terms(q)[a]).len() > 0,
{
    lemma_scan_plain(q);
    lemma_scan_terms_nonempty(q);
    let (terms, cur) = query_scan(q);
    let all = query_terms(q);
    if cur.len() > 0 {
        assert forall|i: int, j: int| 0 <= i < all.len() && 0 <= j < all[i].len() implies term_char(
            #[trigger] all[i][j],
        ) by {
            if i < terms.len() {
                assert(all[i] == terms[i]);
            }
        }
        assert forall|a: int| 0 <= a < all.len() implies (#[trigger] all[a]).len() > 0 by {
            if a < terms.len() {
                assert(all[a] == terms[a]);
            }
        }
    }
}

/// Scanning past characters that may appear in a term only extends the
/// current term.
proof fn lemma_scan_append_term(s: Seq<char>, x: Seq<char>)
    requires
        forall|j: int| 0 <= j < x.len() ==> term_char(#[trigger] x[j]),
    ensures
        query_scan(s + x) == (query_scan(s).0, query_scan(s).1 + x),
    decreases x.len(),
{
    if x.len() == 0 {
        assert(s + x =~= s);
        assert(query_scan(s).1 + x =~= query_scan(s).1);
    } else {
        let init = x.drop_last();
        let c = x.last();
        assert(term_char(x[x.len() - 1]));
        lemma_scan_append_term(s, init);
        assert(s + x =~= (s + init).push(c));
        lemma_scan_step(s + init, c);
        assert((query_scan(s).1 + init).push(c) =~= query_scan(s).1 + x);
    }
}

/// Scanning terms joined by single spaces finds the terms again: all but the
/// last are finished, and the last is the term being read.
proof fn lemma_scan_joined(parts: Seq<Seq<char>>)
    requires
        parts.len() > 0,
        plain_terms(parts),
        forall|a: int| 0 <= a < parts.len() ==> (#[trigger] parts[a]).len() > 0,
    ensures
        query_scan(join_seqs(parts, " "@)) == (parts.drop_last(), parts.last()),
    decreases parts.len(),
{
    reveal_strlit(" ");
    let last = parts.last();
    assert forall|j: int| 0 <= j < last.len() implies term_char(#[trigger] last[j]) by {
        assert(parts[parts.len() - 1][j] == last[j]);
    }
    if parts.len() == 1 {
        assert(join_seqs(parts, " "@) == parts[0]);
        lemma_scan_append_term(Seq::empty(), last);
        assert(Seq::<char>::empty() + last =~= last);
        assert(Seq::<char>::empty() + last =~= parts[0]);
        assert(parts.drop_last() =~= Seq::<Seq<char>>::empty());
    } else {
        let init = parts.drop_last();
        assert(plain_terms(init)) by {
            assert forall|i: int, j: int| 0 <= i < init.len() && 0 <= j < init[i].len() implies term_char(
                #[trigger] init[i][j],
            ) by {
                assert(init[i] == parts[i]);
            }
        }
        assert forall|a: int| 0 <= a < init.len() implies (#[trigger] init[a]).len() > 0 by {
            assert(init[a] == parts[a]);
        }
        lemma_scan_joined(init);
        let a = join_seqs(init, " "@);
        assert(init.last() == init[init.len() - 1]);
        lemma_scan_step(a, ' ');
        assert(query_scan(a.push(' ')) == (init.drop_last().push(init.last()), Seq::<char>::empty()));
        assert(init.drop_last().push(init.last()) =~= init);
        lemma_scan_append_term(a.push(' '), last);
        assert(a + " "@ + last =~= a.push(' ') + last);
        assert(Seq::<char>::empty() + last =~= last);
    }
}

/// Sanitizing is idempotent: a sanitized query sanitizes to itself.
pub proof fn lemma_sanitize_idempotent(q: Seq<char>)
    ensures
        sanitized_query(sanitized_query(q)) == sanitized_query(q),
{
    let t = query_terms(q);
    lemma_query_terms_shape(q);
    if t.len() == 0 {
        assert(sanitized_query(q) == Seq::<char>::empty());
        assert(query_scan(Seq::<char>::empty()) == (Seq::<Seq<char>>::empty(), Seq::<char>::empty()));
        assert(query_terms(Seq::<char>::empty()) =~= t);
    } else {
        lemma_scan_joined(t);
        assert(t.last() == t[t.len() - 1]);
        assert(t.drop_last().push(t.last()) =~= t);
        assert(query_terms(sanitized_query(q)) == t);
    }
}

/// A query that is already plain: words of alphanumeric characters, `_`
/// and `-` (none of them whitespace) separated by single spaces, with no
/// space at either end.
pub open spec fn is_plain_query(q: Seq<char>) -> bool {
    &&& forall|i: int|
        0 <= i < q.len() ==> #[trigger] q[i] == ' ' || (!char_is_whitespace(q[i]) && (
        char_is_alphanumeric(q[i]) || q[i] == '_' || q[i] == '-'))
    &&& q.len() > 0 ==> q[0] != ' ' && q.last() != ' '
    &&& forall|i: int, j: int|
        #![trigger q[i], q[j]]
        0 <= i && j == i + 1 && j < q.len() ==> !(q[i] == ' ' && q[j] == ' ')
}

proof fn lemma_scan_plain_prefix(q: Seq<char>, n: int)
    requires
        is_plain_query(q),
        0 <= n <= q.len(),
    ensures
        ({
            let p = q.take(n);
            let (terms, cur) = query_scan(p);
            if n == 0 {
                terms.len() == 0 && cur.len() == 0
            } else if p.last() == ' ' {
                cur.len() == 0 && terms.len() > 0 && join_seqs(terms, " "@) + " "@ == p
            } else {
                &&& cur.len() > 0
                &&& terms.len() == 0 ==> cur == p
                &&& terms.len() > 0 ==> join_seqs(terms, " "@) + " "@ + cur == p
            }
        }),
    decreases n,
{
    reveal_strlit(" ");
    if n > 0 {
        lemma_scan_plain_prefix(q, n - 1);
        let p0 = q.take(n - 1);
        let p = q.take(n);
        let c = q[n - 1];
        assert(p0.push(c) =~= p);
        lemma_scan_step(p0, c);
        let (terms, cur) = query_scan(p0);
        assert(c == ' ' || (!char_is_whitespace(c) && kept_in_term(c)));
        if c == ' ' {
            assert(n - 1 > 0) by {
                if n - 1 == 0 {
                    assert(q[0] == ' ');
                }
            }
            assert(p0.last() == q[n - 2]);
            assert(q[n - 2] != ' ');
            lemma_join_push(terms, cur, " "@);
            assert(p.last() == ' ');
        } else {
            assert(p.last() == c);
            if n - 1 == 0 {
                assert(p =~= seq![c]);
                assert(cur.push(c) =~= p);
            } else if p0.last() == ' ' {
                assert(join_seqs(terms, " "@) + " "@ + cur.push(c) =~= p);
            } else if terms.len() == 0 {
                assert(cur.push(c) =~= p);
            } else {
                assert(join_seqs(terms, " "@) + " "@ + cur.push(c) =~= p);
            }
        }
    }
}

/// A query that is already plain (alphanumeric characters, `_` and `-` in
/// words separated by single spaces) is kept as it is: every such character
/// stays in its term.
pub proof fn lemma_plain_query_kept(q: Seq<char>)
    requires
        is_plain_query(q),
    ensures
        sanitized_query(q) == q,
{
    reveal_strlit(" ");
    lemma_scan_plain_prefix(q, q.len() as int);
    assert(q.take(q.len() as int) =~= q);
    let (terms, cur) = query_scan(q);
    if q.len() > 0 {
        assert(q.last() != ' ');
        lemma_join_push(terms, cur, " "@);
    }
}

/// Every term is non-empty and holds no space.
pub open spec fn spaceless_terms(terms: Seq<Seq<char>>) -> bool {
    forall|a: int|
        0 <= a < terms.len() ==> #[trigger] terms[a].len() > 0 && forall|b: int|
            0 <= b < terms[a].len() ==> terms[a][b] != ' '
}

proof fn lemma_spaceless_push(terms: Seq<Seq<char>>, t: Seq<char>)
    requires
        spaceless_terms(terms),
        t.len() > 0,
        forall|b: int| 0 <= b < t.len() ==> t[b] != ' ',
    ensures
        spaceless_terms(terms.push(t)),
{
    let n = terms.push(t);
    assert forall|a: int| 0 <= a < n.len() implies #[trigger] n[a].len() > 0 && forall|b: int|
        0 <= b < n[a].len() ==> n[a][b] != ' ' by {
        if a < terms.len() {
            assert(n[a] == terms[a]);
        }
    }
}

proof fn lemma_join_spaces(parts: Seq<Seq<char>>)
    requires
        spaceless_terms(parts),
    ensures
        join_seqs(parts, " "@).len() > 0 ==> join_seqs(parts, " "@)[0] != ' ' && join_seqs(
            parts,
            " "@,
        ).last() != ' ',
        forall|k: int|
            0 <= k < join_seqs(parts, " "@).len() - 1 && #[trigger] join_seqs(parts, " "@)[k] == ' '
                ==> join_seqs(parts, " "@)[k + 1] != ' ',
    decreases parts.len(),
{
    reveal_strlit(" ");
    if parts.len() == 1 {
        assert(parts[0].len() > 0);
    } else if parts.len() > 1 {
        let init = parts.drop_last();
        assert(spaceless_terms(init)) by {
            assert forall|a: int| 0 <= a < init.len() implies #[trigger] init[a].len() > 0 && forall|
                b: int,
            | 0 <= b < init[a].len() ==> init[a][b] != ' ' by {
                assert(init[a] == parts[a]);
            }
        }
        lemma_join_spaces(init);
        let a = join_seqs(init, " "@);
        let last = parts.last();
        assert(last == parts[parts.len() - 1]);
        assert(last.len() > 0);
        assert(a.len() > 0) by {
            if init.len() == 1 {
                assert(init[0].len() > 0);
            } else {
                assert(a == join_seqs(init.drop_last(), " "@) + " "@ + init.last());
            }
        }
        let r = join_seqs(parts, " "@);
        assert(r == a + " "@ + last);
        assert(r[0] == a[0]);
        assert(r.last() == last.last());
        assert forall|k: int| 0 <= k < r.len() - 1 && #[trigger] r[k] == ' ' implies r[k + 1] != ' ' by {
            if k < a.len() - 1 {
                assert(r[k] == a[k] && r[k + 1] == a[k + 1]);
            } else if k == a.len() - 1 {
                assert(r[k] == a.last());
            } else if k == a.len() {
                assert(r[k + 1] == last[0]);
            } else {
                assert(r[k] == last[k - a.len() - 1]);
            }
        }
    }
}

/// The search text reduced to its terms: split at whitespace, each term
/// stripped of every character that is not alphanumeric, `_` or `-`, empty
/// terms dropped, and the rest joined by single spaces.
pub fn sanitize_fts_query(query: &str) -> (r: String)
    ensures
        r@ == sanitized_query(query@),
        r@.len() > 0 ==> r@[0] != ' ' && r@.last() != ' ',
        forall|k: int| 0 <= k < r@.len() - 1 && #[trigger] r@[k] == ' ' ==> r@[k + 1] != ' ',
{
    let q = chars_of(query);
    let mut out = String::new();
    let mut cur = String::new();
    let mut count: usize = 0;
    let mut i: usize = 0;
    proof {
        reveal_strlit(" ");
        assert(q@.take(0) == Seq::<char>::empty());
    }
    while i < q.len()
        invariant
            i <= q.len(),
            ({
                let (terms, c) = query_scan(q@.take(i as int));
                out@ == join_seqs(terms, " "@) && cur@ == c && count == terms.len()
            }),
            count <= i,
            spaceless_terms(query_scan(q@.take(i as int)).0),
            forall|b: int| 0 <= b < cur@.len() ==> cur@[b] != ' ',
        decreases q.len() - i,
    {
        let ch = q[i];
        let ghost seen = q@.take(i as int);
        proof {
            assert(q@.take(i + 1) == seen.push(ch));
            lemma_scan_step(seen, ch);
        }
        if is_whitespace(ch) {
            if !is_empty_string(&cur) {
                proof {
                    lemma_join_push(query_scan(seen).0, cur@, " "@);
                }
                proof {
                    lemma_spaceless_push(query_scan(seen).0, cur@);
                }
                if count > 0 {
                    out.append(" ");
                }
                out.append(cur.as_str());
                cur = String::new();
                count = count + 1;
            }
        } else if is_alphanumeric(ch) || ch == '_' || ch == '-' {
            let ghost before = cur@;
            push_char(&mut cur, ch);
            proof {
                assert forall|b: int| 0 <= b < cur@.len() implies cur@[b] != ' ' by {
                    if b < before.len() {
                        assert(cur@[b] == before[b]);
                    }
                }
            }
        }
        i = i + 1;
    }
    proof {
        assert(q@.take(q@.len() as int) == q@);
    }
    if !is_empty_string(&cur) {
        proof {
            lemma_join_push(query_scan(q@).0, cur@, " "@);
            lemma_spaceless_push(query_scan(q@).0, cur@);
        }
        if count > 0 {
            out.append(" ");
        }
        out.append(cur.as_str());
    }
    proof {
        lemma_join_spaces(query_terms(q@));
    }
    out
}

} // verus!
