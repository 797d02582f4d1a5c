//! File names: decimal numbering, the stem and extension of a file name,
//! and picking the first name that is not taken yet.

use vstd::prelude::*;
use vstd::set_lib::{set_int_range, lemma_int_range, lemma_len_subset, lemma_map_size};
use crate::text::{chars_of, push_char, string_from_range, views};

verus! {

/// The decimal digit character for `d` (meant for `d < 10`).
pub open spec fn digit_char(d: nat) -> char {
    if d == 0 {
        '0'
    } else if d == 1 {
        '1'
    } else if d == 2 {
        '2'
    } else if d == 3 {
        '3'
    } else if d == 4 {
        '4'
    } else if d == 5 {
        '5'
    } else if d == 6 {
        '6'
    } else if d == 7 {
        '7'
    } else if d == 8 {
        '8'
    } else {
        '9'
    }
}

/// The decimal representation of `n`, without leading zeros.
pub open spec fn decimal(n: nat) -> Seq<char>
    decreases n,
{
    if n < 10 {
        seq![digit_char(n)]
    } else {
        decimal(n / 10).push(digit_char(n % 10))
    }
}

/// The number a string of decimal digits stands for.
pub open spec fn digits_value(s: Seq<char>) -> int
    decreases s.len(),
{
    if s.len() == 0 {
        0
    } else {
        digits_value(s.drop_last()) * 10 + ((s.last() as int) - ('0' as int))
    }
}

/// The decimal representation of `n` is made of the digits `0` to `9`,
/// does not start with `0` unless it is `0` itself, and stands for `n`.
pub proof fn lemma_decimal_value(n: nat)
    ensures
        forall|i: int| 0 <= i < decimal(n).len() ==> '0' <= #[trigger] decimal(n)[i] <= '9',
        decimal(n).len() > 1 ==> decimal(n)[0] != '0',
        digits_value(decimal(n)) == n,
    decreases n,
{
    if n < 10 {
        assert(decimal(n) =~= seq![digit_char(n)]);
        assert(seq![digit_char(n)].drop_last() =~= Seq::<char>::empty());
        assert((digit_char(n) as int) - ('0' as int) == n);
        assert(digits_value(decimal(n)) == digits_value(Seq::<char>::empty()) * 10 + (
        (digit_char(n) as int) - ('0' as int)));
    } else {
        let q = n / 10;
        let r = n % 10;
        lemma_decimal_value(q);
        lemma_decimal_len(q);
        let d = decimal(n);
        assert(d == decimal(q).push(digit_char(r)));
        assert(d.drop_last() =~= decimal(q));
        assert((digit_char(r) as int) - ('0' as int) == r);
        assert(n == q * 10 + r);
        assert forall|i: int| 0 <= i < d.len() implies '0' <= #[trigger] d[i] <= '9' by {
            if i < decimal(q).len() {
                assert(d[i] == decimal(q)[i]);
            }
        }
        assert(d[0] == decimal(q)[0]);
        if decimal(q).len() == 1 {
            assert(q >= 1);
            assert(decimal(q) =~= seq![digit_char(q)]);
        }
    }
}

proof fn lemma_decimal_len(n: nat)
    ensures
        decimal(n).len() >= 1,
        n >= 10 ==> decimal(n).len() >= 2,
    decreases n,
{
    if n >= 10 {
        lemma_decimal_len(n / 10);
    }
}

proof fn lemma_digit_injective(x: nat, y: nat)
    requires
        x < 10,
        y < 10,
        digit_char(x) == digit_char(y),
    ensures
        x == y,
{
}

/// Different numbers have different decimal representations.
pub proof fn lemma_decimal_injective(a: nat, b: nat)
    requires
        decimal(a) == decimal(b),
    ensures
        a == b,
    decreases a,
{
    lemma_decimal_len(a);
    lemma_decimal_len(b);
    if a >= 10 && b >= 10 {
        assert(decimal(a).drop_last() == decimal(a / 10));
        assert(decimal(b).drop_last() == decimal(b / 10));
        assert(decimal(a).last() == digit_char(a % 10));
        assert(decimal(b).last() == digit_char(b % 10));
        lemma_digit_injective(a % 10, b % 10);
        lemma_decimal_injective(a / 10, b / 10);
        assert(a == 10 * (a / 10) + a % 10);
        assert(b == 10 * (b / 10) + b % 10);
    } else if a < 10 && b < 10 {
        reveal_with_fuel(decimal, 1);
        assert(decimal(a) == seq![digit_char(a)]);
        assert(decimal(b) == seq![digit_char(b)]);
        assert(decimal(a)[0] == digit_char(a));
        assert(decimal(b)[0] == digit_char(b));
        lemma_digit_injective(a, b);
    }
}

pub fn digit(d: u64) -> (c: char)
    requires
        d < 10,
    ensures
        c == digit_char(d as nat),
{
    if d == 0 {
        '0'
    } else if d == 1 {
        '1'
    } else if d == 2 {
        '2'
    } else if d == 3 {
        '3'
    } else if d == 4 {
        '4'
    } else if d == 5 {
        '5'
    } else if d == 6 {
        '6'
    } else if d == 7 {
        '7'
    } else if d == 8 {
        '8'
    } else {
        '9'
    }
}

/// The decimal representation of `n`, as `u64`'s `Display` writes it.
pub fn decimal_string(n: u64) -> (r: String)
    ensures
        r@ == decimal(n as nat),
    decreases n,
{
    if n < 10 {
        let mut s = String::new();
        push_char(&mut s, digit(n));
        proof {
            assert(s@ =~= seq![digit_char(n as nat)]);
        }
        s
    } else {
        let mut s = decimal_string(n / 10);
        push_char(&mut s, digit(n % 10));
        s
    }
}

/// The last index of `c` in `s`, if any.
pub open spec fn last_index_of(s: Seq<char>, c: char) -> Option<int>
    decreases s.len(),
{
    if s.len() == 0 {
        None
    } else if s.last() == c {
        Some(s.len() - 1)
    } else {
        last_index_of(s.drop_last(), c)
    }
}

proof fn lemma_last_index_bounds(s: Seq<char>, c: char)
    ensures
        last_index_of(s, c) matches Some(k) ==> 0 <= k < s.len() && s[k] == c && forall|j: int|
            k < j < s.len() ==> s[j] != c,
        last_index_of(s, c) is None ==> forall|j: int| 0 <= j < s.len() ==> s[j] != c,
    decreases s.len(),
{
    if s.len() > 0 && s.last() != c {
        lemma_last_index_bounds(s.drop_last(), c);
        assert forall|j: int| 0 <= j < s.len() - 1 implies s.drop_last()[j] == s[j] by {
        }
    }
}

/// The stem and extension of a file name, as `Path::file_stem` and
/// `Path::extension` split one: the name `..`, a name with no `.`, and a
/// name whose only `.` leads it are all stem, with no extension; otherwise
/// the stem is what comes before the final `.` and the extension what comes
/// after it.
pub open spec fn stem_and_extension(name: Seq<char>) -> (Seq<char>, Option<Seq<char>>) {
    if name == ".."@ {
        (name, None)
    } else {
        match last_index_of(name, '.') {
            Some(k) => if k == 0 {
                (name, None)
            } else {
                (name.take(k), Some(name.skip(k + 1)))
            },
            None => (name, None),
        }
    }
}

/// The extension of a file name with its leading `.`, or nothing when it
/// has none.
pub open spec fn dotted_extension(name: Seq<char>) -> Seq<char> {
    match stem_and_extension(name).1 {
        Some(e) => "."@ + e,
        None => Seq::empty(),
    }
}

/// The stem followed by the dotted extension is the name again.
pub proof fn lemma_stem_and_extension_rejoin(name: Seq<char>)
    ensures
        stem_and_extension(name).0 + dotted_extension(name) == name,
{
    reveal_strlit(".");
    lemma_last_index_bounds(name, '.');
    if name != ".."@ {
        if let Some(k) = last_index_of(name, '.') {
            if k != 0 {
                assert(name.take(k) + "."@ + name.skip(k + 1) =~= name);
            } else {
                assert(name + Seq::<char>::empty() =~= name);
            }
        } else {
            assert(name + Seq::<char>::empty() =~= name);
        }
    } else {
        assert(name + Seq::<char>::empty() =~= name);
    }
}

/// A file name has the extension `md` exactly when it ends with `.md` after
/// at least one other character.
pub proof fn lemma_md_extension(name: Seq<char>)
    ensures
        (stem_and_extension(name).1 == Some("md"@)) <==> (name.len() > 3 && name.skip(
            name.len() - 3,
        ) == ".md"@),
{
    reveal_strlit("md");
    reveal_strlit(".md");
    reveal_strlit("..");
    lemma_last_index_bounds(name, '.');
    let n = name.len();
    if n > 3 && name.skip(n - 3) == ".md"@ {
        assert(name[n - 3] == name.skip(n - 3)[0]);
        assert(name[n - 2] == name.skip(n - 3)[1]);
        assert(name[n - 1] == name.skip(n - 3)[2]);
        let k = last_index_of(name, '.')->0;
        assert(k == n - 3);
        assert(name.skip(k + 1) =~= "md"@);
    }
    if stem_and_extension(name).1 == Some("md"@) {
        let k = last_index_of(name, '.')->0;
        assert(name.skip(k + 1) == "md"@);
        assert(name.skip(k + 1).len() == 2);
        assert(name.skip(n - 3) =~= ".md"@) by {
            assert(name.skip(k + 1)[0] == name[k + 1]);
            assert(name.skip(k + 1)[1] == name[k + 2]);
        }
    }
}

/// The stem and extension of a file name (see `stem_and_extension`).
pub fn split_file_name(name: &str) -> (r: (String, Option<String>))
    ensures
        r.0@ == stem_and_extension(name@).0,
        match r.1 {
            Some(e) => stem_and_extension(name@).1 == Some(e@),
            None => stem_and_extension(name@).1 is None,
        },
{
    let v = chars_of(name);
    proof {
        reveal_strlit("..");
        assert(v@.subrange(0, v@.len() as int) == v@);
    }
    if v.len() == 2 && v[0] == '.' && v[1] == '.' {
        proof {
            assert(v@ =~= ".."@);
        }
        return (string_from_range(&v, 0, v.len()), None);
    }
    proof {
        if v@ == ".."@ {
            assert(v@[0] == '.' && v@[1] == '.');
        }
    }
    let mut k: usize = v.len();
    proof {
        assert(v@.take(k as int) == v@);
    }
    while k > 0 && v[k - 1] != '.'
        invariant
            k <= v.len(),
            last_index_of(v@, '.') == last_index_of(v@.take(k as int), '.'),
        decreases k,
    {
        proof {
            assert(v@.take(k as int).drop_last() == v@.take(k - 1));
        }
        k = k - 1;
    }
    proof {
        if k > 0 {
            assert(v@.take(k as int).last() == v@[k - 1]);
        }
    }
    if k <= 1 {
        (string_from_range(&v, 0, v.len()), None)
    } else {
        let stem = string_from_range(&v, 0, k - 1);
        let ext = string_from_range(&v, k, v.len());
        proof {
            assert(v@.subrange(0, v@.len() as int) == v@);
            assert(v@.subrange(0, k - 1) == v@.take(k - 1));
            assert(v@.subrange(k as int, v@.len() as int) == v@.skip(k as int));
        }
        (stem, Some(ext))
    }
}

/// The `k`-th name tried for a file: first `stem` + `ext_part` itself, then
/// `stem-2` + `ext_part`, `stem-3` + `ext_part`, and so on.
pub open spec fn numbered_name(stem: Seq<char>, ext_part: Seq<char>, k: nat) -> Seq<char> {
    if k == 0 {
        stem + ext_part
    } else {
        stem + "-"@ + decimal(k + 1) + ext_part
    }
}

/// Numbered names are pairwise different.
pub proof fn lemma_numbered_name_injective(stem: Seq<char>, ext_part: Seq<char>, a: nat, b: nat)
    requires
        numbered_name(stem, ext_part, a) == numbered_name(stem, ext_part, b),
    ensures
        a == b,
{
    reveal_strlit("-");
    lemma_decimal_len(a + 1);
    lemma_decimal_len(b + 1);
    let na = numbered_name(stem, ext_part, a);
    let nb = numbered_name(stem, ext_part, b);
    assert(("-"@).len() == 1);
    if a == 0 && b > 0 {
        assert(na.len() == stem.len() + ext_part.len());
        assert(nb.len() == stem.len() + 1 + decimal(b + 1).len() + ext_part.len());
    } else if b == 0 && a > 0 {
        assert(nb.len() == stem.len() + ext_part.len());
        assert(na.len() == stem.len() + 1 + decimal(a + 1).len() + ext_part.len());
    } else if a > 0 && b > 0 {
        let da = decimal(a + 1);
        let db = decimal(b + 1);
        let lo: int = stem.len() as int + 1;
        assert(na.len() == stem.len() + 1 + da.len() + ext_part.len());
        assert(nb.len() == stem.len() + 1 + db.len() + ext_part.len());
        assert(da.len() == db.len());
        assert(na.subrange(lo, lo + da.len() as int) =~= da);
        assert(nb.subrange(lo, lo + db.len() as int) =~= db);
        lemma_decimal_injective(a + 1, b + 1);
    }
}

/// Whether `s` is one of the strings of `v`.
pub fn contains_string(v: &Vec<String>, s: &String) -> (r: bool)
    ensures
        r == views(v@).contains(s@),
{
    let mut i: usize = 0;
    while i < v.len()
        invariant
            i <= v.len(),
            forall|j: int| 0 <= j < i ==> v@[j]@ != s@,
        decreases v.len() - i,
    {
        if v[i] == *s {
            proof {
                assert(views(v@)[i as int] == s@);
            }
            return true;
        }
        i = i + 1;
    }
    proof {
        if views(v@).contains(s@) {
            let j = choose|j: int| 0 <= j < views(v@).len() && views(v@)[j] == s@;
            assert(v@[j]@ == s@);
        }
    }
    false
}

/// If the first `k` numbered names are all taken, there are at least `k`
/// taken names.
proof fn lemma_taken_names_bound(stem: Seq<char>, ext_part: Seq<char>, k: nat, taken: Seq<Seq<char>>)
    requires
        forall|j: nat| j < k ==> taken.contains(#[trigger] numbered_name(stem, ext_part, j)),
    ensures
        k <= taken.len(),
{
    let f = |j: int| numbered_name(stem, ext_part, j as nat);
    let dom = set_int_range(0, k as int);
    lemma_int_range(0, k as int);
    assert forall|x: int, y: int| dom.contains(x) && dom.contains(y) && f(x) == f(y) implies x
        == y by {
        lemma_numbered_name_injective(stem, ext_part, x as nat, y as nat);
    }
    let img = dom.map(f);
    lemma_map_size(dom, img, f);
    assert forall|t: Seq<char>| img.contains(t) implies taken.to_set().contains(t) by {
        let x = choose|x: int| dom.contains(x) && f(x) == t;
        assert(taken.contains(numbered_name(stem, ext_part, x as nat)));
    }
    taken.lemma_cardinality_of_set();
    lemma_len_subset(img, taken.to_set());
}

/// `name` is the first numbered name that is not among `taken`.
pub open spec fn is_first_free(
    stem: Seq<char>,
    ext_part: Seq<char>,
    taken: Seq<Seq<char>>,
    name: Seq<char>,
) -> bool {
    exists|k: nat|
        #![trigger numbered_name(stem, ext_part, k)]
        numbered_name(stem, ext_part, k) == name && !taken.contains(name) && forall|j: nat|
            j < k ==> taken.contains(#[trigger] numbered_name(stem, ext_part, j))
}

/// The first of `stem` + `ext_part`, `stem-2` + `ext_part`, `stem-3` +
/// `ext_part`, ... that is not among `taken`.
pub fn first_free_name(stem: &str, ext_part: &str, taken: &Vec<String>) -> (r: String)
    requires
        taken.len() < u64::MAX,
    ensures
        is_first_free(stem@, ext_part@, views(taken@), r@),
{
    let mut k: u64 = 0;
    loop
        invariant
            k <= taken.len(),
            taken.len() < u64::MAX,
            forall|j: nat| j < k ==> views(taken@).contains(#[trigger] numbered_name(stem@, ext_part@, j)),
        decreases taken.len() - k,
    {
        let candidate = if k == 0 {
            String::from_str(stem).concat(ext_part)
        } else {
            String::from_str(stem).concat("-").concat(decimal_string(k + 1).as_str()).concat(ext_part)
        };
        proof {
            assert(candidate@ == numbered_name(stem@, ext_part@, k as nat));
        }
        if !contains_string(taken, &candidate) {
            return candidate;
        }
        proof {
            assert forall|j: nat| j < k + 1 implies views(taken@).contains(
                #[trigger] numbered_name(stem@, ext_part@, j),
            ) by {
                if j < k {
                }
            }
            lemma_taken_names_bound(stem@, ext_part@, (k + 1) as nat, views(taken@));
        }
        k = k + 1;
    }
}

} // verus!
