//! The flags of the storage command line: `--name value` pairs.

use vstd::prelude::*;
use crate::normalize::{opt_view, normalized_optional, normalize_optional_string, result_view};
use crate::text::{
    chars_of, occurs_at, starts_with_str, string_from_range, trim, trim_str, views, copy_string,
    is_empty_string, push_char, join_seqs,
};

verus! {

/// `s` without every leading `--`, as `str::trim_start_matches("--")` does.
pub open spec fn strip_leading_double_dashes(s: Seq<char>) -> Seq<char>
    decreases s.len(),
{
    if s.len() >= 2 && s[0] == '-' && s[1] == '-' {
        strip_leading_double_dashes(s.skip(2))
    } else {
        s
    }
}

/// `s` starts with `--`.
pub open spec fn starts_with_double_dash(s: Seq<char>) -> bool {
    s.len() >= 2 && s[0] == '-' && s[1] == '-'
}

/// The name/value pairs of an argument list, in order, or the first error:
/// every flag must start with `--`, must have a name after its dashes, and
/// must be followed by a value that does not itself start with `--`.
pub open spec fn parsed_pairs(args: Seq<Seq<char>>) -> Result<
    Seq<(Seq<char>, Seq<char>)>,
    Seq<char>,
>
    decreases args.len(),
{
    if args.len() == 0 {
        Ok(Seq::empty())
    } else {
        let key = args[0];
        let name = strip_leading_double_dashes(key);
        if !starts_with_double_dash(key) {
            Err("unexpected argument: "@ + key)
        } else if name.len() == 0 {
            Err("empty flag name"@)
        } else if args.len() < 2 || starts_with_double_dash(args[1]) {
            Err("missing value for --"@ + name)
        } else {
            match parsed_pairs(args.skip(2)) {
                Ok(rest) => Ok(seq![(name, args[1])] + rest),
                Err(e) => Err(e),
            }
        }
    }
}

/// The arguments that give the flags `pairs`: `--name value` for each, in
/// order.
pub open spec fn flag_arguments(pairs: Seq<(Seq<char>, Seq<char>)>) -> Seq<Seq<char>>
    decreases pairs.len(),
{
    if pairs.len() == 0 {
        Seq::empty()
    } else {
        seq!["--"@ + pairs[0].0, pairs[0].1] + flag_arguments(pairs.skip(1))
    }
}

/// Writing flags as `--name value` arguments and parsing them gives the
/// flags back, when each name is non-empty and neither a name nor a value
/// starts with `--`.
pub proof fn lemma_flags_round_trip(pairs: Seq<(Seq<char>, Seq<char>)>)
    requires
        forall|i: int|
            0 <= i < pairs.len() ==> (#[trigger] pairs[i]).0.len() > 0 && !starts_with_double_dash(
                pairs[i].0,
            ) && !starts_with_double_dash(pairs[i].1),
    ensures
        parsed_pairs(flag_arguments(pairs)) == Ok::<Seq<(Seq<char>, Seq<char>)>, Seq<char>>(pairs),
    decreases pairs.len(),
{
    reveal_strlit("--");
    if pairs.len() > 0 {
        let rest = pairs.skip(1);
        assert forall|i: int| 0 <= i < rest.len() implies (#[trigger] rest[i]).0.len() > 0
            && !starts_with_double_dash(rest[i].0) && !starts_with_double_dash(rest[i].1) by {
            assert(rest[i] == pairs[i + 1]);
        }
        lemma_flags_round_trip(rest);
        let args = flag_arguments(pairs);
        let key = "--"@ + pairs[0].0;
        assert(pairs[0].0.len() > 0);
        assert(args[0] == key);
        assert(args[1] == pairs[0].1);
        assert(args.skip(2) =~= flag_arguments(rest));
        assert(key.skip(2) =~= pairs[0].0);
        assert(key[0] == '-' && key[1] == '-');
        assert(strip_leading_double_dashes(key) == strip_leading_double_dashes(key.skip(2)));
        if pairs[0].0.len() >= 2 {
            assert(!(pairs[0].0[0] == '-' && pairs[0].0[1] == '-'));
        }
        assert(strip_leading_double_dashes(pairs[0].0) == pairs[0].0);
        assert(args.len() >= 2);
        assert(starts_with_double_dash(key));
        assert(!starts_with_double_dash(args[1]));
        assert(parsed_pairs(args.skip(2)) == Ok::<Seq<(Seq<char>, Seq<char>)>, Seq<char>>(rest));
        assert(parsed_pairs(args) == Ok::<Seq<(Seq<char>, Seq<char>)>, Seq<char>>(
            seq![(pairs[0].0, pairs[0].1)] + rest,
        ));
        assert(seq![(pairs[0].0, pairs[0].1)] + rest =~= pairs);
    } else {
        assert(pairs =~= Seq::<(Seq<char>, Seq<char>)>::empty());
    }
}

/// The flags of a list of pairs: a later value for a name replaces an
/// earlier one.
pub open spec fn flags_map(pairs: Seq<(Seq<char>, Seq<char>)>) -> Map<Seq<char>, Seq<char>>
    decreases pairs.len(),
{
    if pairs.len() == 0 {
        Map::empty()
    } else {
        flags_map(pairs.drop_last()).insert(pairs.last().0, pairs.last().1)
    }
}

/// Parsed command-line flags.
pub struct Flags {
    pairs: Vec<(String, String)>,
}

impl Flags {
    /// The name/value pairs, in the order given.
    pub closed spec fn pairs(&self) -> Seq<(Seq<char>, Seq<char>)> {
        self.pairs@.map_values(|p: (String, String)| (p.0@, p.1@))
    }

    /// The value of each flag.
    pub open spec fn map(&self) -> Map<Seq<char>, Seq<char>> {
        flags_map(self.pairs())
    }

    /// The value given for `name`, if any (the last one when it was given
    /// more than once).
    pub fn get(&self, name: &str) -> (r: Option<String>)
        ensures
            match r {
                Some(v) => self.map().contains_key(name@) && self.map()[name@] == v@,
                None => !self.map().contains_key(name@),
            },
    {
        let ghost ps = self.pairs();
        let mut j: usize = self.pairs.len();
        proof {
            assert(ps.take(j as int) == ps);
        }
        while j > 0
            invariant
                j <= self.pairs.len(),
                ps == self.pairs(),
                flags_map(ps).contains_key(name@) == flags_map(ps.take(j as int)).contains_key(
                    name@,
                ),
                flags_map(ps).contains_key(name@) ==> flags_map(ps)[name@] == flags_map(
                    ps.take(j as int),
                )[name@],
            decreases j,
        {
            let pair = &self.pairs[j - 1];
            proof {
                assert(ps[j - 1] == (pair.0@, pair.1@));
                assert(ps.take(j as int).drop_last() == ps.take(j - 1));
                assert(ps.take(j as int).last() == (pair.0@, pair.1@));
            }
            if same_text(pair.0.as_str(), name) {
                return Some(copy_string(&pair.1));
            }
            j = j - 1;
        }
        proof {
            assert(ps.take(0) == Seq::<(Seq<char>, Seq<char>)>::empty());
        }
        None
    }
}

/// Whether two strings are equal.
fn same_text(a: &str, b: &str) -> (r: bool)
    ensures
        r == (a@ == b@),
{
    let av = chars_of(a);
    let bv = chars_of(b);
    if av.len() != bv.len() {
        proof {
            assert(a@.len() != b@.len());
        }
        return false;
    }
    let mut i: usize = 0;
    while i < av.len()
        invariant
            i <= av.len() == bv.len(),
            av@ == a@,
            bv@ == b@,
            forall|k: int| 0 <= k < i ==> av@[k] == bv@[k],
        decreases av.len() - i,
    {
        if av[i] != bv[i] {
            proof {
                assert(a@[i as int] != b@[i as int]);
            }
            return false;
        }
        i = i + 1;
    }
    proof {
        assert(av@ =~= bv@);
    }
    true
}

/// The name of a flag: its argument without the leading `--`s.
fn flag_name(key: &str) -> (r: String)
    ensures
        r@ == strip_leading_double_dashes(key@),
{
    let v = chars_of(key);
    let mut i: usize = 0;
    proof {
        assert(v@.skip(0) == v@);
    }
    while v.len() >= 2 && i <= v.len() - 2 && v[i] == '-' && v[i + 1] == '-'
        invariant
            i <= v.len(),
            strip_leading_double_dashes(v@) == strip_leading_double_dashes(v@.skip(i as int)),
        decreases v.len() - i,
    {
        proof {
            assert(v@.skip(i as int).skip(2) == v@.skip(i + 2));
        }
        i = i + 2;
    }
    proof {
        let rest = v@.skip(i as int);
        if rest.len() >= 2 {
            assert(rest[0] == v@[i as int] && rest[1] == v@[i + 1]);
        }
        assert(v@.skip(i as int) == v@.subrange(i as int, v@.len() as int));
    }
    string_from_range(&v, i, v.len())
}

proof fn lemma_double_dash(s: Seq<char>)
    ensures
        occurs_at(s, "--"@, 0) == starts_with_double_dash(s),
{
    reveal_strlit("--");
    if starts_with_double_dash(s) {
        assert(s.subrange(0, 2) =~= "--"@);
    }
    if occurs_at(s, "--"@, 0) {
        assert(s.subrange(0, 2)[0] == s[0]);
        assert(s.subrange(0, 2)[1] == s[1]);
    }
}

/// The flags of the storage command line (see `parsed_pairs`).
pub fn parse_flags(args: Vec<String>) -> (r: Result<Flags, String>)
    ensures
        match (r, parsed_pairs(views(args@))) {
            (Ok(f), Ok(pairs)) => f.pairs() == pairs,
            (Err(e), Err(m)) => e@ == m,
            _ => false,
        },
{
    let ghost all = views(args@);
    let mut pairs: Vec<(String, String)> = Vec::new();
    let mut index: usize = 0;
    proof {
        assert(all.skip(0) == all);
        match parsed_pairs(all) {
            Ok(rest) => {
                assert(pairs@.map_values(|p: (String, String)| (p.0@, p.1@)) + rest =~= rest);
            },
            Err(_) => {},
        }
    }
    while index < args.len()
        invariant
            index <= args.len(),
            all == views(args@),
            index % 2 == 0 || index == args.len(),
            parsed_pairs(all) == match parsed_pairs(all.skip(index as int)) {
                Ok(rest) => Ok(pairs@.map_values(|p: (String, String)| (p.0@, p.1@)) + rest),
                Err(e) => Err(e),
            },
        decreases args.len() - index,
    {
        let ghost rest = all.skip(index as int);
        let key = &args[index];
        proof {
            assert(rest[0] == key@);
            lemma_double_dash(key@);
        }
        if !starts_with_str(key.as_str(), "--") {
            return Err(String::from_str("unexpected argument: ").concat(key.as_str()));
        }
        let name = flag_name(key.as_str());
        if is_empty_string(&name) {
            return Err(String::from_str("empty flag name"));
        }
        if index + 1 >= args.len() {
            return Err(String::from_str("missing value for --").concat(name.as_str()));
        }
        let value = &args[index + 1];
        proof {
            assert(rest[1] == value@);
            lemma_double_dash(value@);
        }
        if starts_with_str(value.as_str(), "--") {
            return Err(String::from_str("missing value for --").concat(name.as_str()));
        }
        let ghost before = pairs@.map_values(|p: (String, String)| (p.0@, p.1@));
        pairs.push((name, copy_string(value)));
        proof {
            assert(rest.skip(2) == all.skip(index + 2));
            let now = pairs@.map_values(|p: (String, String)| (p.0@, p.1@));
            assert(now =~= before.push((strip_leading_double_dashes(key@), value@)));
            match parsed_pairs(all.skip(index + 2)) {
                Ok(tail) => {
                    assert(before + (seq![(strip_leading_double_dashes(key@), value@)] + tail)
                        =~= now + tail);
                },
                Err(_) => {},
            }
        }
        index = index + 2;
    }
    proof {
        assert(all.skip(index as int) == Seq::<Seq<char>>::empty());
        assert(pairs@.map_values(|p: (String, String)| (p.0@, p.1@)) + Seq::<(Seq<char>, Seq<char>)>::empty()
            == pairs@.map_values(|p: (String, String)| (p.0@, p.1@)));
    }
    Ok(Flags { pairs })
}

/// The trimmed value of a flag, or nothing when it is absent or blank.
pub fn optional_flag(flags: &Flags, name: &str) -> (r: Option<String>)
    ensures
        opt_view(r) == normalized_optional(
            if flags.map().contains_key(name@) {
                Some(flags.map()[name@])
            } else {
                None
            },
        ),
{
    normalize_optional_string(flags.get(name))
}

/// The trimmed value of a flag, or the error `missing --<name>` when it is
/// absent or blank.
pub fn required_flag(flags: &Flags, name: &str) -> (r: Result<String, String>)
    ensures
        result_view(r) == match normalized_optional(
            if flags.map().contains_key(name@) {
                Some(flags.map()[name@])
            } else {
                None
            },
        ) {
            Some(v) => Ok(v),
            None => Err("missing --"@ + name@),
        },
{
    match optional_flag(flags, name) {
        Some(v) => Ok(v),
        None => Err(String::from_str("missing --").concat(name)),
    }
}

/// Scanning a comma-separated list: the finished items (trimmed, blank ones
/// dropped) and the item being read.
pub open spec fn csv_scan(s: Seq<char>) -> (Seq<Seq<char>>, Seq<char>)
    decreases s.len(),
{
    if s.len() == 0 {
        (Seq::empty(), Seq::empty())
    } else {
        let (items, cur) = csv_scan(s.drop_last());
        if s.last() == ',' {
            (
                if trim(cur).len() > 0 {
                    items.push(trim(cur))
                } else {
                    items
                },
                Seq::empty(),
            )
        } else {
            (items, cur.push(s.last()))
        }
    }
}

/// The items of a comma-separated list: split at commas, trimmed, blank ones
/// dropped.
pub open spec fn csv_items(s: Seq<char>) -> Seq<Seq<char>> {
    let (items, cur) = csv_scan(s);
    if trim(cur).len() > 0 {
        items.push(trim(cur))
    } else {
        items
    }
}

proof fn lemma_csv_scan_append(s: Seq<char>, x: Seq<char>)
    requires
        forall|j: int| 0 <= j < x.len() ==> #[trigger] x[j] != ',',
    ensures
        csv_scan(s + x) == (csv_scan(s).0, csv_scan(s).1 + x),
    decreases x.len(),
{
    if x.len() == 0 {
        assert(s + x =~= s);
        assert(csv_scan(s).1 + x =~= csv_scan(s).1);
    } else {
        let init = x.drop_last();
        lemma_csv_scan_append(s, init);
        assert(s + x =~= (s + init).push(x.last()));
        assert((s + x).drop_last() =~= s + init);
        assert(x[x.len() - 1] != ',');
        assert((csv_scan(s).1 + init).push(x.last()) =~= csv_scan(s).1 + x);
    }
}

proof fn lemma_csv_scan_joined(items: Seq<Seq<char>>)
    requires
        items.len() > 0,
        forall|a: int| 0 <= a < items.len() ==> trim(#[trigger] items[a]) == items[a] && items[a].len()
            > 0,
        forall|a: int, j: int| 0 <= a < items.len() && 0 <= j < items[a].len() ==> #[trigger] items[a][j]
            != ',',
    ensures
        csv_scan(join_seqs(items, ","@)) == (items.drop_last(), items.last()),
    decreases items.len(),
{
    reveal_strlit(",");
    let last = items.last();
    assert(last == items[items.len() - 1]);
    assert forall|j: int| 0 <= j < last.len() implies #[trigger] last[j] != ',' by {
        assert(items[items.len() - 1][j] == last[j]);
    }
    if items.len() == 1 {
        lemma_csv_scan_append(Seq::empty(), last);
        assert(Seq::<char>::empty() + last =~= last);
        assert(items.drop_last() =~= Seq::<Seq<char>>::empty());
    } else {
        let init = items.drop_last();
        assert forall|a: int| 0 <= a < init.len() implies trim(#[trigger] init[a]) == init[a]
            && init[a].len() > 0 by {
            assert(init[a] == items[a]);
        }
        assert forall|a: int, j: int| 0 <= a < init.len() && 0 <= j < init[a].len() implies #[trigger] init[a][j]
            != ',' by {
            assert(init[a] == items[a]);
        }
        lemma_csv_scan_joined(init);
        let a = join_seqs(init, ","@);
        assert(init.last() == init[init.len() - 1]);
        assert(a.push(',').drop_last() =~= a);
        assert(csv_scan(a.push(',')) == (init, Seq::<char>::empty())) by {
            assert(init.drop_last().push(init.last()) =~= init);
        }
        lemma_csv_scan_append(a.push(','), last);
        assert(a + ","@ + last =~= a.push(',') + last);
        assert(Seq::<char>::empty() + last =~= last);
    }
}

/// Writing trimmed, non-blank items without commas as a comma-separated
/// list and splitting it gives the items back.
pub proof fn lemma_csv_round_trip(items: Seq<Seq<char>>)
    requires
        forall|a: int| 0 <= a < items.len() ==> trim(#[trigger] items[a]) == items[a] && items[a].len()
            > 0,
        forall|a: int, j: int| 0 <= a < items.len() && 0 <= j < items[a].len() ==> #[trigger] items[a][j]
            != ',',
    ensures
        csv_items(join_seqs(items, ","@)) == items,
{
    if items.len() == 0 {
        assert(csv_items(Seq::<char>::empty()) =~= items);
    } else {
        lemma_csv_scan_joined(items);
        assert(items.last() == items[items.len() - 1]);
        assert(items.drop_last().push(items.last()) =~= items);
    }
}

/// The items of a comma-separated value (see `csv_items`).
pub fn split_csv(value: &str) -> (r: Vec<String>)
    ensures
        views(r@) == csv_items(value@),
{
    let v = chars_of(value);
    let mut items: Vec<String> = Vec::new();
    let mut cur = String::new();
    let mut i: usize = 0;
    proof {
        assert(v@.take(0) == Seq::<char>::empty());
    }
    while i < v.len()
        invariant
            i <= v.len(),
            ({
                let (it, c) = csv_scan(v@.take(i as int));
                views(items@) == it && cur@ == c
            }),
        decreases v.len() - i,
    {
        proof {
            assert(v@.take(i + 1).drop_last() == v@.take(i as int));
            assert(v@.take(i + 1).last() == v@[i as int]);
        }
        if v[i] == ',' {
            let item = trim_str(cur.as_str());
            if !is_empty_string(&item) {
                let ghost before = views(items@);
                items.push(item);
                proof {
                    assert(views(items@) =~= before.push(trim(cur@)));
                }
            }
            cur = String::new();
        } else {
            push_char(&mut cur, v[i]);
        }
        i = i + 1;
    }
    proof {
        assert(v@.take(v@.len() as int) == v@);
    }
    let item = trim_str(cur.as_str());
    if !is_empty_string(&item) {
        let ghost before = views(items@);
        items.push(item);
        proof {
            assert(views(items@) =~= before.push(trim(cur@)));
        }
    }
    items
}

/// The items of a comma-separated flag, or nothing when the flag is absent
/// or blank.
pub fn optional_csv_flag(flags: &Flags, name: &str) -> (r: Option<Vec<String>>)
    ensures
        match normalized_optional(
            if flags.map().contains_key(name@) {
                Some(flags.map()[name@])
            } else {
                None
            },
        ) {
            Some(v) => r matches Some(items) && views(items@) == csv_items(v),
            None => r is None,
        },
{
    match optional_flag(flags, name) {
        Some(v) => Some(split_csv(v.as_str())),
        None => None,
    }
}

} // verus!
