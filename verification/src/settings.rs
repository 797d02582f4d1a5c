//! The application's settings: the active vault of a session, and the list
//! of recently opened vaults kept in the global settings file.

use vstd::prelude::*;
use crate::text::{views, copy_string};
use crate::normalize::result_view;

verus! {

/// How many vault paths the recent list keeps.
pub const MAX_RECENT_VAULTS: usize = 10;

/// The global settings: the vault opened last, and the vaults opened
/// recently, most recent first.
#[derive(Debug)]
pub struct GlobalSettings {
    pub active_vault_path: String,
    pub recent_vault_paths: Vec<String>,
}

/// `s` with every occurrence of `v` removed, order kept.
pub open spec fn without(s: Seq<Seq<char>>, v: Seq<char>) -> Seq<Seq<char>>
    decreases s.len(),
{
    if s.len() == 0 {
        s
    } else if s.last() == v {
        without(s.drop_last(), v)
    } else {
        without(s.drop_last(), v).push(s.last())
    }
}

/// The recent list after opening `v`: `v` first, then the earlier entries
/// other than `v` in their order, cut to ten entries.
pub open spec fn recent_after(recent: Seq<Seq<char>>, v: Seq<char>) -> Seq<Seq<char>> {
    let full = seq![v] + without(recent, v);
    if full.len() > 10 {
        full.take(10)
    } else {
        full
    }
}

/// No element occurs twice.
pub open spec fn no_duplicates(s: Seq<Seq<char>>) -> bool {
    forall|i: int, j: int| 0 <= i < j < s.len() ==> s[i] != s[j]
}

proof fn lemma_without_facts(s: Seq<Seq<char>>, v: Seq<char>)
    ensures
        forall|i: int| 0 <= i < without(s, v).len() ==> #[trigger] without(s, v)[i] != v,
        forall|i: int| 0 <= i < without(s, v).len() ==> s.contains(#[trigger] without(s, v)[i]),
        without(s, v).len() <= s.len(),
        no_duplicates(s) ==> no_duplicates(without(s, v)),
        (forall|i: int| 0 <= i < s.len() ==> s[i] != v) ==> without(s, v) == s,
    decreases s.len(),
{
    if s.len() > 0 {
        let p = s.drop_last();
        lemma_without_facts(p, v);
        let w = without(s, v);
        let wp = without(p, v);
        assert forall|i: int| 0 <= i < w.len() implies s.contains(#[trigger] w[i]) by {
            if i < wp.len() {
                assert(w[i] == wp[i]);
                let k = choose|k: int| 0 <= k < p.len() && p[k] == wp[i];
                assert(s[k] == p[k]);
            } else {
                assert(s[s.len() - 1] == w[i]);
            }
        }
        if no_duplicates(s) {
            assert(no_duplicates(p)) by {
                assert forall|i: int, j: int| 0 <= i < j < p.len() implies p[i] != p[j] by {
                    assert(p[i] == s[i] && p[j] == s[j]);
                }
            }
            assert forall|i: int, j: int| 0 <= i < j < w.len() implies w[i] != w[j] by {
                if j < wp.len() {
                    assert(w[i] == wp[i] && w[j] == wp[j]);
                } else if s.last() != v {
                    assert(w[i] == wp[i]);
                    assert(w[j] == s.last());
                    let k = choose|k: int| 0 <= k < p.len() && p[k] == wp[i];
                    assert(s[k] == p[k]);
                }
            }
        }
        if forall|i: int| 0 <= i < s.len() ==> s[i] != v {
            assert(s.last() == s[s.len() - 1]);
            assert forall|i: int| 0 <= i < p.len() implies p[i] != v by {
                assert(p[i] == s[i]);
            }
            assert(s == p.push(s.last()));
        }
    }
}

proof fn lemma_without_prepended(x: Seq<Seq<char>>, v: Seq<char>)
    ensures
        without(seq![v] + x, v) == without(x, v),
    decreases x.len(),
{
    if x.len() == 0 {
        assert((seq![v] + x).drop_last() =~= Seq::<Seq<char>>::empty());
        assert((seq![v] + x).last() == v);
        assert(without(Seq::<Seq<char>>::empty(), v) == Seq::<Seq<char>>::empty());
    } else {
        lemma_without_prepended(x.drop_last(), v);
        assert((seq![v] + x).drop_last() =~= seq![v] + x.drop_last());
        assert((seq![v] + x).last() == x.last());
    }
}

/// The vault just opened comes first and occurs only once, and the list
/// holds between one and ten entries.
pub proof fn lemma_recent_after_shape(recent: Seq<Seq<char>>, v: Seq<char>)
    ensures
        recent_after(recent, v).len() >= 1,
        recent_after(recent, v).len() <= 10,
        recent_after(recent, v)[0] == v,
        forall|i: int| 1 <= i < recent_after(recent, v).len() ==> #[trigger] recent_after(recent, v)[i] != v,
        forall|i: int| 1 <= i < recent_after(recent, v).len() ==> recent.contains(#[trigger] recent_after(recent, v)[i]),
{
    lemma_without_facts(recent, v);
    let w = without(recent, v);
    let r = recent_after(recent, v);
    assert forall|i: int| 1 <= i < r.len() implies #[trigger] r[i] != v && recent.contains(r[i]) by {
        assert(r[i] == w[i - 1]);
    }
}

/// Whether an entry is not `v`.
pub open spec fn other_than(v: Seq<char>) -> spec_fn(Seq<char>) -> bool {
    |x: Seq<char>| x != v
}

proof fn lemma_without_is_filter(s: Seq<Seq<char>>, v: Seq<char>)
    ensures
        without(s, v) == s.filter(other_than(v)),
    decreases s.len(),
{
    reveal(Seq::filter);
    if s.len() > 0 {
        lemma_without_is_filter(s.drop_last(), v);
    }
}

/// After opening `v`, the earlier entries other than `v` follow it in
/// their order, all of them while they fit in the ten places of the list.
pub proof fn lemma_recent_after_keeps_earlier(recent: Seq<Seq<char>>, v: Seq<char>)
    ensures
        recent_after(recent, v).len() == if 1 + recent.filter(other_than(v)).len() > 10 {
            10
        } else {
            1 + recent.filter(other_than(v)).len()
        },
        forall|i: int|
            1 <= i < recent_after(recent, v).len() ==> #[trigger] recent_after(recent, v)[i]
                == recent.filter(other_than(v))[i - 1],
{
    lemma_without_is_filter(recent, v);
    let w = without(recent, v);
    let r = recent_after(recent, v);
    assert forall|i: int| 1 <= i < r.len() implies #[trigger] r[i] == w[i - 1] by {
        assert((seq![v] + w)[i] == w[i - 1]);
    }
}

/// Opening the same vault again changes nothing.
pub proof fn lemma_recent_after_idempotent(recent: Seq<Seq<char>>, v: Seq<char>)
    ensures
        recent_after(recent_after(recent, v), v) == recent_after(recent, v),
{
    let r = recent_after(recent, v);
    lemma_recent_after_shape(recent, v);
    let tail = r.drop_first();
    assert(r =~= seq![v] + tail);
    lemma_without_prepended(tail, v);
    assert forall|i: int| 0 <= i < tail.len() implies tail[i] != v by {
        assert(tail[i] == r[i + 1]);
    }
    lemma_without_facts(tail, v);
    assert(without(r, v) == tail);
}

/// A list without repeated entries stays without them.
pub proof fn lemma_recent_after_no_duplicates(recent: Seq<Seq<char>>, v: Seq<char>)
    requires
        no_duplicates(recent),
    ensures
        no_duplicates(recent_after(recent, v)),
{
    lemma_without_facts(recent, v);
    let w = without(recent, v);
    let full = seq![v] + w;
    let r = recent_after(recent, v);
    assert forall|i: int, j: int| 0 <= i < j < r.len() implies r[i] != r[j] by {
        assert(r[i] == full[i] && r[j] == full[j]);
        if i == 0 {
            assert(full[j] == w[j - 1]);
        } else {
            assert(full[i] == w[i - 1] && full[j] == w[j - 1]);
        }
    }
}

/// The global settings after a vault is opened: it becomes the active vault
/// and moves to the front of the recent list (see `recent_after`).
pub fn updated_global_settings(previous: Option<GlobalSettings>, vault_path: String) -> (r:
    GlobalSettings)
    ensures
        r.active_vault_path@ == vault_path@,
        views(r.recent_vault_paths@) == recent_after(
            match previous {
                Some(p) => views(p.recent_vault_paths@),
                None => Seq::empty(),
            },
            vault_path@,
        ),
{
    let recent: Vec<String> = match previous {
        Some(p) => p.recent_vault_paths,
        None => Vec::new(),
    };
    let ghost old_views = views(recent@);
    let mut kept: Vec<String> = Vec::new();
    kept.push(copy_string(&vault_path));
    let mut i: usize = 0;
    while i < recent.len()
        invariant
            i <= recent.len(),
            old_views == views(recent@),
            views(kept@) == seq![vault_path@] + without(old_views.take(i as int), vault_path@),
        decreases recent.len() - i,
    {
        proof {
            assert(old_views.take(i + 1).drop_last() == old_views.take(i as int));
            assert(old_views.take(i + 1).last() == recent@[i as int]@);
        }
        let ghost before = views(kept@);
        if recent[i] != vault_path {
            kept.push(copy_string(&recent[i]));
            proof {
                assert(views(kept@) =~= before.push(recent@[i as int]@));
                assert(views(kept@) =~= seq![vault_path@] + without(old_views.take(i + 1), vault_path@));
            }
        }
        i = i + 1;
    }
    proof {
        assert(old_views.take(recent@.len() as int) == old_views);
    }
    if kept.len() > MAX_RECENT_VAULTS {
        kept.truncate(MAX_RECENT_VAULTS);
        proof {
            assert(views(kept@) =~= (seq![vault_path@] + without(old_views, vault_path@)).take(10));
        }
    }
    GlobalSettings { active_vault_path: vault_path, recent_vault_paths: kept }
}

/// The vault a session opens: the one asked for, else the active vault of
/// the saved settings, else the default location.
pub fn chosen_vault_path(
    requested: Option<String>,
    saved: Option<GlobalSettings>,
    default: String,
) -> (r: String)
    ensures
        r@ == match requested {
            Some(p) => p@,
            None => match saved {
                Some(s) => s.active_vault_path@,
                None => default@,
            },
        },
{
    match requested {
        Some(p) => p,
        None => match saved {
            Some(s) => s.active_vault_path,
            None => default,
        },
    }
}

/// What asking for the open vault answers: the vault, or the error
/// `vault is not initialized`.
pub open spec fn active_vault_result(active: Option<Seq<char>>) -> Result<Seq<char>, Seq<char>> {
    match active {
        Some(p) => Ok(p),
        None => Err("vault is not initialized"@),
    }
}

/// Asking for the open vault after a vault was set gives that vault back;
/// before any was set, it gives the error.
pub proof fn lemma_active_vault_read_after_write(before: AppState, after: AppState, path: Seq<char>)
    requires
        before.active() is None,
        after.active() == Some(path),
    ensures
        active_vault_result(after.active()) == Ok::<Seq<char>, Seq<char>>(path),
        active_vault_result(before.active()) == Err::<Seq<char>, Seq<char>>(
            "vault is not initialized"@,
        ),
{
}

/// The session state: which vault is open, if any.
pub struct AppState {
    active_vault: Option<String>,
}

impl AppState {
    /// The vault that is open, if any.
    pub closed spec fn active(&self) -> Option<Seq<char>> {
        match self.active_vault {
            Some(p) => Some(p@),
            None => None,
        }
    }

    /// A session with no vault open.
    pub fn new() -> (r: AppState)
        ensures
            r.active() is None,
    {
        AppState { active_vault: None }
    }

    /// Makes `path` the open vault.
    pub fn set_active_vault(&mut self, path: String) -> (r: Result<(), String>)
        ensures
            r is Ok,
            final(self).active() == Some(path@),
    {
        self.active_vault = Some(path);
        Ok(())
    }

    /// The open vault, or the error `vault is not initialized`.
    fn active_vault(&self) -> (r: Result<String, String>)
        ensures
            result_view(r) == active_vault_result(self.active()),
    {
        match &self.active_vault {
            Some(p) => Ok(copy_string(p)),
            None => Err(String::from_str("vault is not initialized")),
        }
    }
}

impl Default for AppState {
    fn default() -> (r: AppState)
        ensures
            r.active() is None,
    {
        AppState::new()
    }
}

/// The open vault of a session, or the error `vault is not initialized`.
pub fn active_vault_path(state: &AppState) -> (r: Result<String, String>)
    ensures
        result_view(r) == active_vault_result(state.active()),
{
    state.active_vault()
}

} // verus!
