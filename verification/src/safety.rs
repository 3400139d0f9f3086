//! Safety layer: protected paths, Recycle-Bin deletion, undo manifests.
//!
//! Dry-run default, Recycle Bin first, protected paths untouchable, every
//! apply writes an undo manifest.
use crate::env::{all_names, variables_in_all, Env};
use crate::lists::{lemma_filter_ends, lemma_filter_take};
use crate::order::{
    before, is_sorted_copy, is_stable_order, key_lt, key_views, lemma_key_total,
    lemma_sorted_copy_items, permuted, sort_by_keys, SortKey,
};
use crate::paths::{is_under, opt_view, under, PathStyle};
use crate::rules::{expand_env, expanded};
use crate::text::{
    chars_of, copy, decimal, decimal_of, ends_with, join3, lemma_decimal_len, lemma_decimal_order,
    lemma_lex_prefix, lemma_lex_suffix, starts_with, views,
};
use crate::types::Platform;
use vstd::prelude::*;

verus! {

// --------------------------------------------------------- protected paths --
/// The path rules of a platform.
pub open spec fn style_of(platform: Platform) -> PathStyle {
    match platform {
        Platform::Windows => PathStyle::Windows,
        _ => PathStyle::Posix,
    }
}

pub fn path_style(platform: Platform) -> (r: PathStyle)
    ensures
        r == style_of(platform),
{
    match platform {
        Platform::Windows => PathStyle::Windows,
        _ => PathStyle::Posix,
    }
}

/// Where Windows and its programs live.
pub open spec fn windows_root_patterns() -> Seq<Seq<char>> {
    seq!["%WINDIR%"@, "%ProgramFiles%"@, "%ProgramFiles(x86)%"@, "%ProgramData%"@]
}

/// OS and installed applications. `/Library` is the system-wide library; the
/// per-user `~/Library` is intentionally NOT here (junk rule bases live under
/// it and are whitelisted per rule).
pub open spec fn posix_roots() -> Seq<Seq<char>> {
    seq![
        "/System"@,
        "/Library"@,
        "/Applications"@,
        "/usr"@,
        "/bin"@,
        "/sbin"@,
        "/etc"@,
        "/private/etc"@,
        "/private/var/db"@,
    ]
}

/// The values of the patterns that can be expanded, in order.
pub open spec fn expanded_all(env: Env, patterns: Seq<Seq<char>>) -> Seq<Seq<char>>
    decreases patterns.len(),
{
    if patterns.len() == 0 {
        Seq::empty()
    } else {
        let before = expanded_all(env, patterns.drop_last());
        match expanded(env, patterns.last()) {
            Some(v) => before.push(v),
            None => before,
        }
    }
}

/// Directories that user-initiated deletions must never touch.
pub open spec fn protected(platform: Platform, env: Env) -> Seq<Seq<char>> {
    match platform {
        Platform::Windows => expanded_all(env, windows_root_patterns()),
        _ => posix_roots(),
    }
}

fn strings(v: &[&str]) -> (r: Vec<String>)
    ensures
        views(r@) == v@.map_values(|s: &str| s@),
{
    let mut out: Vec<String> = Vec::new();
    let ghost all = v@.map_values(|s: &str| s@);
    let mut i: usize = 0;
    while i < v.len()
        invariant
            i <= v@.len(),
            all == v@.map_values(|s: &str| s@),
            views(out@) == all.take(i as int),
        decreases v@.len() - i,
    {
        let ghost before = out@;
        out.push(copy(v[i]));
        i += 1;
        assert(views(out@) =~= views(before).push(all[i - 1]));
        assert(all.take(i as int) =~= all.take(i - 1).push(all[i - 1]));
    }
    assert(all.take(i as int) =~= all);
    out
}

fn windows_patterns() -> (r: Vec<String>)
    ensures
        views(r@) == windows_root_patterns(),
{
    let patterns: Vec<String> = strings(
        &["%WINDIR%", "%ProgramFiles%", "%ProgramFiles(x86)%", "%ProgramData%"],
    );
    assert(views(patterns@) =~= windows_root_patterns());
    patterns
}

/// Directories that user-initiated deletions (duplicates) must never touch.
/// Junk rules may whitelist their own base (e.g. `C:\Windows\Temp`)
/// explicitly.
pub fn protected_roots(platform: Platform, env: &Env) -> (r: Vec<String>)
    ensures
        views(r@) == protected(platform, *env),
{
    match platform {
        Platform::Windows => {
            let patterns: Vec<String> = windows_patterns();
            let ghost all = windows_root_patterns();
            let mut out: Vec<String> = Vec::new();
            let mut i: usize = 0;
            assert(views(out@) =~= expanded_all(*env, all.take(0)));
            while i < patterns.len()
                invariant
                    i <= patterns@.len(),
                    all == views(patterns@),
                    views(out@) == expanded_all(*env, all.take(i as int)),
                decreases patterns@.len() - i,
            {
                let ghost before = out@;
                match expand_env(env, patterns[i].as_str()) {
                    Some(v) => {
                        out.push(v);
                        assert(views(out@) =~= views(before).push(v@));
                    },
                    None => {},
                }
                i += 1;
                assert(all.take(i as int).drop_last() =~= all.take(i - 1));
                assert(all.take(i as int).last() == patterns@[i - 1]@);
            }
            assert(all.take(i as int) =~= all);
            out
        },
        _ => {
            let out: Vec<String> = strings(
                &[
                    "/System",
                    "/Library",
                    "/Applications",
                    "/usr",
                    "/bin",
                    "/sbin",
                    "/etc",
                    "/private/etc",
                    "/private/var/db",
                ],
            );
            assert(views(out@) =~= posix_roots());
            out
        },
    }
}

/// The variables to ask the system for before the protected roots are known.
pub fn root_variables(platform: Platform) -> (r: Vec<String>)
    ensures
        views(r@) == match platform {
            Platform::Windows => all_names(windows_root_patterns()),
            _ => Seq::empty(),
        },
{
    match platform {
        Platform::Windows => {
            let patterns: Vec<String> = windows_patterns();
            variables_in_all(&patterns)
        },
        _ => {
            let none: Vec<String> = Vec::new();
            assert(views(none@) =~= Seq::empty());
            none
        },
    }
}

/// `path` is at or below one of `bases`.
pub open spec fn under_any(style: PathStyle, path: Seq<char>, bases: Seq<Seq<char>>) -> bool {
    exists|i: int| 0 <= i < bases.len() && under(style, path, #[trigger] bases[i])
}

fn is_under_any(style: PathStyle, path: &str, bases: &Vec<String>) -> (r: bool)
    ensures
        r == under_any(style, path@, views(bases@)),
{
    let mut i: usize = 0;
    while i < bases.len()
        invariant
            i <= bases@.len(),
            forall|k: int| 0 <= k < i ==> !under(style, path@, #[trigger] views(bases@)[k]),
        decreases bases@.len() - i,
    {
        if is_under(style, path, bases[i].as_str()) {
            assert(under(style, path@, views(bases@)[i as int]));
            return true;
        }
        i += 1;
    }
    false
}

/// A path may be deleted: it is not under a protected root, unless it is under
/// an allowed base.
pub open spec fn may_delete(
    platform: Platform,
    env: Env,
    path: Seq<char>,
    allowed_bases: Seq<Seq<char>>,
) -> bool {
    under_any(style_of(platform), path, allowed_bases) || !under_any(
        style_of(platform),
        path,
        protected(platform, env),
    )
}

/// True when `path` may be deleted: not under a protected root, unless it is
/// under one of `allowed_bases` (a junk rule's own documented base).
pub fn deletion_allowed(
    platform: Platform,
    env: &Env,
    path: &str,
    allowed_bases: &Vec<String>,
) -> (r: bool)
    ensures
        r == may_delete(platform, *env, path@, views(allowed_bases@)),
{
    let style: PathStyle = path_style(platform);
    if is_under_any(style, path, allowed_bases) {
        return true;
    }
    let roots: Vec<String> = protected_roots(platform, env);
    !is_under_any(style, path, &roots)
}

/// Protected roots are untouchable: without an allowed base over it, nothing
/// at or below a protected root may be deleted; and a base opens nothing but
/// what lies at or below it.
pub proof fn law_protected_roots_untouchable(
    platform: Platform,
    env: Env,
    path: Seq<char>,
    allowed_bases: Seq<Seq<char>>,
    root: int,
)
    requires
        0 <= root < protected(platform, env).len(),
        under(style_of(platform), path, protected(platform, env)[root]),
    ensures
        may_delete(platform, env, path, allowed_bases) ==> under_any(
            style_of(platform),
            path,
            allowed_bases,
        ),
        !may_delete(platform, env, path, Seq::empty()),
{
}

// --------------------------------------------------------------- manifests --
#[derive(Debug, Clone, Copy, PartialEq, Eq, Structural)]
pub enum Disposition {
    RecycleBin,
    Permanent,
}

#[derive(Debug)]
pub struct Action {
    pub from: String,
    pub disposition: Disposition,
    pub size: u64,
    pub at_unix: i64,
}

/// What an `Action` holds.
#[verifier::ext_equal]
pub struct ActionView {
    pub from: Seq<char>,
    pub disposition: Disposition,
    pub size: u64,
    pub at_unix: i64,
}

impl View for Action {
    type V = ActionView;

    open spec fn view(&self) -> ActionView {
        ActionView {
            from: self.from@,
            disposition: self.disposition,
            size: self.size,
            at_unix: self.at_unix,
        }
    }
}

/// The views of a list of actions.
pub open spec fn actions(v: Seq<Action>) -> Seq<ActionView> {
    v.map_values(|a: Action| a@)
}

impl Clone for Action {
    fn clone(&self) -> (r: Self)
        ensures
            r == *self,
    {
        Action {
            from: self.from.clone(),
            disposition: self.disposition,
            size: self.size,
            at_unix: self.at_unix,
        }
    }
}

/// Written on every apply; undo restores from it while the items remain in the
/// Recycle Bin.
#[derive(Debug)]
pub struct ActionManifest {
    pub session_id: String,
    pub actions: Vec<Action>,
}

impl Default for ActionManifest {
    fn default() -> (r: Self)
        ensures
            r.session_id@ == Seq::<char>::empty(),
            r.actions@.len() == 0,
    {
        ActionManifest { session_id: String::new(), actions: Vec::new() }
    }
}

/// The file name pattern of manifests.
pub open spec fn is_manifest_name() -> spec_fn(Seq<char>) -> bool {
    |n: Seq<char>| "clean-undo-"@.is_prefix_of(n) && ".json"@.is_suffix_of(n)
}

/// The file name of the manifest of a session.
pub open spec fn manifest_name(session_id: Seq<char>) -> Seq<char> {
    "clean-undo-"@ + session_id + ".json"@
}

/// Manifests are ordered by the number of their session: a shorter name has
/// fewer digits, and names of one length are ordered as text.
pub open spec fn name_keys(v: Seq<Seq<char>>) -> Seq<(u64, Seq<char>)> {
    v.map_values(|s: Seq<char>| (s.len() as u64, s))
}

impl ActionManifest {
    /// An empty manifest, named after the time of its creation.
    pub fn new(now_secs: u64) -> (r: Self)
        ensures
            r.session_id@ == decimal(now_secs as nat),
            r.actions@.len() == 0,
    {
        ActionManifest { session_id: decimal_of(now_secs), actions: Vec::new() }
    }

    pub fn file_name(&self) -> (r: String)
        ensures
            r@ == manifest_name(self.session_id@),
    {
        join3("clean-undo-", self.session_id.as_str(), ".json")
    }

    /// The manifests among the file names of a directory, from the oldest
    /// session to the newest.
    pub fn manifests_in(names: Vec<String>) -> (r: Vec<String>)
        ensures
            ({
                let found = views(names@).filter(is_manifest_name());
                is_sorted_copy(found, name_keys(found), views(r@))
            }),
    {
        let ghost all = views(names@);
        let ghost p = is_manifest_name();
        let mut found: Vec<String> = Vec::new();
        let mut keys: Vec<SortKey> = Vec::new();
        let mut i: usize = 0;
        proof {
            lemma_filter_ends(all, p);
            assert(views(found@) =~= all.take(0).filter(p));
        }
        while i < names.len()
            invariant
                i <= names@.len(),
                all == views(names@),
                p == is_manifest_name(),
                views(found@) == all.take(i as int).filter(p),
                keys@.len() == found@.len(),
                forall|k: int|
                    0 <= k < keys@.len() ==> (#[trigger] keys@[k])@ == (found@[k]@.len() as u64, found@[k]@),
            decreases names@.len() - i,
        {
            let ghost before = found@;
            proof {
                lemma_filter_take(all, p, i as int);
            }
            let name: &str = names[i].as_str();
            if starts_with(name, "clean-undo-") && ends_with(name, ".json") {
                let chars: Vec<char> = chars_of(name);
                keys.push(SortKey { rank: chars.len() as u64, name: chars });
                found.push(names[i].clone());
                assert(views(found@) =~= views(before).push(all[i as int]));
            }
            i += 1;
        }
        assert(all.take(i as int) =~= all);
        let ghost fv = views(found@);
        let ghost raw = found@;
        assert(key_views(keys@) =~= name_keys(fv));
        let out: Vec<String> = sort_by_keys(found, &keys);
        proof {
            let q = choose|q: Seq<usize>|
                is_stable_order(key_views(keys@), q) && #[trigger] permuted(raw, q, out@);
            assert(permuted(fv, q, views(out@)));
        }
        out
    }

    /// The most recent manifest among the file names of a directory.
    pub fn latest_in(names: Vec<String>) -> (r: Option<String>)
        ensures
            exists|sorted: Seq<Seq<char>>| #[trigger]
                is_sorted_copy(
                    views(names@).filter(is_manifest_name()),
                    name_keys(views(names@).filter(is_manifest_name())),
                    sorted,
                ) && opt_view(r) == if sorted.len() > 0 {
                    Some(sorted.last())
                } else {
                    None
                },
    {
        let mut sorted: Vec<String> = ActionManifest::manifests_in(names);
        let ghost sv = views(sorted@);
        let out: Option<String> = sorted.pop();
        assert(is_sorted_copy(
            views(names@).filter(is_manifest_name()),
            name_keys(views(names@).filter(is_manifest_name())),
            sv,
        ));
        out
    }

    /// Something in the manifest can be given back by the Recycle Bin.
    pub open spec fn restorable(&self) -> bool {
        exists|i: int|
            0 <= i < self.actions@.len() && (#[trigger] self.actions@[i]).disposition
                == Disposition::RecycleBin
    }

    /// Whether the Recycle Bin can give something of this manifest back.
    pub fn is_restorable(&self) -> (r: bool)
        ensures
            r == self.restorable(),
    {
        let mut i: usize = 0;
        while i < self.actions.len()
            invariant
                i <= self.actions@.len(),
                forall|k: int|
                    0 <= k < i ==> (#[trigger] self.actions@[k]).disposition
                        != Disposition::RecycleBin,
            decreases self.actions@.len() - i,
        {
            if self.actions[i].disposition == Disposition::RecycleBin {
                return true;
            }
            i += 1;
        }
        false
    }

    /// Most recent manifest that still has something the Recycle Bin can give
    /// back: the last of the list that could be loaded and is restorable.
    /// Permanent-delete manifests are kept as an audit record but must never be
    /// offered for undo (there is nothing to restore), nor hide an older
    /// restorable session behind them.
    pub fn latest_restorable_in(loaded: Vec<(String, Option<ActionManifest>)>) -> (r: Option<
        (String, ActionManifest),
    >)
        ensures
            match r {
                Some((name, m)) => m.restorable() && exists|i: int|
                    0 <= i < loaded@.len() && (#[trigger] loaded@[i]) == (name, Some(m)) && (
                    forall|j: int|
                        i < j < loaded@.len() ==> ((#[trigger] loaded@[j]).1 matches Some(n)
                            ==> !n.restorable())),
                None => forall|j: int|
                    0 <= j < loaded@.len() ==> ((#[trigger] loaded@[j]).1 matches Some(n)
                        ==> !n.restorable()),
            },
    {
        let ghost all = loaded@;
        let mut rest: Vec<(String, Option<ActionManifest>)> = loaded;
        assert(all.take(all.len() as int) =~= all);
        while rest.len() > 0
            invariant
                rest@.len() <= all.len(),
                all == loaded@,
                rest@ == all.take(rest@.len() as int),
                forall|j: int|
                    rest@.len() <= j < all.len() ==> ((#[trigger] all[j]).1 matches Some(n)
                        ==> !n.restorable()),
            decreases rest@.len(),
        {
            let ghost n = rest@.len() as int;
            match rest.pop() {
                Some((name, m)) => {
                    assert(all.take(n).drop_last() =~= all.take(n - 1));
                    assert((name, m) == all[n - 1]);
                    match m {
                        Some(found) => {
                            if found.is_restorable() {
                                return Some((name, found));
                            }
                        },
                        None => {},
                    }
                },
                None => {},
            }
        }
        None
    }
}

/// The file name of the session that was created at a time.
pub open spec fn session_name(secs: u64) -> Seq<char> {
    manifest_name(decimal(secs as nat))
}

proof fn lemma_session_order(a: u64, b: u64)
    requires
        a < b,
    ensures
        key_lt(
            (session_name(a).len() as u64, session_name(a)),
            (session_name(b).len() as u64, session_name(b)),
        ),
{
    let x = decimal(a as nat);
    let y = decimal(b as nat);
    reveal_strlit("clean-undo-");
    reveal_strlit(".json");
    lemma_decimal_len(a as nat);
    lemma_decimal_len(b as nat);
    lemma_decimal_order(a as nat, b as nat);
    if x.len() == y.len() {
        lemma_lex_prefix("clean-undo-"@, x, y);
        lemma_lex_suffix("clean-undo-"@ + x, "clean-undo-"@ + y, ".json"@, ".json"@);
    }
}

proof fn lemma_session_names(secs: u64)
    ensures
        is_manifest_name()(session_name(secs)),
{
    let name = session_name(secs);
    reveal_strlit("clean-undo-");
    reveal_strlit(".json");
    assert(name.subrange(0, 11) =~= "clean-undo-"@);
    assert(name.subrange(name.len() - 5, name.len() as int) =~= ".json"@);
}

/// The last manifest in order is that of the newest session: where every
/// manifest of a directory is named after the time of its session, none of them
/// was created later than the last one.
pub proof fn law_last_manifest_is_the_newest(names: Seq<Seq<char>>, sorted: Seq<Seq<char>>, secs: u64)
    requires
        is_sorted_copy(
            names.filter(is_manifest_name()),
            name_keys(names.filter(is_manifest_name())),
            sorted,
        ),
        forall|i: int|
            0 <= i < names.len() && is_manifest_name()(#[trigger] names[i]) ==> exists|t: u64|
                names[i] == session_name(t),
        names.contains(session_name(secs)),
    ensures
        sorted.len() > 0,
        exists|t: u64| sorted.last() == #[trigger] session_name(t) && secs <= t,
{
    broadcast use vstd::seq_lib::group_to_multiset_ensures;

    let f = is_manifest_name();
    let found = names.filter(f);
    let keys = name_keys(found);
    let name = session_name(secs);
    lemma_session_names(secs);
    let at = choose|at: int| 0 <= at < names.len() && names[at] == name;
    names.lemma_filter_contains(f, at);
    lemma_sorted_copy_items(found, keys, sorted);
    assert(found.to_multiset().count(name) > 0);
    assert(sorted.contains(name));
    let j = choose|j: int| 0 <= j < sorted.len() && sorted[j] == name;
    let n = sorted.len() - 1;
    let p = choose|p: Seq<usize>| is_stable_order(keys, p) && #[trigger] permuted(found, p, sorted);
    assert(sorted[n] == found[p[n] as int]);
    names.lemma_filter_contains_rev(f, found[p[n] as int]);
    let t = choose|t: u64| sorted[n] == session_name(t);
    if t < secs {
        lemma_session_order(t, secs);
        let a = keys[p[j] as int];
        let b = keys[p[n] as int];
        assert(a == (name.len() as u64, name));
        assert(b == (session_name(t).len() as u64, session_name(t)));
        lemma_key_total(a, b);
        if j < n {
            assert(before(keys, p[j] as int, p[n] as int));
        }
    }
}

} // verus!
