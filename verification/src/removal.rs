//! Removing an app, and offering the last session for undo.
use crate::appscan::{AppRemoval, InstalledApp};
use crate::env::Env;
use crate::lists::{lemma_filter_ends, lemma_filter_take, lemma_sum_push, lemma_sum_take, sum};
use crate::merge::{lemma_lowered_none, lemma_lowered_take, lowered};
use crate::paths::{parent, parent_of};
use crate::safety::{
    actions, deletion_allowed, may_delete, path_style, style_of, Action, ActionManifest, ActionView,
    Disposition,
};
use crate::text::{copy, join3, lowercase, to_lowercase, views};
use crate::types::Platform;
use vstd::hash_set::StringHashSet;
use vstd::prelude::*;

verus! {

// -------------------------------------------------------------------- apps --
/// How an app is removed.
#[derive(Debug)]
pub enum AppPlan {
    /// Launch the vendor's own uninstaller, exactly like Settings > Apps.
    Launch { command: String },
    /// Move the bundle to the Trash.
    Recycle { path: String, size: u64 },
}

/// The directory that holds a bundle; empty where its path has no parent.
pub open spec fn bundle_dir(platform: Platform, path: Seq<char>) -> Seq<char> {
    match parent(style_of(platform), path) {
        Some(p) => p,
        None => Seq::empty(),
    }
}

/// The removal of the app with this number, derived from the last scan. An
/// applications folder is a protected root: exactly the directory that holds
/// the bundle is authorized.
pub fn plan_removal(platform: Platform, env: &Env, apps: &Vec<InstalledApp>, index: usize) -> (r:
    Result<AppPlan, String>)
    ensures
        if index >= apps@.len() {
            r matches Err(e) && e@ == "No such app. Rescan first."@
        } else {
            match apps@[index as int].removal {
                AppRemoval::WindowsUninstall { uninstall_string } => r matches Ok(
                    AppPlan::Launch { command },
                ) && command@ == uninstall_string@,
                AppRemoval::MacBundle { path } => if may_delete(
                    platform,
                    *env,
                    path@,
                    seq![bundle_dir(platform, path@)],
                ) {
                    r matches Ok(AppPlan::Recycle { path: p, size }) && p@ == path@ && size
                        == apps@[index as int].size_bytes
                } else {
                    r matches Err(e) && e@
                        == "Refusing to remove: outside the applications folder."@
                },
            }
        },
{
    if index >= apps.len() {
        return Err(copy("No such app. Rescan first."));
    }
    let app: &InstalledApp = &apps[index];
    match &app.removal {
        AppRemoval::WindowsUninstall { uninstall_string } => Ok(
            AppPlan::Launch { command: uninstall_string.clone() },
        ),
        AppRemoval::MacBundle { path } => {
            let base: String = match parent_of(path_style(platform), path.as_str()) {
                Some(p) => p,
                None => String::new(),
            };
            let mut bases: Vec<String> = Vec::new();
            bases.push(base);
            assert(views(bases@) =~= seq![bundle_dir(platform, path@)]);
            if deletion_allowed(platform, env, path.as_str(), &bases) {
                Ok(AppPlan::Recycle { path: path.clone(), size: app.size_bytes })
            } else {
                Err(copy("Refusing to remove: outside the applications folder."))
            }
        },
    }
}

pub open spec fn app_size() -> spec_fn(InstalledApp) -> nat {
    |a: InstalledApp| a.size_bytes as nat
}

pub open spec fn is_flagged() -> spec_fn(InstalledApp) -> bool {
    |a: InstalledApp| a.flags@.len() > 0
}

/// The sum over apps with a KNOWN size (unknown sizes count 0), and how many
/// apps carry a flag.
pub fn app_totals(v: &Vec<InstalledApp>) -> (r: (u64, usize))
    requires
        sum(v@, app_size()) <= u64::MAX,
    ensures
        r.0 == sum(v@, app_size()),
        r.1 == v@.filter(is_flagged()).len(),
{
    let mut bytes: u64 = 0;
    let mut flagged: usize = 0;
    let n: usize = v.len();
    let mut i: usize = 0;
    proof {
        lemma_filter_ends(v@, is_flagged());
        assert(v@.take(0) =~= Seq::empty());
    }
    while i < n
        invariant
            i <= n == v@.len(),
            sum(v@, app_size()) <= u64::MAX,
            bytes == sum(v@.take(i as int), app_size()),
            flagged == v@.take(i as int).filter(is_flagged()).len(),
            flagged <= i,
        decreases n - i,
    {
        proof {
            lemma_filter_take(v@, is_flagged(), i as int);
            lemma_sum_take(v@, app_size(), i as int);
        }
        bytes = bytes + v[i].size_bytes;
        if v[i].flags.len() > 0 {
            flagged += 1;
        }
        i += 1;
    }
    assert(v@.take(n as int) =~= v@);
    (bytes, flagged)
}

// -------------------------------------------------------------------- undo --
pub open spec fn is_recycled() -> spec_fn(ActionView) -> bool {
    |a: ActionView| a.disposition == Disposition::RecycleBin
}

pub open spec fn action_size() -> spec_fn(ActionView) -> nat {
    |a: ActionView| a.size as nat
}

/// What a manifest put into the Recycle Bin.
pub open spec fn recycled(m: ActionManifest) -> Seq<ActionView> {
    actions(m.actions@).filter(is_recycled())
}

/// What of a manifest the bin still holds, where `bin` lists the paths that its
/// items came from. Case does not count.
pub open spec fn left_in(m: ActionManifest, bin: Seq<Seq<char>>) -> Seq<ActionView> {
    actions(m.actions@).filter(is_held(lowered(bin)))
}

pub open spec fn is_held(held: Set<Seq<char>>) -> spec_fn(ActionView) -> bool {
    |a: ActionView| a.disposition == Disposition::RecycleBin && held.contains(lowercase(a.from))
}

/// How many files of a manifest the bin still holds, and their bytes.
pub fn left_in_bin(m: &ActionManifest, bin: &Vec<String>) -> (r: (usize, u64))
    requires
        sum(left_in(*m, views(bin@)), action_size()) <= u64::MAX,
    ensures
        r.0 == left_in(*m, views(bin@)).len(),
        r.1 == sum(left_in(*m, views(bin@)), action_size()),
{
    let ghost paths = views(bin@);
    let mut held: StringHashSet = StringHashSet::new();
    let mut k: usize = 0;
    proof {
        lemma_lowered_none(paths);
        assert(held@ =~= Set::empty());
    }
    while k < bin.len()
        invariant
            k <= bin@.len(),
            paths == views(bin@),
            held@ == lowered(paths.take(k as int)),
        decreases bin@.len() - k,
    {
        held.insert(to_lowercase(bin[k].as_str()));
        proof {
            lemma_lowered_take(paths, k as int);
        }
        k += 1;
    }
    assert(paths.take(k as int) =~= paths);
    let ghost all = actions(m.actions@);
    let ghost p = is_held(lowered(paths));
    let mut files: usize = 0;
    let mut bytes: u64 = 0;
    let n: usize = m.actions.len();
    let mut i: usize = 0;
    proof {
        lemma_filter_ends(all, p);
    }
    while i < n
        invariant
            i <= n == m.actions@.len(),
            all == actions(m.actions@),
            held@ == lowered(paths),
            p == is_held(lowered(paths)),
            sum(all.filter(p), action_size()) <= u64::MAX,
            files == all.take(i as int).filter(p).len(),
            files <= i,
            bytes == sum(all.take(i as int).filter(p), action_size()),
        decreases n - i,
    {
        let ghost before = all.take(i as int).filter(p);
        proof {
            lemma_filter_take(all, p, i as int);
            crate::lists::lemma_filter_sum_prefix(all, p, action_size(), i + 1);
            assert(all[i as int] == m.actions@[i as int]@);
        }
        let a: &Action = &m.actions[i];
        let lower: String = to_lowercase(a.from.as_str());
        if a.disposition == Disposition::RecycleBin && held.contains(lower.as_str()) {
            proof {
                lemma_sum_push(before, action_size(), all[i as int]);
            }
            files += 1;
            bytes = bytes + a.size;
        }
        i += 1;
    }
    proof {
        lemma_filter_ends(all, p);
    }
    (files, bytes)
}

/// What is done with the last session that can be restored.
#[derive(Debug)]
pub enum UndoCard {
    /// Nothing of it is left in the bin: it is retired under this name, and an
    /// older session may be offered.
    Retire { name: String },
    /// It is offered.
    Show { files: usize, bytes: u64, at_unix: i64 },
}

/// A session is offered with what is left of it in the bin. One whose items are
/// all gone is retired on sight - offering it would promise an undo that
/// restores nothing. Where the bin cannot be listed, the manifest's own counts
/// are shown.
pub fn undo_card(m: &ActionManifest, live: Option<(usize, u64)>) -> (r: UndoCard)
    requires
        sum(recycled(*m), action_size()) <= u64::MAX,
    ensures
        match live {
            Some((0, _)) => r matches UndoCard::Retire { name } && name@ == "stale-"@
                + m.session_id@ + ".json"@,
            Some((files, bytes)) => r matches UndoCard::Show { files: f, bytes: b, at_unix } && f
                == files && b == bytes && at_unix == first_time(*m),
            None => r matches UndoCard::Show { files: f, bytes: b, at_unix } && f == recycled(
                *m,
            ).len() && b == sum(recycled(*m), action_size()) && at_unix == first_time(*m),
        },
{
    let ghost all = actions(m.actions@);
    let ghost p = is_recycled();
    let mut files: usize = 0;
    let mut bytes: u64 = 0;
    let mut at: i64 = 0;
    let n: usize = m.actions.len();
    let mut i: usize = 0;
    proof {
        lemma_filter_ends(all, p);
    }
    while i < n
        invariant
            i <= n == m.actions@.len(),
            all == actions(m.actions@),
            p == is_recycled(),
            sum(all.filter(p), action_size()) <= u64::MAX,
            files == all.take(i as int).filter(p).len(),
            files <= i,
            bytes == sum(all.take(i as int).filter(p), action_size()),
            at == if all.take(i as int).filter(p).len() > 0 {
                all.take(i as int).filter(p)[0].at_unix
            } else {
                0
            },
        decreases n - i,
    {
        let ghost before = all.take(i as int).filter(p);
        proof {
            lemma_filter_take(all, p, i as int);
            crate::lists::lemma_filter_sum_prefix(all, p, action_size(), i + 1);
            assert(all[i as int] == m.actions@[i as int]@);
        }
        let a: &Action = &m.actions[i];
        if a.disposition == Disposition::RecycleBin {
            proof {
                lemma_sum_push(before, action_size(), all[i as int]);
            }
            if files == 0 {
                at = a.at_unix;
            }
            files += 1;
            bytes = bytes + a.size;
        }
        i += 1;
    }
    proof {
        lemma_filter_ends(all, p);
    }
    match live {
        Some((left, left_bytes)) => {
            if left == 0 {
                UndoCard::Retire { name: join3("stale-", m.session_id.as_str(), ".json") }
            } else {
                UndoCard::Show { files: left, bytes: left_bytes, at_unix: at }
            }
        },
        None => UndoCard::Show { files, bytes, at_unix: at },
    }
}

/// When the first item was recycled; 0 where none was.
pub open spec fn first_time(m: ActionManifest) -> i64 {
    if recycled(m).len() > 0 {
        recycled(m)[0].at_unix
    } else {
        0
    }
}

/// The name under which a restored session is retired, so that "undo last"
/// moves on to the one before.
pub fn undone_name(m: &ActionManifest) -> (r: String)
    ensures
        r@ == "undone-"@ + m.session_id@ + ".json"@,
{
    join3("undone-", m.session_id.as_str(), ".json")
}

/// Of a manifest those actions can be undone that went to the Recycle Bin, and of
/// those the ones are left that the bin still holds, whatever the case of their
/// paths.
pub proof fn law_what_is_left_of_a_manifest(a: ActionView, held: Set<Seq<char>>)
    ensures
        is_recycled()(a) <==> a.disposition == Disposition::RecycleBin,
        is_held(held)(a) <==> a.disposition == Disposition::RecycleBin && held.contains(
            lowercase(a.from),
        ),
        action_size()(a) == a.size,
{
}

/// An app counts with its size, and as flagged where it has a flag.
pub proof fn law_how_apps_are_counted(a: InstalledApp)
    ensures
        app_size()(a) == a.size_bytes,
        is_flagged()(a) <==> a.flags@.len() > 0,
{
}

/// A bundle lies in the directory over it, which is what its removal is allowed to
/// touch.
pub proof fn law_a_bundle_lies_in_its_directory(platform: Platform, path: Seq<char>)
    ensures
        parent(style_of(platform), path) matches Some(p) ==> bundle_dir(platform, path) == p,
        parent(style_of(platform), path) is None ==> bundle_dir(platform, path).len() == 0,
{
}

} // verus!
