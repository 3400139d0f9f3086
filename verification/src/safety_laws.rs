//! What the safety layer keeps its hands off, said by the names of the places.
use crate::env::Env;
use crate::order::{is_sorted_copy, law_sorted_copy_is_ascending};
use crate::paths::{under, PathStyle};
use crate::rules::expanded;
use crate::rules_laws::{
    law_a_name_stands_for_its_value, law_plain_text_stands_for_itself, without_percent,
};
use crate::safety::{
    expanded_all, is_manifest_name, manifest_name, may_delete, name_keys, posix_roots, protected,
    under_any, windows_root_patterns, ActionManifest, Disposition,
};
use crate::types::Platform;
use vstd::prelude::*;

verus! {

proof fn lemma_enclosed(env: Env, pattern: Seq<char>, name: Seq<char>)
    requires
        without_percent(name),
        pattern == seq!['%'] + name + seq!['%'],
    ensures
        expanded(env, pattern) == env.value(name),
{
    let none = Seq::<char>::empty();
    law_a_name_stands_for_its_value(env, none, name, none);
    law_plain_text_stands_for_itself(env, none);
    assert(pattern =~= none + seq!['%'] + name + seq!['%'] + none);
    match env.value(name) {
        Some(v) => {
            assert(none + v + none =~= v);
        },
        None => {},
    }
}

proof fn lemma_windir(env: Env)
    ensures
        expanded(env, "%WINDIR%"@) == env.value("WINDIR"@),
{
    reveal_strlit("%WINDIR%");
    reveal_strlit("WINDIR");
    assert("%WINDIR%"@ =~= seq!['%'] + "WINDIR"@ + seq!['%']);
    lemma_enclosed(env, "%WINDIR%"@, "WINDIR"@);
}

proof fn lemma_program_files(env: Env)
    ensures
        expanded(env, "%ProgramFiles%"@) == env.value("ProgramFiles"@),
{
    reveal_strlit("%ProgramFiles%");
    reveal_strlit("ProgramFiles");
    assert("%ProgramFiles%"@ =~= seq!['%'] + "ProgramFiles"@ + seq!['%']);
    lemma_enclosed(env, "%ProgramFiles%"@, "ProgramFiles"@);
}

proof fn lemma_program_files_x86(env: Env)
    ensures
        expanded(env, "%ProgramFiles(x86)%"@) == env.value("ProgramFiles(x86)"@),
{
    reveal_strlit("%ProgramFiles(x86)%");
    reveal_strlit("ProgramFiles(x86)");
    assert("%ProgramFiles(x86)%"@ =~= seq!['%'] + "ProgramFiles(x86)"@ + seq!['%']);
    lemma_enclosed(env, "%ProgramFiles(x86)%"@, "ProgramFiles(x86)"@);
}

proof fn lemma_program_data(env: Env)
    ensures
        expanded(env, "%ProgramData%"@) == env.value("ProgramData"@),
{
    reveal_strlit("%ProgramData%");
    reveal_strlit("ProgramData");
    assert("%ProgramData%"@ =~= seq!['%'] + "ProgramData"@ + seq!['%']);
    lemma_enclosed(env, "%ProgramData%"@, "ProgramData"@);
}

/// What the patterns expand to is what is listed, and nothing else.
proof fn lemma_expanded_all(env: Env, patterns: Seq<Seq<char>>)
    ensures
        forall|k: int|
            0 <= k < patterns.len() ==> (expanded(env, #[trigger] patterns[k]) matches Some(v)
                ==> expanded_all(env, patterns).contains(v)),
        forall|v: Seq<char>| #[trigger]
            expanded_all(env, patterns).contains(v) ==> exists|k: int|
                0 <= k < patterns.len() && expanded(env, #[trigger] patterns[k]) == Some(v),
    decreases patterns.len(),
{
    let all = expanded_all(env, patterns);
    if patterns.len() > 0 {
        let n = patterns.len() - 1;
        let front = patterns.drop_last();
        let before = expanded_all(env, front);
        lemma_expanded_all(env, front);
        assert forall|v: Seq<char>| before.contains(v) implies #[trigger] all.contains(v) by {
            let j = choose|j: int| 0 <= j < before.len() && before[j] == v;
            assert(all[j] == v);
        }
        assert forall|k: int| 0 <= k < patterns.len() implies (expanded(
            env,
            #[trigger] patterns[k],
        ) matches Some(v) ==> all.contains(v)) by {
            match expanded(env, patterns[k]) {
                Some(v) => {
                    if k < n {
                        assert(front[k] == patterns[k]);
                        assert(before.contains(v));
                    } else {
                        assert(all[before.len() as int] == v);
                    }
                },
                None => {},
            }
        }
        assert forall|v: Seq<char>| #[trigger] all.contains(v) implies exists|k: int|
            0 <= k < patterns.len() && expanded(env, #[trigger] patterns[k]) == Some(v) by {
            let j = choose|j: int| 0 <= j < all.len() && all[j] == v;
            if j < before.len() {
                assert(before.contains(v)) by {
                    assert(before[j] == v);
                }
                let k = choose|k: int|
                    0 <= k < front.len() && expanded(env, #[trigger] front[k]) == Some(v);
                assert(patterns[k] == front[k]);
            } else {
                assert(expanded(env, patterns[n]) == Some(v));
            }
        }
    }
}

/// The path lies at or below the place that the variable names; a variable that
/// is not set names none.
pub open spec fn inside(env: Env, path: Seq<char>, name: Seq<char>) -> bool {
    env.value(name) matches Some(v) && under(PathStyle::Windows, path, v)
}

proof fn lemma_windows_roots(env: Env, path: Seq<char>)
    ensures
        under_any(PathStyle::Windows, path, protected(Platform::Windows, env)) <==> {
            ||| inside(env, path, "WINDIR"@)
            ||| inside(env, path, "ProgramFiles"@)
            ||| inside(env, path, "ProgramFiles(x86)"@)
            ||| inside(env, path, "ProgramData"@)
        },
{
    let roots = protected(Platform::Windows, env);
    let p = windows_root_patterns();
    lemma_windir(env);
    lemma_program_files(env);
    lemma_program_files_x86(env);
    lemma_program_data(env);
    lemma_expanded_all(env, p);
    assert(p[0] == "%WINDIR%"@ && p[1] == "%ProgramFiles%"@ && p[2] == "%ProgramFiles(x86)%"@ && p[3]
        == "%ProgramData%"@);
    assert forall|k: int| 0 <= k < p.len() && (expanded(env, #[trigger] p[k]) matches Some(v)
        && under(PathStyle::Windows, path, v)) implies under_any(
        PathStyle::Windows,
        path,
        roots,
    ) by {
        let v = expanded(env, p[k])->0;
        assert(roots.contains(v));
        let j = choose|j: int| 0 <= j < roots.len() && roots[j] == v;
        assert(under(PathStyle::Windows, path, roots[j]));
    }
    if under_any(PathStyle::Windows, path, roots) {
        let j = choose|j: int|
            0 <= j < roots.len() && under(PathStyle::Windows, path, #[trigger] roots[j]);
        assert(roots.contains(roots[j]));
        let k = choose|k: int|
            0 <= k < p.len() && expanded(env, #[trigger] p[k]) == Some(roots[j]);
        assert(k == 0 || k == 1 || k == 2 || k == 3);
    }
}

/// On Windows nothing at or below what WINDIR, ProgramFiles, ProgramFiles(x86) or
/// ProgramData name may be deleted, unless an allowed base stands over it.
pub proof fn law_system_directories_stay(
    env: Env,
    path: Seq<char>,
    allowed_bases: Seq<Seq<char>>,
    name: Seq<char>,
    v: Seq<char>,
)
    requires
        name == "WINDIR"@ || name == "ProgramFiles"@ || name == "ProgramFiles(x86)"@ || name
            == "ProgramData"@,
        env.value(name) == Some(v),
        under(PathStyle::Windows, path, v),
    ensures
        !may_delete(Platform::Windows, env, path, Seq::empty()),
        may_delete(Platform::Windows, env, path, allowed_bases) ==> exists|b: int|
            0 <= b < allowed_bases.len() && under(
                PathStyle::Windows,
                path,
                #[trigger] allowed_bases[b],
            ),
{
    lemma_windows_roots(env, path);
    assert(inside(env, path, name));
}

/// On Windows everything else may be deleted: what lies in none of the four places
/// needs no allowed base.
pub proof fn law_other_paths_may_go(env: Env, path: Seq<char>, allowed_bases: Seq<Seq<char>>)
    requires
        !inside(env, path, "WINDIR"@),
        !inside(env, path, "ProgramFiles"@),
        !inside(env, path, "ProgramFiles(x86)"@),
        !inside(env, path, "ProgramData"@),
    ensures
        may_delete(Platform::Windows, env, path, allowed_bases),
{
    lemma_windows_roots(env, path);
}

/// On every platform an allowed base opens what lies at or below it.
pub proof fn law_an_allowed_base_opens_its_tree(
    platform: Platform,
    env: Env,
    path: Seq<char>,
    allowed_bases: Seq<Seq<char>>,
    b: int,
)
    requires
        0 <= b < allowed_bases.len(),
        under(
            match platform {
                Platform::Windows => PathStyle::Windows,
                _ => PathStyle::Posix,
            },
            path,
            allowed_bases[b],
        ),
    ensures
        may_delete(platform, env, path, allowed_bases),
{
}

/// Away from Windows the system, its libraries and its applications stay, and
/// everything else may go.
pub proof fn law_posix_system_directories_stay(
    platform: Platform,
    env: Env,
    path: Seq<char>,
)
    requires
        platform != Platform::Windows,
    ensures
        may_delete(platform, env, path, Seq::empty()) <==> {
            &&& !under(PathStyle::Posix, path, "/System"@)
            &&& !under(PathStyle::Posix, path, "/Library"@)
            &&& !under(PathStyle::Posix, path, "/Applications"@)
            &&& !under(PathStyle::Posix, path, "/usr"@)
            &&& !under(PathStyle::Posix, path, "/bin"@)
            &&& !under(PathStyle::Posix, path, "/sbin"@)
            &&& !under(PathStyle::Posix, path, "/etc"@)
            &&& !under(PathStyle::Posix, path, "/private/etc"@)
            &&& !under(PathStyle::Posix, path, "/private/var/db"@)
        },
{
    let roots = posix_roots();
    assert(roots.len() == 9);
    assert(roots[0] == "/System"@ && roots[1] == "/Library"@ && roots[2] == "/Applications"@
        && roots[3] == "/usr"@ && roots[4] == "/bin"@ && roots[5] == "/sbin"@ && roots[6]
        == "/etc"@ && roots[7] == "/private/etc"@ && roots[8] == "/private/var/db"@);
    if under_any(PathStyle::Posix, path, roots) {
        let j = choose|j: int| 0 <= j < roots.len() && under(PathStyle::Posix, path, #[trigger] roots[j]);
        assert(j == 0 || j == 1 || j == 2 || j == 3 || j == 4 || j == 5 || j == 6 || j == 7 || j
            == 8);
    }
    assert(!under_any(PathStyle::Posix, path, Seq::empty()));
}

// --------------------------------------------------------------- manifests --
/// A file is a manifest if its name is that of one: the prefix, anything, and the
/// ending.
pub proof fn law_manifests_are_known_by_their_names(session: Seq<char>, name: Seq<char>)
    ensures
        is_manifest_name()("clean-undo-"@ + session + ".json"@),
        manifest_name(session) == "clean-undo-"@ + session + ".json"@,
        !"clean-undo-"@.is_prefix_of(name) ==> !is_manifest_name()(name),
        !".json"@.is_suffix_of(name) ==> !is_manifest_name()(name),
{
    reveal_strlit("clean-undo-");
    reveal_strlit(".json");
    let n = "clean-undo-"@ + session + ".json"@;
    assert(n.subrange(0, 11) =~= "clean-undo-"@);
    assert(n.subrange(n.len() - 5, n.len() as int) =~= ".json"@);
}

/// The manifests of a directory are the files with such names, and no others.
pub proof fn law_every_manifest_is_listed(names: Seq<Seq<char>>, sorted: Seq<Seq<char>>, n: Seq<char>)
    requires
        is_sorted_copy(
            names.filter(is_manifest_name()),
            name_keys(names.filter(is_manifest_name())),
            sorted,
        ),
    ensures
        sorted.contains(n) <==> names.contains(n) && "clean-undo-"@.is_prefix_of(n)
            && ".json"@.is_suffix_of(n),
{
    let p = is_manifest_name();
    let found = names.filter(p);
    law_sorted_copy_is_ascending(
        found,
        |s: Seq<char>| (s.len() as u64, s),
        name_keys(found),
        sorted,
    );
    if names.contains(n) && p(n) {
        let i = choose|i: int| 0 <= i < names.len() && names[i] == n;
        names.lemma_filter_contains(p, i);
    }
    if found.contains(n) {
        names.lemma_filter_contains_rev(p, n);
        names.lemma_filter_pred(p, choose|k: int| 0 <= k < found.len() && found[k] == n);
    }
}

/// A manifest is offered for undo exactly where one of its actions went to the
/// Recycle Bin.
pub proof fn law_what_can_be_undone(m: ActionManifest)
    ensures
        m.restorable() <==> exists|i: int|
            0 <= i < m.actions@.len() && (#[trigger] m.actions@[i]).disposition
                == Disposition::RecycleBin,
{
}

} // verus!
