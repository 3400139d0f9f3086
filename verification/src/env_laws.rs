//! What is read of the environment: the answers to the names in a text decide
//! what it expands to, so it is enough to ask for those.
use crate::catalog::{
    catalog, disk_cleanup_tool, dism_health_tool, do_cache_tool, flush_dns_tool, hiberfil_tool,
    probed_texts, sfc_tool, storage_sense_tool, windows_old_tool, winget_search_tool,
    winget_upgrade_tool, winsock_tool, winsxs_tool, wu_settings_tool,
};
use crate::catalog_laws::{lemma_words_are_plain, plain};
use crate::env::{
    agree, agree_enclosed, all_names, encloses, lemma_agree_each, lemma_agree_in, lemma_agree_skip,
    names_in, Env,
};
use crate::rules::expanded;
use crate::safety::{expanded_all, protected, windows_root_patterns};
use crate::text::{find_from, lemma_find_from, occurs_at};
use crate::toolbox::{cmd_of, lemma_substituted_plain, substituted};
use crate::types::Platform;
use vstd::prelude::*;

verus! {

/// The two `%` that a search finds one after the other enclose a name.
proof fn lemma_found_enclose(s: Seq<char>, i: int, j: int)
    requires
        0 <= i,
        find_from(s, seq!['%'], 0) == Some(i),
        find_from(s, seq!['%'], i + 1) == Some(j),
    ensures
        encloses(s, i, j),
{
    let p = seq!['%'];
    lemma_find_from(s, p, 0);
    lemma_find_from(s, p, i + 1);
    assert(s.subrange(i, i + 1)[0] == s[i]);
    assert(s.subrange(j, j + 1)[0] == s[j]);
    assert forall|k: int| i < k < j implies #[trigger] s[k] != '%' by {
        if s[k] == '%' {
            assert(s.subrange(k, k + 1) =~= p);
            assert(occurs_at(s, p, k));
        }
    }
}

proof fn lemma_same_substituted(a: Env, b: Env, s: Seq<char>)
    requires
        agree_enclosed(a, b, s),
    ensures
        substituted(a, s) == substituted(b, s),
    decreases s.len(),
{
    match find_from(s, seq!['%'], 0) {
        None => {},
        Some(i) => {
            lemma_find_from(s, seq!['%'], 0);
            lemma_agree_skip(a, b, s, i + 1);
            lemma_same_substituted(a, b, s.skip(i + 1));
            match find_from(s, seq!['%'], i + 1) {
                Some(j) => {
                    lemma_find_from(s, seq!['%'], i + 1);
                    lemma_found_enclose(s, i, j);
                    lemma_agree_skip(a, b, s, j + 1);
                    lemma_same_substituted(a, b, s.skip(j + 1));
                },
                None => {},
            }
        },
    }
}

proof fn lemma_same_expanded(a: Env, b: Env, s: Seq<char>)
    requires
        agree_enclosed(a, b, s),
    ensures
        expanded(a, s) == expanded(b, s),
    decreases s.len(),
{
    match find_from(s, seq!['%'], 0) {
        None => {},
        Some(i) => {
            lemma_find_from(s, seq!['%'], 0);
            match find_from(s, seq!['%'], i + 1) {
                Some(j) => {
                    lemma_find_from(s, seq!['%'], i + 1);
                    lemma_found_enclose(s, i, j);
                    lemma_agree_skip(a, b, s, j + 1);
                    lemma_same_expanded(a, b, s.skip(j + 1));
                },
                None => {},
            }
        },
    }
}

/// What a text expands to depends on the answers to its own names only.
pub proof fn law_expansion_asks_for_the_names_in_a_text(a: Env, b: Env, s: Seq<char>)
    requires
        agree(a, b, names_in(s)),
    ensures
        substituted(a, s) == substituted(b, s),
        expanded(a, s) == expanded(b, s),
{
    lemma_agree_in(a, b, s);
    lemma_same_substituted(a, b, s);
    lemma_same_expanded(a, b, s);
}

/// The protected roots depend on the answers to the names that
/// `root_variables` gives only.
pub proof fn law_protected_roots_ask_for_their_variables(platform: Platform, a: Env, b: Env)
    requires
        platform is Windows ==> agree(a, b, all_names(windows_root_patterns())),
    ensures
        protected(platform, a) == protected(platform, b),
{
    if platform is Windows {
        lemma_same_roots(a, b, windows_root_patterns(), windows_root_patterns().len());
        let p = windows_root_patterns();
        assert(p.take(p.len() as int) =~= p);
    }
}

proof fn lemma_same_roots(a: Env, b: Env, patterns: Seq<Seq<char>>, n: nat)
    requires
        agree(a, b, all_names(patterns)),
        n <= patterns.len(),
    ensures
        expanded_all(a, patterns.take(n as int)) == expanded_all(b, patterns.take(n as int)),
    decreases n,
{
    if n > 0 {
        let t = patterns.take(n as int);
        assert(t.drop_last() =~= patterns.take(n - 1));
        assert(t.last() == patterns[n - 1]);
        lemma_same_roots(a, b, patterns, (n - 1) as nat);
        lemma_agree_each(a, b, patterns, n - 1);
        law_expansion_asks_for_the_names_in_a_text(a, b, patterns[n - 1]);
    }
}

proof fn lemma_same_cmd(a: Env, b: Env, program: Seq<char>, args: Seq<Seq<char>>)
    requires
        substituted(a, program) == substituted(b, program),
        forall|k: int| 0 <= k < args.len() ==> plain(#[trigger] args[k]),
    ensures
        cmd_of(a, program, args) == cmd_of(b, program, args),
{
    assert forall|k: int| 0 <= k < args.len() implies cmd_of(a, program, args).args[k]
        == #[trigger] cmd_of(b, program, args).args[k] by {
        assert(plain(args[k]));
        lemma_substituted_plain(a, args[k]);
        lemma_substituted_plain(b, args[k]);
    }
    assert(cmd_of(a, program, args).args =~= cmd_of(b, program, args).args);
}

/// A program of the catalog with words of the catalog.
proof fn lemma_same_plain_cmd(a: Env, b: Env, program: Seq<char>, args: Seq<Seq<char>>)
    requires
        plain(program),
        forall|k: int| 0 <= k < args.len() ==> plain(#[trigger] args[k]),
    ensures
        cmd_of(a, program, args) == cmd_of(b, program, args),
{
    lemma_substituted_plain(a, program);
    lemma_substituted_plain(b, program);
    lemma_same_cmd(a, b, program, args);
}

proof fn lemma_same_storage_tools(a: Env, b: Env)
    requires
        forall|k: int|
            0 <= k < probed_texts().len() ==> substituted(a, #[trigger] probed_texts()[k])
                == substituted(b, probed_texts()[k]),
    ensures
        hiberfil_tool(a) == hiberfil_tool(b),
        windows_old_tool(a) == windows_old_tool(b),
        do_cache_tool(a) == do_cache_tool(b),
        disk_cleanup_tool(a) == disk_cleanup_tool(b),
        storage_sense_tool(a) == storage_sense_tool(b),
{
    lemma_words_are_plain();
    let t = probed_texts();
    assert(substituted(a, t[0]) == substituted(b, t[0]));
    assert(substituted(a, t[1]) == substituted(b, t[1]));
    assert(substituted(a, t[2]) == substituted(b, t[2]));
    assert(substituted(a, t[3]) == substituted(b, t[3]));
    lemma_same_plain_cmd(a, b, "powercfg"@, seq!["/a"@]);
    lemma_same_plain_cmd(a, b, "powercfg"@, seq!["/h"@, "off"@]);
    lemma_same_plain_cmd(
        a,
        b,
        "reg"@,
        seq![
            "add"@,
            "HKLM\\SOFTWARE\\Microsoft\\Windows\\CurrentVersion\\Explorer\\VolumeCaches\\Previous Installations"@,
            "/v"@,
            "StateFlags0071"@,
            "/t"@,
            "REG_DWORD"@,
            "/d"@,
            "2"@,
            "/f"@,
        ],
    );
    lemma_same_plain_cmd(a, b, "cleanmgr"@, seq!["/sagerun:71"@]);
    lemma_same_plain_cmd(
        a,
        b,
        "reg"@,
        seq![
            "delete"@,
            "HKLM\\SOFTWARE\\Microsoft\\Windows\\CurrentVersion\\Explorer\\VolumeCaches\\Previous Installations"@,
            "/v"@,
            "StateFlags0071"@,
            "/f"@,
        ],
    );
    lemma_same_plain_cmd(
        a,
        b,
        "powershell"@,
        seq![
            "-NoProfile"@,
            "-NonInteractive"@,
            "-Command"@,
            "Delete-DeliveryOptimizationCache -Force"@,
        ],
    );
    lemma_same_plain_cmd(a, b, "cleanmgr"@, Seq::empty());
    lemma_same_plain_cmd(a, b, "explorer.exe"@, seq!["ms-settings:storagesense"@]);
}

proof fn lemma_same_winget_tools(a: Env, b: Env, winget: Seq<char>)
    requires
        substituted(a, winget) == substituted(b, winget),
    ensures
        winget_upgrade_tool(a, winget) == winget_upgrade_tool(b, winget),
        winget_search_tool(a, winget) == winget_search_tool(b, winget),
{
    lemma_words_are_plain();
    lemma_same_cmd(
        a,
        b,
        winget,
        seq![
            "upgrade"@,
            "--include-unknown"@,
            "--disable-interactivity"@,
            "--accept-source-agreements"@,
        ],
    );
    lemma_same_cmd(
        a,
        b,
        winget,
        seq![
            "upgrade"@,
            "--all"@,
            "--include-unknown"@,
            "--silent"@,
            "--disable-interactivity"@,
            "--accept-package-agreements"@,
            "--accept-source-agreements"@,
        ],
    );
    lemma_same_cmd(a, b, winget, seq!["search"@, "--query"@, "<term>"@]);
    lemma_same_cmd(a, b, winget, seq!["install"@, "--id"@, "<term>"@, "--exact"@]);
}

proof fn lemma_same_other_tools(a: Env, b: Env)
    ensures
        winsxs_tool(a) == winsxs_tool(b),
        wu_settings_tool(a) == wu_settings_tool(b),
        sfc_tool(a) == sfc_tool(b),
        dism_health_tool(a) == dism_health_tool(b),
        flush_dns_tool(a) == flush_dns_tool(b),
        winsock_tool(a) == winsock_tool(b),
{
    lemma_words_are_plain();
    lemma_same_plain_cmd(
        a,
        b,
        "Dism"@,
        seq!["/Online"@, "/Cleanup-Image"@, "/AnalyzeComponentStore"@],
    );
    lemma_same_plain_cmd(
        a,
        b,
        "Dism"@,
        seq!["/Online"@, "/Cleanup-Image"@, "/StartComponentCleanup"@],
    );
    lemma_same_plain_cmd(a, b, "explorer.exe"@, seq!["ms-settings:windowsupdate"@]);
    lemma_same_plain_cmd(a, b, "sfc"@, seq!["/verifyonly"@]);
    lemma_same_plain_cmd(a, b, "sfc"@, seq!["/scannow"@]);
    lemma_same_plain_cmd(a, b, "Dism"@, seq!["/Online"@, "/Cleanup-Image"@, "/CheckHealth"@]);
    lemma_same_plain_cmd(a, b, "Dism"@, seq!["/Online"@, "/Cleanup-Image"@, "/RestoreHealth"@]);
    lemma_same_plain_cmd(a, b, "ipconfig"@, seq!["/flushdns"@]);
    lemma_same_plain_cmd(a, b, "netsh"@, seq!["winsock"@, "reset"@]);
    lemma_same_plain_cmd(a, b, "netsh"@, seq!["int"@, "ip"@, "reset"@]);
}

/// The catalog depends on the answers to the names that `catalog_variables`
/// gives only.
pub proof fn law_catalog_asks_for_its_variables(a: Env, b: Env, winget: Seq<char>)
    requires
        agree(a, b, all_names(probed_texts().push(winget))),
    ensures
        catalog(a, winget) == catalog(b, winget),
{
    let texts = probed_texts().push(winget);
    assert forall|k: int| 0 <= k < probed_texts().len() implies substituted(
        a,
        #[trigger] probed_texts()[k],
    ) == substituted(b, probed_texts()[k]) by {
        lemma_agree_each(a, b, texts, k);
        law_expansion_asks_for_the_names_in_a_text(a, b, texts[k]);
    }
    lemma_agree_each(a, b, texts, probed_texts().len() as int);
    law_expansion_asks_for_the_names_in_a_text(a, b, winget);
    lemma_same_storage_tools(a, b);
    lemma_same_winget_tools(a, b, winget);
    lemma_same_other_tools(a, b);
}

proof fn lemma_value_from(env: Env, i: int, from: int)
    requires
        0 <= from <= i < env.vars@.len(),
        forall|k: int| 0 <= k < i ==> (#[trigger] env.vars@[k]).0@ != env.vars@[i].0@,
    ensures
        env.value_from(env.vars@[i].0@, from) == Some(env.vars@[i].1@),
    decreases i - from,
{
    if from < i {
        assert(env.vars@[from].0@ != env.vars@[i].0@);
        lemma_value_from(env, i, from + 1);
    }
}

proof fn lemma_no_value_from(env: Env, name: Seq<char>, from: int)
    requires
        0 <= from,
        forall|k: int| 0 <= k < env.vars@.len() ==> (#[trigger] env.vars@[k]).0@ != name,
    ensures
        env.value_from(name, from) is None,
    decreases env.vars@.len() - from,
{
    if from < env.vars@.len() {
        assert(env.vars@[from].0@ != name);
        lemma_no_value_from(env, name, from + 1);
    }
}

/// A variable has the value that stands with its name, and the first of several; a
/// name that does not stand there has none.
pub proof fn law_a_variable_has_its_value(env: Env, name: Seq<char>, i: int)
    ensures
        0 <= i < env.vars@.len() && env.vars@[i].0@ == name && (forall|k: int|
            0 <= k < i ==> (#[trigger] env.vars@[k]).0@ != name) ==> env.value(name) == Some(
            env.vars@[i].1@,
        ),
        (forall|k: int| 0 <= k < env.vars@.len() ==> (#[trigger] env.vars@[k]).0@ != name)
            ==> env.value(name) is None,
{
    if 0 <= i < env.vars@.len() && env.vars@[i].0@ == name && (forall|k: int|
        0 <= k < i ==> (#[trigger] env.vars@[k]).0@ != name) {
        lemma_value_from(env, i, 0);
    }
    if forall|k: int| 0 <= k < env.vars@.len() ==> (#[trigger] env.vars@[k]).0@ != name {
        lemma_no_value_from(env, name, 0);
    }
}

} // verus!
