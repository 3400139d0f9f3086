//! What holds of the whole catalog of maintenance tools.
use crate::catalog::{
    catalog, disk_cleanup_tool, dism_health_tool, do_cache_tool, first_file, first_with_id,
    flush_dns_tool, hiberfil_tool, platform_tools, reason, sfc_tool, storage_sense_tool,
    term_commands, windows_old_tool, winget_program, winget_search_tool, winget_upgrade_tool,
    winsock_tool, winsxs_tool, wu_settings_tool, Candidate, Presence,
};
use crate::env::Env;
use crate::text::same_ascii;
use crate::toolbox::{cmd_of, lemma_substituted_plain, substituted, CmdView, Mode, ToolView};
use crate::types::Platform;
use vstd::prelude::*;

verus! {

/// The commands that a tool may run.
pub open spec fn commands(t: ToolView) -> Seq<CmdView> {
    t.check + t.action + match t.open {
        Some(c) => seq![c],
        None => Seq::empty(),
    }
}

/// The first `n` characters hold no `%`.
spec fn free_of_percent(s: Seq<char>, n: nat) -> bool
    decreases n,
{
    n == 0 || (s[n - 1] != '%' && free_of_percent(s, (n - 1) as nat))
}

proof fn lemma_free_of_percent(s: Seq<char>, n: nat)
    requires
        n <= s.len(),
        free_of_percent(s, n),
    ensures
        forall|i: int| 0 <= i < n ==> #[trigger] s[i] != '%',
    decreases n,
{
    if n > 0 {
        lemma_free_of_percent(s, (n - 1) as nat);
    }
}

/// Text in which no `%` stands, so that no placeholder is left or was there.
pub open spec fn plain(s: Seq<char>) -> bool {
    !s.contains('%')
}

proof fn lemma_plain(s: Seq<char>)
    requires
        free_of_percent(s, s.len()),
    ensures
        plain(s),
{
    lemma_free_of_percent(s, s.len());
}

/// The words of the catalog hold no placeholder.
pub proof fn lemma_words_are_plain()
    ensures
        plain("powercfg"@),
        plain("reg"@),
        plain("cleanmgr"@),
        plain("powershell"@),
        plain("explorer.exe"@),
        plain("Dism"@),
        plain("sfc"@),
        plain("ipconfig"@),
        plain("netsh"@),
        plain("/a"@),
        plain("/h"@),
        plain("off"@),
        plain("add"@),
        plain(
            "HKLM\\SOFTWARE\\Microsoft\\Windows\\CurrentVersion\\Explorer\\VolumeCaches\\Previous Installations"@,
        ),
        plain("/v"@),
        plain("StateFlags0071"@),
        plain("/t"@),
        plain("REG_DWORD"@),
        plain("/d"@),
        plain("2"@),
        plain("/f"@),
        plain("/sagerun:71"@),
        plain("delete"@),
        plain("-NoProfile"@),
        plain("-NonInteractive"@),
        plain("-Command"@),
        plain("Delete-DeliveryOptimizationCache -Force"@),
        plain("ms-settings:storagesense"@),
        plain("/Online"@),
        plain("/Cleanup-Image"@),
        plain("/AnalyzeComponentStore"@),
        plain("/StartComponentCleanup"@),
        plain("ms-settings:windowsupdate"@),
        plain("upgrade"@),
        plain("--include-unknown"@),
        plain("--disable-interactivity"@),
        plain("--accept-source-agreements"@),
        plain("--all"@),
        plain("--silent"@),
        plain("--accept-package-agreements"@),
        plain("search"@),
        plain("--query"@),
        plain("<term>"@),
        plain("install"@),
        plain("--id"@),
        plain("--exact"@),
        plain("/verifyonly"@),
        plain("/scannow"@),
        plain("/CheckHealth"@),
        plain("/RestoreHealth"@),
        plain("/flushdns"@),
        plain("winsock"@),
        plain("reset"@),
        plain("int"@),
        plain("ip"@),
{
    assert(plain("powercfg"@)) by {
        reveal_strlit("powercfg");
        reveal_with_fuel(free_of_percent, 9);
        lemma_plain("powercfg"@);
    }
    assert(plain("reg"@)) by {
        reveal_strlit("reg");
        reveal_with_fuel(free_of_percent, 4);
        lemma_plain("reg"@);
    }
    assert(plain("cleanmgr"@)) by {
        reveal_strlit("cleanmgr");
        reveal_with_fuel(free_of_percent, 9);
        lemma_plain("cleanmgr"@);
    }
    assert(plain("powershell"@)) by {
        reveal_strlit("powershell");
        reveal_with_fuel(free_of_percent, 11);
        lemma_plain("powershell"@);
    }
    assert(plain("explorer.exe"@)) by {
        reveal_strlit("explorer.exe");
        reveal_with_fuel(free_of_percent, 13);
        lemma_plain("explorer.exe"@);
    }
    assert(plain("Dism"@)) by {
        reveal_strlit("Dism");
        reveal_with_fuel(free_of_percent, 5);
        lemma_plain("Dism"@);
    }
    assert(plain("sfc"@)) by {
        reveal_strlit("sfc");
        reveal_with_fuel(free_of_percent, 4);
        lemma_plain("sfc"@);
    }
    assert(plain("ipconfig"@)) by {
        reveal_strlit("ipconfig");
        reveal_with_fuel(free_of_percent, 9);
        lemma_plain("ipconfig"@);
    }
    assert(plain("netsh"@)) by {
        reveal_strlit("netsh");
        reveal_with_fuel(free_of_percent, 6);
        lemma_plain("netsh"@);
    }
    assert(plain("/a"@)) by {
        reveal_strlit("/a");
        reveal_with_fuel(free_of_percent, 3);
        lemma_plain("/a"@);
    }
    assert(plain("/h"@)) by {
        reveal_strlit("/h");
        reveal_with_fuel(free_of_percent, 3);
        lemma_plain("/h"@);
    }
    assert(plain("off"@)) by {
        reveal_strlit("off");
        reveal_with_fuel(free_of_percent, 4);
        lemma_plain("off"@);
    }
    assert(plain("add"@)) by {
        reveal_strlit("add");
        reveal_with_fuel(free_of_percent, 4);
        lemma_plain("add"@);
    }
    assert(plain("HKLM\\SOFTWARE\\Microsoft\\Windows\\CurrentVersion\\Explorer\\VolumeCaches\\Previous Installations"@)) by {
        reveal_strlit("HKLM\\SOFTWARE\\Microsoft\\Windows\\CurrentVersion\\Explorer\\VolumeCaches\\Previous Installations");
        reveal_with_fuel(free_of_percent, 92);
        lemma_plain(
            "HKLM\\SOFTWARE\\Microsoft\\Windows\\CurrentVersion\\Explorer\\VolumeCaches\\Previous Installations"@,
        );
    }
    assert(plain("/v"@)) by {
        reveal_strlit("/v");
        reveal_with_fuel(free_of_percent, 3);
        lemma_plain("/v"@);
    }
    assert(plain("StateFlags0071"@)) by {
        reveal_strlit("StateFlags0071");
        reveal_with_fuel(free_of_percent, 15);
        lemma_plain("StateFlags0071"@);
    }
    assert(plain("/t"@)) by {
        reveal_strlit("/t");
        reveal_with_fuel(free_of_percent, 3);
        lemma_plain("/t"@);
    }
    assert(plain("REG_DWORD"@)) by {
        reveal_strlit("REG_DWORD");
        reveal_with_fuel(free_of_percent, 10);
        lemma_plain("REG_DWORD"@);
    }
    assert(plain("/d"@)) by {
        reveal_strlit("/d");
        reveal_with_fuel(free_of_percent, 3);
        lemma_plain("/d"@);
    }
    assert(plain("2"@)) by {
        reveal_strlit("2");
        reveal_with_fuel(free_of_percent, 2);
        lemma_plain("2"@);
    }
    assert(plain("/f"@)) by {
        reveal_strlit("/f");
        reveal_with_fuel(free_of_percent, 3);
        lemma_plain("/f"@);
    }
    assert(plain("/sagerun:71"@)) by {
        reveal_strlit("/sagerun:71");
        reveal_with_fuel(free_of_percent, 12);
        lemma_plain("/sagerun:71"@);
    }
    assert(plain("delete"@)) by {
        reveal_strlit("delete");
        reveal_with_fuel(free_of_percent, 7);
        lemma_plain("delete"@);
    }
    assert(plain("-NoProfile"@)) by {
        reveal_strlit("-NoProfile");
        reveal_with_fuel(free_of_percent, 11);
        lemma_plain("-NoProfile"@);
    }
    assert(plain("-NonInteractive"@)) by {
        reveal_strlit("-NonInteractive");
        reveal_with_fuel(free_of_percent, 16);
        lemma_plain("-NonInteractive"@);
    }
    assert(plain("-Command"@)) by {
        reveal_strlit("-Command");
        reveal_with_fuel(free_of_percent, 9);
        lemma_plain("-Command"@);
    }
    assert(plain("Delete-DeliveryOptimizationCache -Force"@)) by {
        reveal_strlit("Delete-DeliveryOptimizationCache -Force");
        reveal_with_fuel(free_of_percent, 40);
        lemma_plain("Delete-DeliveryOptimizationCache -Force"@);
    }
    assert(plain("ms-settings:storagesense"@)) by {
        reveal_strlit("ms-settings:storagesense");
        reveal_with_fuel(free_of_percent, 25);
        lemma_plain("ms-settings:storagesense"@);
    }
    assert(plain("/Online"@)) by {
        reveal_strlit("/Online");
        reveal_with_fuel(free_of_percent, 8);
        lemma_plain("/Online"@);
    }
    assert(plain("/Cleanup-Image"@)) by {
        reveal_strlit("/Cleanup-Image");
        reveal_with_fuel(free_of_percent, 15);
        lemma_plain("/Cleanup-Image"@);
    }
    assert(plain("/AnalyzeComponentStore"@)) by {
        reveal_strlit("/AnalyzeComponentStore");
        reveal_with_fuel(free_of_percent, 23);
        lemma_plain("/AnalyzeComponentStore"@);
    }
    assert(plain("/StartComponentCleanup"@)) by {
        reveal_strlit("/StartComponentCleanup");
        reveal_with_fuel(free_of_percent, 23);
        lemma_plain("/StartComponentCleanup"@);
    }
    assert(plain("ms-settings:windowsupdate"@)) by {
        reveal_strlit("ms-settings:windowsupdate");
        reveal_with_fuel(free_of_percent, 26);
        lemma_plain("ms-settings:windowsupdate"@);
    }
    assert(plain("upgrade"@)) by {
        reveal_strlit("upgrade");
        reveal_with_fuel(free_of_percent, 8);
        lemma_plain("upgrade"@);
    }
    assert(plain("--include-unknown"@)) by {
        reveal_strlit("--include-unknown");
        reveal_with_fuel(free_of_percent, 18);
        lemma_plain("--include-unknown"@);
    }
    assert(plain("--disable-interactivity"@)) by {
        reveal_strlit("--disable-interactivity");
        reveal_with_fuel(free_of_percent, 24);
        lemma_plain("--disable-interactivity"@);
    }
    assert(plain("--accept-source-agreements"@)) by {
        reveal_strlit("--accept-source-agreements");
        reveal_with_fuel(free_of_percent, 27);
        lemma_plain("--accept-source-agreements"@);
    }
    assert(plain("--all"@)) by {
        reveal_strlit("--all");
        reveal_with_fuel(free_of_percent, 6);
        lemma_plain("--all"@);
    }
    assert(plain("--silent"@)) by {
        reveal_strlit("--silent");
        reveal_with_fuel(free_of_percent, 9);
        lemma_plain("--silent"@);
    }
    assert(plain("--accept-package-agreements"@)) by {
        reveal_strlit("--accept-package-agreements");
        reveal_with_fuel(free_of_percent, 28);
        lemma_plain("--accept-package-agreements"@);
    }
    assert(plain("search"@)) by {
        reveal_strlit("search");
        reveal_with_fuel(free_of_percent, 7);
        lemma_plain("search"@);
    }
    assert(plain("--query"@)) by {
        reveal_strlit("--query");
        reveal_with_fuel(free_of_percent, 8);
        lemma_plain("--query"@);
    }
    assert(plain("<term>"@)) by {
        reveal_strlit("<term>");
        reveal_with_fuel(free_of_percent, 7);
        lemma_plain("<term>"@);
    }
    assert(plain("install"@)) by {
        reveal_strlit("install");
        reveal_with_fuel(free_of_percent, 8);
        lemma_plain("install"@);
    }
    assert(plain("--id"@)) by {
        reveal_strlit("--id");
        reveal_with_fuel(free_of_percent, 5);
        lemma_plain("--id"@);
    }
    assert(plain("--exact"@)) by {
        reveal_strlit("--exact");
        reveal_with_fuel(free_of_percent, 8);
        lemma_plain("--exact"@);
    }
    assert(plain("/verifyonly"@)) by {
        reveal_strlit("/verifyonly");
        reveal_with_fuel(free_of_percent, 12);
        lemma_plain("/verifyonly"@);
    }
    assert(plain("/scannow"@)) by {
        reveal_strlit("/scannow");
        reveal_with_fuel(free_of_percent, 9);
        lemma_plain("/scannow"@);
    }
    assert(plain("/CheckHealth"@)) by {
        reveal_strlit("/CheckHealth");
        reveal_with_fuel(free_of_percent, 13);
        lemma_plain("/CheckHealth"@);
    }
    assert(plain("/RestoreHealth"@)) by {
        reveal_strlit("/RestoreHealth");
        reveal_with_fuel(free_of_percent, 15);
        lemma_plain("/RestoreHealth"@);
    }
    assert(plain("/flushdns"@)) by {
        reveal_strlit("/flushdns");
        reveal_with_fuel(free_of_percent, 10);
        lemma_plain("/flushdns"@);
    }
    assert(plain("winsock"@)) by {
        reveal_strlit("winsock");
        reveal_with_fuel(free_of_percent, 8);
        lemma_plain("winsock"@);
    }
    assert(plain("reset"@)) by {
        reveal_strlit("reset");
        reveal_with_fuel(free_of_percent, 6);
        lemma_plain("reset"@);
    }
    assert(plain("int"@)) by {
        reveal_strlit("int");
        reveal_with_fuel(free_of_percent, 4);
        lemma_plain("int"@);
    }
    assert(plain("ip"@)) by {
        reveal_strlit("ip");
        reveal_with_fuel(free_of_percent, 3);
        lemma_plain("ip"@);
    }
}

/// A command that runs no command interpreter.
pub open spec fn no_shell(c: CmdView) -> bool {
    !same_ascii(c.program, "cmd"@) && !same_ascii(c.program, "cmd.exe"@)
}

proof fn lemma_programs_are_no_shell()
    ensures
        !same_ascii("powercfg"@, "cmd"@) && !same_ascii("powercfg"@, "cmd.exe"@),
        !same_ascii("reg"@, "cmd"@) && !same_ascii("reg"@, "cmd.exe"@),
        !same_ascii("cleanmgr"@, "cmd"@) && !same_ascii("cleanmgr"@, "cmd.exe"@),
        !same_ascii("powershell"@, "cmd"@) && !same_ascii("powershell"@, "cmd.exe"@),
        !same_ascii("explorer.exe"@, "cmd"@) && !same_ascii("explorer.exe"@, "cmd.exe"@),
        !same_ascii("Dism"@, "cmd"@) && !same_ascii("Dism"@, "cmd.exe"@),
        !same_ascii("sfc"@, "cmd"@) && !same_ascii("sfc"@, "cmd.exe"@),
        !same_ascii("ipconfig"@, "cmd"@) && !same_ascii("ipconfig"@, "cmd.exe"@),
        !same_ascii("netsh"@, "cmd"@) && !same_ascii("netsh"@, "cmd.exe"@),
{
    reveal_strlit("cmd");
    reveal_strlit("cmd.exe");
    reveal_strlit("powercfg");
    reveal_strlit("reg");
    assert(crate::text::ascii_lowered("reg"@)[0] == 'r');
    reveal_strlit("cleanmgr");
    reveal_strlit("powershell");
    reveal_strlit("explorer.exe");
    reveal_strlit("Dism");
    reveal_strlit("sfc");
    assert(crate::text::ascii_lowered("sfc"@)[0] == 's');
    reveal_strlit("ipconfig");
    reveal_strlit("netsh");
    assert(crate::text::ascii_lowered("cmd"@)[0] == 'c');
}

/// Where the winget program is no command interpreter, no command of the
/// catalog is one: every step is a real executable with its arguments.
pub proof fn law_catalog_runs_no_shell(env: Env, winget: Seq<char>, i: int, j: int)
    requires
        0 <= i < catalog(env, winget).len(),
        0 <= j < commands(catalog(env, winget)[i]).len(),
        !same_ascii(substituted(env, winget), "cmd"@),
        !same_ascii(substituted(env, winget), "cmd.exe"@),
    ensures
        no_shell(commands(catalog(env, winget)[i])[j]),
{
    lemma_words_are_plain();
    lemma_programs_are_no_shell();
    lemma_substituted_plain(env, "powercfg"@);
    lemma_substituted_plain(env, "reg"@);
    lemma_substituted_plain(env, "cleanmgr"@);
    lemma_substituted_plain(env, "powershell"@);
    lemma_substituted_plain(env, "explorer.exe"@);
    lemma_substituted_plain(env, "Dism"@);
    lemma_substituted_plain(env, "sfc"@);
    lemma_substituted_plain(env, "ipconfig"@);
    lemma_substituted_plain(env, "netsh"@);
}

/// All arguments of all commands of a tool are plain.
pub open spec fn plain_arguments(t: ToolView) -> bool {
    forall|j: int, k: int|
        0 <= j < commands(t).len() && 0 <= k < commands(t)[j].args.len() ==> plain(
            #[trigger] commands(t)[j].args[k],
        )
}

/// Plain words are plain arguments.
proof fn lemma_plain_cmd(env: Env, program: Seq<char>, args: Seq<Seq<char>>)
    requires
        forall|k: int| 0 <= k < args.len() ==> plain(#[trigger] args[k]),
    ensures
        forall|k: int|
            0 <= k < args.len() ==> plain(#[trigger] cmd_of(env, program, args).args[k]),
{
    assert forall|k: int| 0 <= k < args.len() implies plain(
        #[trigger] cmd_of(env, program, args).args[k],
    ) by {
        lemma_substituted_plain(env, args[k]);
    }
}

proof fn lemma_hiberfil_arguments(env: Env)
    ensures
        plain_arguments(hiberfil_tool(env)),
{
    lemma_words_are_plain();
    lemma_plain_cmd(env, "powercfg"@, seq!["/a"@]);
    lemma_plain_cmd(env, "powercfg"@, seq!["/h"@, "off"@]);
}

proof fn lemma_windows_old_arguments(env: Env)
    ensures
        plain_arguments(windows_old_tool(env)),
{
    lemma_words_are_plain();
    lemma_plain_cmd(
        env,
        "reg"@,
        seq![
            "add"@,
            "HKLM\\SOFTWARE\\Microsoft\\Windows\\CurrentVersion\\Explorer\\VolumeCaches\\Previous Installations"@,
            "/v"@,
            "StateFlags0071"@,
            "/t"@,
            "REG_DWORD"@,
            "/d"@,
            "2"@,
            "/f"@,
        ],
    );
    lemma_plain_cmd(env, "cleanmgr"@, seq!["/sagerun:71"@]);
    lemma_plain_cmd(
        env,
        "reg"@,
        seq![
            "delete"@,
            "HKLM\\SOFTWARE\\Microsoft\\Windows\\CurrentVersion\\Explorer\\VolumeCaches\\Previous Installations"@,
            "/v"@,
            "StateFlags0071"@,
            "/f"@,
        ],
    );
}

proof fn lemma_do_cache_arguments(env: Env)
    ensures
        plain_arguments(do_cache_tool(env)),
{
    lemma_words_are_plain();
    lemma_plain_cmd(
        env,
        "powershell"@,
        seq![
            "-NoProfile"@,
            "-NonInteractive"@,
            "-Command"@,
            "Delete-DeliveryOptimizationCache -Force"@,
        ],
    );
}

proof fn lemma_disk_cleanup_arguments(env: Env)
    ensures
        plain_arguments(disk_cleanup_tool(env)),
{
    lemma_words_are_plain();
    lemma_plain_cmd(env, "cleanmgr"@, Seq::empty());
}

proof fn lemma_storage_sense_arguments(env: Env)
    ensures
        plain_arguments(storage_sense_tool(env)),
{
    lemma_words_are_plain();
    lemma_plain_cmd(env, "explorer.exe"@, seq!["ms-settings:storagesense"@]);
}

proof fn lemma_winsxs_arguments(env: Env)
    ensures
        plain_arguments(winsxs_tool(env)),
{
    lemma_words_are_plain();
    lemma_plain_cmd(env, "Dism"@, seq!["/Online"@, "/Cleanup-Image"@, "/AnalyzeComponentStore"@]);
    lemma_plain_cmd(env, "Dism"@, seq!["/Online"@, "/Cleanup-Image"@, "/StartComponentCleanup"@]);
}

proof fn lemma_wu_settings_arguments(env: Env)
    ensures
        plain_arguments(wu_settings_tool(env)),
{
    lemma_words_are_plain();
    lemma_plain_cmd(env, "explorer.exe"@, seq!["ms-settings:windowsupdate"@]);
}

proof fn lemma_winget_upgrade_arguments(env: Env, winget: Seq<char>)
    ensures
        plain_arguments(winget_upgrade_tool(env, winget)),
{
    lemma_words_are_plain();
    lemma_plain_cmd(
        env,
        winget,
        seq![
            "upgrade"@,
            "--include-unknown"@,
            "--disable-interactivity"@,
            "--accept-source-agreements"@,
        ],
    );
    lemma_plain_cmd(
        env,
        winget,
        seq![
            "upgrade"@,
            "--all"@,
            "--include-unknown"@,
            "--silent"@,
            "--disable-interactivity"@,
            "--accept-package-agreements"@,
            "--accept-source-agreements"@,
        ],
    );
}

proof fn lemma_winget_search_arguments(env: Env, winget: Seq<char>)
    ensures
        plain_arguments(winget_search_tool(env, winget)),
{
    lemma_words_are_plain();
    lemma_plain_cmd(env, winget, seq!["search"@, "--query"@, "<term>"@]);
    lemma_plain_cmd(env, winget, seq!["install"@, "--id"@, "<term>"@, "--exact"@]);
}

proof fn lemma_sfc_arguments(env: Env)
    ensures
        plain_arguments(sfc_tool(env)),
{
    lemma_words_are_plain();
    lemma_plain_cmd(env, "sfc"@, seq!["/verifyonly"@]);
    lemma_plain_cmd(env, "sfc"@, seq!["/scannow"@]);
}

proof fn lemma_dism_health_arguments(env: Env)
    ensures
        plain_arguments(dism_health_tool(env)),
{
    lemma_words_are_plain();
    lemma_plain_cmd(env, "Dism"@, seq!["/Online"@, "/Cleanup-Image"@, "/CheckHealth"@]);
    lemma_plain_cmd(env, "Dism"@, seq!["/Online"@, "/Cleanup-Image"@, "/RestoreHealth"@]);
}

proof fn lemma_flush_dns_arguments(env: Env)
    ensures
        plain_arguments(flush_dns_tool(env)),
{
    lemma_words_are_plain();
    lemma_plain_cmd(env, "ipconfig"@, seq!["/flushdns"@]);
}

proof fn lemma_winsock_arguments(env: Env)
    ensures
        plain_arguments(winsock_tool(env)),
{
    lemma_words_are_plain();
    lemma_plain_cmd(env, "netsh"@, seq!["winsock"@, "reset"@]);
    lemma_plain_cmd(env, "netsh"@, seq!["int"@, "ip"@, "reset"@]);
}

/// No argument of the catalog holds a placeholder that was not replaced.
pub proof fn law_catalog_arguments_are_expanded(env: Env, winget: Seq<char>, i: int)
    requires
        0 <= i < catalog(env, winget).len(),
    ensures
        plain_arguments(catalog(env, winget)[i]),
{
    lemma_hiberfil_arguments(env);
    lemma_windows_old_arguments(env);
    lemma_do_cache_arguments(env);
    lemma_disk_cleanup_arguments(env);
    lemma_storage_sense_arguments(env);
    lemma_winsxs_arguments(env);
    lemma_wu_settings_arguments(env);
    lemma_winget_upgrade_arguments(env, winget);
    lemma_winget_search_arguments(env, winget);
    lemma_sfc_arguments(env);
    lemma_dism_health_arguments(env);
    lemma_flush_dns_arguments(env);
    lemma_winsock_arguments(env);
}

/// The place of an id in the catalog.
spec fn place(id: Seq<char>) -> int {
    if id == "hiberfil"@ {
        0
    } else if id == "windows_old"@ {
        1
    } else if id == "do_cache"@ {
        2
    } else if id == "disk_cleanup"@ {
        3
    } else if id == "storage_sense"@ {
        4
    } else if id == "winsxs"@ {
        5
    } else if id == "wu_settings"@ {
        6
    } else if id == "winget_upgrade"@ {
        7
    } else if id == "winget_search"@ {
        8
    } else if id == "sfc"@ {
        9
    } else if id == "dism_health"@ {
        10
    } else if id == "flush_dns"@ {
        11
    } else if id == "winsock"@ {
        12
    } else {
        -1
    }
}

proof fn lemma_places()
    ensures
        place("hiberfil"@) == 0,
        place("windows_old"@) == 1,
        place("do_cache"@) == 2,
        place("disk_cleanup"@) == 3,
        place("storage_sense"@) == 4,
        place("winsxs"@) == 5,
        place("wu_settings"@) == 6,
        place("winget_upgrade"@) == 7,
        place("winget_search"@) == 8,
        place("sfc"@) == 9,
        place("dism_health"@) == 10,
        place("flush_dns"@) == 11,
        place("winsock"@) == 12,
{
    reveal_strlit("hiberfil");
    assert("hiberfil"@.len() == 8);
    reveal_strlit("windows_old");
    assert("windows_old"@.len() == 11);
    reveal_strlit("do_cache");
    assert("do_cache"@.len() == 8);
    reveal_strlit("disk_cleanup");
    assert("disk_cleanup"@.len() == 12);
    reveal_strlit("storage_sense");
    assert("storage_sense"@.len() == 13);
    reveal_strlit("winsxs");
    assert("winsxs"@.len() == 6);
    reveal_strlit("wu_settings");
    assert("wu_settings"@.len() == 11);
    reveal_strlit("winget_upgrade");
    assert("winget_upgrade"@.len() == 14);
    reveal_strlit("winget_search");
    assert("winget_search"@.len() == 13);
    reveal_strlit("sfc");
    assert("sfc"@.len() == 3);
    reveal_strlit("dism_health");
    assert("dism_health"@.len() == 11);
    reveal_strlit("flush_dns");
    assert("flush_dns"@.len() == 9);
    reveal_strlit("winsock");
    assert("winsock"@.len() == 7);
    assert("hiberfil"@[0] != "do_cache"@[0]);
    assert("windows_old"@[1] != "wu_settings"@[1]);
    assert("windows_old"@[0] != "dism_health"@[0]);
    assert("wu_settings"@[0] != "dism_health"@[0]);
    assert("storage_sense"@[0] != "winget_search"@[0]);
}

/// No two tools have the same id.
pub proof fn law_tool_ids_are_unique(env: Env, winget: Seq<char>, i: int, j: int)
    requires
        0 <= i < j < catalog(env, winget).len(),
    ensures
        catalog(env, winget)[i].id != catalog(env, winget)[j].id,
{
    lemma_places();
    assert(place(catalog(env, winget)[i].id) == i);
    assert(place(catalog(env, winget)[j].id) == j);
}

/// Every tool has a check, an action or something to open, and a tool that
/// takes text has both a check and an action.
pub proof fn law_every_tool_does_something(env: Env, winget: Seq<char>, i: int)
    requires
        0 <= i < catalog(env, winget).len(),
    ensures
        ({
            let t = catalog(env, winget)[i];
            &&& commands(t).len() > 0
            &&& t.input is WingetTerm ==> t.check.len() > 0 && t.action.len() > 0
        }),
{
}

/// The tools that change the system are marked as needing an administrator, so
/// that they can be held back.
pub open spec fn changes_system(id: Seq<char>) -> bool {
    id == "winsxs"@ || id == "sfc"@ || id == "dism_health"@ || id == "winsock"@ || id
        == "hiberfil"@ || id == "windows_old"@ || id == "do_cache"@
}

/// A tool that changes the system needs an administrator; of the tools of the
/// catalog only the network reset asks for a reboot.
pub proof fn law_system_tools_need_admin(env: Env, winget: Seq<char>, i: int)
    requires
        0 <= i < catalog(env, winget).len(),
    ensures
        catalog(env, winget)[i].needs_admin <==> changes_system(catalog(env, winget)[i].id),
        catalog(env, winget)[i].reboot <==> catalog(env, winget)[i].id == "winsock"@,
{
    lemma_places();
    assert(place(catalog(env, winget)[i].id) == i);
}

proof fn lemma_cmd_as_written(env: Env, program: Seq<char>, args: Seq<Seq<char>>)
    requires
        plain(program),
        forall|k: int| 0 <= k < args.len() ==> plain(#[trigger] args[k]),
    ensures
        cmd_of(env, program, args) == (CmdView { program, args }),
{
    lemma_substituted_plain(env, program);
    let c = cmd_of(env, program, args);
    assert forall|k: int| 0 <= k < args.len() implies #[trigger] c.args[k] == args[k] by {
        lemma_substituted_plain(env, args[k]);
    }
    assert(c.args =~= args);
}

/// What the repair and maintenance tools run, word by word, whatever the
/// environment holds: a check looks and changes nothing, and the action makes the
/// change that the tool is named after.
pub proof fn law_repair_tools_run_these_commands(env: Env, winget: Seq<char>, i: int)
    requires
        0 <= i < catalog(env, winget).len(),
    ensures
        ({
            let t = catalog(env, winget)[i];
            &&& t.id == "sfc"@ ==> {
                &&& t.check == seq![CmdView { program: "sfc"@, args: seq!["/verifyonly"@] }]
                &&& t.action == seq![CmdView { program: "sfc"@, args: seq!["/scannow"@] }]
            }
            &&& t.id == "dism_health"@ ==> {
                &&& t.check == seq![
                    CmdView {
                        program: "Dism"@,
                        args: seq!["/Online"@, "/Cleanup-Image"@, "/CheckHealth"@],
                    },
                ]
                &&& t.action == seq![
                    CmdView {
                        program: "Dism"@,
                        args: seq!["/Online"@, "/Cleanup-Image"@, "/RestoreHealth"@],
                    },
                ]
            }
            &&& t.id == "winsxs"@ ==> {
                &&& t.check == seq![
                    CmdView {
                        program: "Dism"@,
                        args: seq!["/Online"@, "/Cleanup-Image"@, "/AnalyzeComponentStore"@],
                    },
                ]
                &&& t.action == seq![
                    CmdView {
                        program: "Dism"@,
                        args: seq!["/Online"@, "/Cleanup-Image"@, "/StartComponentCleanup"@],
                    },
                ]
            }
            &&& t.id == "hiberfil"@ ==> {
                &&& t.check == seq![CmdView { program: "powercfg"@, args: seq!["/a"@] }]
                &&& t.action == seq![CmdView { program: "powercfg"@, args: seq!["/h"@, "off"@] }]
            }
            &&& t.id == "flush_dns"@ ==> {
                &&& t.check.len() == 0
                &&& t.action == seq![CmdView { program: "ipconfig"@, args: seq!["/flushdns"@] }]
            }
            &&& t.id == "winsock"@ ==> {
                &&& t.check.len() == 0
                &&& t.action == seq![
                    CmdView { program: "netsh"@, args: seq!["winsock"@, "reset"@] },
                    CmdView { program: "netsh"@, args: seq!["int"@, "ip"@, "reset"@] },
                ]
            }
        }),
{
    lemma_words_are_plain();
    lemma_places();
    assert(place(catalog(env, winget)[i].id) == i);
    lemma_cmd_as_written(env, "sfc"@, seq!["/verifyonly"@]);
    lemma_cmd_as_written(env, "sfc"@, seq!["/scannow"@]);
    lemma_cmd_as_written(env, "Dism"@, seq!["/Online"@, "/Cleanup-Image"@, "/CheckHealth"@]);
    lemma_cmd_as_written(env, "Dism"@, seq!["/Online"@, "/Cleanup-Image"@, "/RestoreHealth"@]);
    lemma_cmd_as_written(
        env,
        "Dism"@,
        seq!["/Online"@, "/Cleanup-Image"@, "/AnalyzeComponentStore"@],
    );
    lemma_cmd_as_written(
        env,
        "Dism"@,
        seq!["/Online"@, "/Cleanup-Image"@, "/StartComponentCleanup"@],
    );
    lemma_cmd_as_written(env, "powercfg"@, seq!["/a"@]);
    lemma_cmd_as_written(env, "powercfg"@, seq!["/h"@, "off"@]);
    lemma_cmd_as_written(env, "ipconfig"@, seq!["/flushdns"@]);
    lemma_cmd_as_written(env, "netsh"@, seq!["winsock"@, "reset"@]);
    lemma_cmd_as_written(env, "netsh"@, seq!["int"@, "ip"@, "reset"@]);
}

/// The same for the tools that free storage. What Windows keeps of an earlier
/// version is marked, cleaned up, and the mark is taken back.
pub proof fn law_storage_tools_run_these_commands(env: Env, winget: Seq<char>, i: int)
    requires
        0 <= i < catalog(env, winget).len(),
    ensures
        ({
            let t = catalog(env, winget)[i];
            let key =
                "HKLM\\SOFTWARE\\Microsoft\\Windows\\CurrentVersion\\Explorer\\VolumeCaches\\Previous Installations"@;
            &&& t.id == "windows_old"@ ==> {
                &&& t.check.len() == 0
                &&& t.action == seq![
                    CmdView {
                        program: "reg"@,
                        args: seq![
                            "add"@,
                            key,
                            "/v"@,
                            "StateFlags0071"@,
                            "/t"@,
                            "REG_DWORD"@,
                            "/d"@,
                            "2"@,
                            "/f"@,
                        ],
                    },
                    CmdView { program: "cleanmgr"@, args: seq!["/sagerun:71"@] },
                    CmdView {
                        program: "reg"@,
                        args: seq!["delete"@, key, "/v"@, "StateFlags0071"@, "/f"@],
                    },
                ]
            }
            &&& t.id == "do_cache"@ ==> {
                &&& t.check.len() == 0
                &&& t.action == seq![
                    CmdView {
                        program: "powershell"@,
                        args: seq![
                            "-NoProfile"@,
                            "-NonInteractive"@,
                            "-Command"@,
                            "Delete-DeliveryOptimizationCache -Force"@,
                        ],
                    },
                ]
            }
            &&& t.id == "disk_cleanup"@ ==> t.check.len() == 0 && t.action.len() == 0 && t.open
                == Some(CmdView { program: "cleanmgr"@, args: Seq::empty() })
            &&& t.id == "storage_sense"@ ==> t.check.len() == 0 && t.action.len() == 0 && t.open
                == Some(
                CmdView { program: "explorer.exe"@, args: seq!["ms-settings:storagesense"@] },
            )
            &&& t.id == "wu_settings"@ ==> t.check.len() == 0 && t.action.len() == 0 && t.open
                == Some(
                CmdView { program: "explorer.exe"@, args: seq!["ms-settings:windowsupdate"@] },
            )
        }),
{
    lemma_words_are_plain();
    lemma_places();
    assert(place(catalog(env, winget)[i].id) == i);
    lemma_windows_old_as_written(env);
    lemma_cmd_as_written(
        env,
        "powershell"@,
        seq![
            "-NoProfile"@,
            "-NonInteractive"@,
            "-Command"@,
            "Delete-DeliveryOptimizationCache -Force"@,
        ],
    );
    lemma_cmd_as_written(env, "cleanmgr"@, Seq::empty());
    lemma_cmd_as_written(env, "explorer.exe"@, seq!["ms-settings:storagesense"@]);
    lemma_cmd_as_written(env, "explorer.exe"@, seq!["ms-settings:windowsupdate"@]);
}

proof fn lemma_windows_old_as_written(env: Env)
    ensures
        ({
            let key =
                "HKLM\\SOFTWARE\\Microsoft\\Windows\\CurrentVersion\\Explorer\\VolumeCaches\\Previous Installations"@;
            windows_old_tool(env).action == seq![
                CmdView {
                    program: "reg"@,
                    args: seq![
                        "add"@,
                        key,
                        "/v"@,
                        "StateFlags0071"@,
                        "/t"@,
                        "REG_DWORD"@,
                        "/d"@,
                        "2"@,
                        "/f"@,
                    ],
                },
                CmdView { program: "cleanmgr"@, args: seq!["/sagerun:71"@] },
                CmdView {
                    program: "reg"@,
                    args: seq!["delete"@, key, "/v"@, "StateFlags0071"@, "/f"@],
                },
            ]
        }),
{
    let key =
        "HKLM\\SOFTWARE\\Microsoft\\Windows\\CurrentVersion\\Explorer\\VolumeCaches\\Previous Installations"@;
    lemma_words_are_plain();
    lemma_cmd_as_written(
        env,
        "reg"@,
        seq!["add"@, key, "/v"@, "StateFlags0071"@, "/t"@, "REG_DWORD"@, "/d"@, "2"@, "/f"@],
    );
    lemma_cmd_as_written(env, "cleanmgr"@, seq!["/sagerun:71"@]);
    lemma_cmd_as_written(env, "reg"@, seq!["delete"@, key, "/v"@, "StateFlags0071"@, "/f"@]);
}

/// Listing upgrades only lists; upgrading takes all, asks nothing and accepts what
/// has to be accepted. A search looks for the term, and an install takes the
/// package with exactly that id.
pub proof fn law_winget_runs_these_commands(
    env: Env,
    winget: Seq<char>,
    term: Seq<char>,
    i: int,
)
    requires
        0 <= i < catalog(env, winget).len(),
        catalog(env, winget)[i].id == "winget_upgrade"@,
    ensures
        ({
            let t = catalog(env, winget)[i];
            &&& t.check.len() == 1
            &&& t.check[0].args == seq![
                "upgrade"@,
                "--include-unknown"@,
                "--disable-interactivity"@,
                "--accept-source-agreements"@,
            ]
            &&& t.action.len() == 1
            &&& t.action[0].args == seq![
                "upgrade"@,
                "--all"@,
                "--include-unknown"@,
                "--silent"@,
                "--disable-interactivity"@,
                "--accept-package-agreements"@,
                "--accept-source-agreements"@,
            ]
        }),
        term_commands(Mode::Check, env, winget, term).len() == 1,
        term_commands(Mode::Check, env, winget, term)[0].args == seq![
            "search"@,
            "--query"@,
            term,
            "--disable-interactivity"@,
            "--accept-source-agreements"@,
        ],
        term_commands(Mode::Action, env, winget, term).len() == 1,
        term_commands(Mode::Action, env, winget, term)[0].args == seq![
            "install"@,
            "--id"@,
            term,
            "--exact"@,
            "--disable-interactivity"@,
            "--accept-package-agreements"@,
            "--accept-source-agreements"@,
        ],
        term_commands(Mode::Open, env, winget, term).len() == 0,
{
    lemma_words_are_plain();
    lemma_places();
    assert(place(catalog(env, winget)[i].id) == i);
    lemma_args_as_written(
        env,
        winget,
        seq![
            "upgrade"@,
            "--include-unknown"@,
            "--disable-interactivity"@,
            "--accept-source-agreements"@,
        ],
    );
    lemma_args_as_written(
        env,
        winget,
        seq![
            "upgrade"@,
            "--all"@,
            "--include-unknown"@,
            "--silent"@,
            "--disable-interactivity"@,
            "--accept-package-agreements"@,
            "--accept-source-agreements"@,
        ],
    );
    lemma_args_as_written(env, winget, seq!["search"@, "--query"@]);
    lemma_args_as_written(
        env,
        winget,
        seq!["--disable-interactivity"@, "--accept-source-agreements"@],
    );
    lemma_args_as_written(env, winget, seq!["install"@, "--id"@]);
    lemma_args_as_written(
        env,
        winget,
        seq![
            "--exact"@,
            "--disable-interactivity"@,
            "--accept-package-agreements"@,
            "--accept-source-agreements"@,
        ],
    );
    assert(term_commands(Mode::Check, env, winget, term)[0].args =~= seq![
        "search"@,
        "--query"@,
        term,
        "--disable-interactivity"@,
        "--accept-source-agreements"@,
    ]);
    assert(term_commands(Mode::Action, env, winget, term)[0].args =~= seq![
        "install"@,
        "--id"@,
        term,
        "--exact"@,
        "--disable-interactivity"@,
        "--accept-package-agreements"@,
        "--accept-source-agreements"@,
    ]);
}

proof fn lemma_args_as_written(env: Env, program: Seq<char>, args: Seq<Seq<char>>)
    requires
        forall|k: int| 0 <= k < args.len() ==> plain(#[trigger] args[k]),
    ensures
        cmd_of(env, program, args).args == args,
{
    let c = cmd_of(env, program, args);
    assert forall|k: int| 0 <= k < args.len() implies #[trigger] c.args[k] == args[k] by {
        lemma_substituted_plain(env, args[k]);
    }
    assert(c.args =~= args);
}

/// Each tool is available where what it works on is there: an earlier Windows, a
/// hibernation file, winget; the others always are.
pub proof fn law_tools_need_what_they_work_on(id: Seq<char>, here: Presence)
    ensures
        reason(id, here) is None <==> {
            &&& id == "windows_old"@ ==> here.windows_old
            &&& id == "hiberfil"@ ==> here.hiberfil
            &&& id == "winget_upgrade"@ ==> here.winget
            &&& id == "winget_search"@ ==> here.winget
        },
{
    lemma_places();
}

/// A tool is found by its id, whatever its place in the catalog; away from Windows
/// there are no tools.
pub proof fn law_tools_are_found_by_id(env: Env, winget: Option<Seq<char>>, i: int)
    requires
        0 <= i < catalog(env, winget_program(winget)).len(),
    ensures
        first_with_id(
            platform_tools(Platform::Windows, env, winget),
            catalog(env, winget_program(winget))[i].id,
        ) == Some(catalog(env, winget_program(winget))[i]),
        platform_tools(Platform::MacOs, env, winget).len() == 0,
        platform_tools(Platform::Other, env, winget).len() == 0,
        catalog(env, winget_program(winget)).len() == 13,
{
    let v = catalog(env, winget_program(winget));
    assert forall|a: int, b: int| 0 <= a < b < v.len() implies (#[trigger] v[a]).id != (
    #[trigger] v[b]).id by {
        law_tool_ids_are_unique(env, winget_program(winget), a, b);
    }
    lemma_first_with_id(v, i);
}

proof fn lemma_first_with_id(v: Seq<ToolView>, i: int)
    requires
        0 <= i < v.len(),
        forall|a: int, b: int|
            0 <= a < b < v.len() ==> (#[trigger] v[a]).id != (#[trigger] v[b]).id,
    ensures
        first_with_id(v, v[i].id) == Some(v[i]),
    decreases i,
{
    if i > 0 {
        assert(v[0].id != v[i].id);
        let w = v.skip(1);
        assert forall|a: int, b: int| 0 <= a < b < w.len() implies (#[trigger] w[a]).id != (
        #[trigger] w[b]).id by {
            assert(w[a] == v[a + 1] && w[b] == v[b + 1]);
        }
        lemma_first_with_id(w, i - 1);
        assert(w[i - 1] == v[i]);
    }
}

/// Of the places on the path the first with the program in it counts; where none
/// has it, none does.
pub proof fn law_the_first_file_on_the_path_counts(v: Seq<Candidate>, from: int, i: int)
    requires
        0 <= from,
    ensures
        from <= i < v.len() && v[i].is_file && (forall|k: int|
            from <= k < i ==> !(#[trigger] v[k]).is_file) ==> first_file(v, from) == Some(
            v[i].path@,
        ),
        (forall|k: int| from <= k < v.len() ==> !(#[trigger] v[k]).is_file) ==> first_file(
            v,
            from,
        ) is None,
    decreases v.len() - from,
{
    if from < v.len() && !v[from].is_file {
        law_the_first_file_on_the_path_counts(v, from + 1, i);
    }
}

} // verus!
