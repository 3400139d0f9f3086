//! The catalog of maintenance tools.
use crate::env::{all_names, variables_in_all, Env};
use crate::text::{copy, same, views};
use crate::toolbox::{
    cmd_of, cmds, expand_env, strs, substituted, tools_view, Category, Cmd, CmdView, Input, Mode,
    Probe, ProbeView, Tool, ToolView,
};
use crate::types::Platform;
use vstd::prelude::*;

verus! {

pub const HIBERFIL_BLURB: &'static str =
    "hiberfil.sys is reserved for hibernation and Fast Startup, typically 40% of RAM. Turning hibernation off deletes it (Fast Startup is disabled too); `powercfg /h on` brings it back.";

pub const WINDOWS_OLD_BLURB: &'static str =
    "Windows.old is kept for 10 days after a feature update so you can roll back. Removing it goes through Windows' own Disk Cleanup handler (the same thing Storage Sense does) - rollback is no longer possible afterwards.";

pub const DO_CACHE_BLURB: &'static str =
    "Windows keeps downloaded update and Store packages to share with other PCs. The cache is safe to drop; Windows re-downloads what it needs.";

pub const DISK_CLEANUP_BLURB: &'static str =
    "Opens the classic Disk Cleanup tool. When Clean Master runs as administrator it can also clean system files (old updates, error reports).";

pub const STORAGE_SENSE_BLURB: &'static str =
    "Opens Settings > System > Storage, where Storage Sense schedules automatic cleanup of temporary files and the Recycle Bin.";

pub const WINSXS_BLURB: &'static str =
    "Superseded update components pile up in C:\\Windows\\WinSxS - often several GB. Analyze reports the real size and whether cleanup is recommended; Clean up removes superseded versions (Microsoft-supported, no rollback of installed updates).";

pub const WU_SETTINGS_BLURB: &'static str =
    "Opens Settings > Windows Update to check for, pause or install updates. The update download cache itself is covered by the Junk Clean rule pack.";

pub const WINGET_UPGRADE_BLURB: &'static str =
    "Lists installed apps with a newer version in the winget catalog, and upgrades them all in one go. Apps that need it will show a UAC prompt.";

pub const WINGET_SEARCH_BLURB: &'static str =
    "Search the winget catalog by name, then install by the exact package id shown in the results (for example Mozilla.Firefox). Uninstalling lives in App Manager.";

pub const SFC_BLURB: &'static str =
    "Verifies protected Windows files against the component store and repairs corrupted ones. Takes 5-20 minutes.";

pub const DISM_HEALTH_BLURB: &'static str =
    "CheckHealth reads the recorded corruption flags in seconds; RestoreHealth repairs the component store from Windows Update (needs internet, 10-30 minutes). Run this before System File Checker when sfc cannot repair.";

pub const FLUSH_DNS_BLURB: &'static str =
    "Drops cached name lookups so stale or wrong DNS answers stop being used. Instant and harmless.";

pub const WINSOCK_BLURB: &'static str =
    "Resets Winsock and the TCP/IP stack to defaults - the standard fix for 'connected but no internet' after VPN or security software changes. Requires a reboot; VPN clients may need reinstalling.";

/// Hibernation file.
pub open spec fn hiberfil_tool(env: Env) -> ToolView {
    ToolView {
        needs_admin: true,
        check: seq![cmd_of(env, "powercfg"@, seq!["/a"@])],
        check_label: "Show sleep states"@,
        action: seq![cmd_of(env, "powercfg"@, seq!["/h"@, "off"@])],
        action_label: "Turn hibernation off"@,
        probe: ProbeView::File(substituted(env, "%SystemDrive%\\hiberfil.sys"@)),
        ..Tool::blank("hiberfil"@, Category::Storage, "Hibernation file"@, HIBERFIL_BLURB@)
    }
}

fn make_hiberfil(env: &Env) -> (r: Tool)
    ensures
        r@ == hiberfil_tool(*env),
{
    let mut t: Tool = Tool::base("hiberfil", Category::Storage, "Hibernation file", HIBERFIL_BLURB);
    t.needs_admin = true;
    t.check = vec![Cmd::new(env, "powercfg", &["/a"])];
    t.check_label = "Show sleep states";
    t.action = vec![Cmd::new(env, "powercfg", &["/h", "off"])];
    t.action_label = "Turn hibernation off";
    t.probe = Probe::File(expand_env(env, "%SystemDrive%\\hiberfil.sys"));
    assert(t@ =~~= hiberfil_tool(*env));
    t
}

/// Previous Windows installation.
pub open spec fn windows_old_tool(env: Env) -> ToolView {
    ToolView {
        needs_admin: true,
        action: seq![
            cmd_of(
                env,
                "reg"@,
                seq![
                    "add"@,
                    "HKLM\\SOFTWARE\\Microsoft\\Windows\\CurrentVersion\\Explorer\\VolumeCaches\\Previous Installations"@,
                    "/v"@,
                    "StateFlags0071"@,
                    "/t"@,
                    "REG_DWORD"@,
                    "/d"@,
                    "2"@,
                    "/f"@,
                ],
            ),
            cmd_of(env, "cleanmgr"@, seq!["/sagerun:71"@]),
            cmd_of(
                env,
                "reg"@,
                seq![
                    "delete"@,
                    "HKLM\\SOFTWARE\\Microsoft\\Windows\\CurrentVersion\\Explorer\\VolumeCaches\\Previous Installations"@,
                    "/v"@,
                    "StateFlags0071"@,
                    "/f"@,
                ],
            ),
        ],
        action_label: "Remove Windows.old"@,
        probe: ProbeView::Dirs(seq![substituted(env, "%SystemDrive%\\Windows.old"@)]),
        ..Tool::blank(
            "windows_old"@,
            Category::Storage,
            "Previous Windows installation"@,
            WINDOWS_OLD_BLURB@,
        )
    }
}

fn make_windows_old(env: &Env) -> (r: Tool)
    ensures
        r@ == windows_old_tool(*env),
{
    let mut t: Tool = Tool::base(
        "windows_old",
        Category::Storage,
        "Previous Windows installation",
        WINDOWS_OLD_BLURB,
    );
    t.needs_admin = true;
    t.action = vec![
        Cmd::new(
            env,
            "reg",
            &[
                "add",
                "HKLM\\SOFTWARE\\Microsoft\\Windows\\CurrentVersion\\Explorer\\VolumeCaches\\Previous Installations",
                "/v",
                "StateFlags0071",
                "/t",
                "REG_DWORD",
                "/d",
                "2",
                "/f",
            ],
        ),
        Cmd::new(env, "cleanmgr", &["/sagerun:71"]),
        Cmd::new(
            env,
            "reg",
            &[
                "delete",
                "HKLM\\SOFTWARE\\Microsoft\\Windows\\CurrentVersion\\Explorer\\VolumeCaches\\Previous Installations",
                "/v",
                "StateFlags0071",
                "/f",
            ],
        ),
    ];
    t.action_label = "Remove Windows.old";
    t.probe = Probe::Dirs(vec![expand_env(env, "%SystemDrive%\\Windows.old")]);
    assert(t@ =~~= windows_old_tool(*env));
    t
}

/// Delivery Optimization cache.
pub open spec fn do_cache_tool(env: Env) -> ToolView {
    ToolView {
        needs_admin: true,
        action: seq![
            cmd_of(
                env,
                "powershell"@,
                seq![
                    "-NoProfile"@,
                    "-NonInteractive"@,
                    "-Command"@,
                    "Delete-DeliveryOptimizationCache -Force"@,
                ],
            ),
        ],
        action_label: "Clear cache"@,
        probe: ProbeView::Dirs(
            seq![
                substituted(env, "%WINDIR%\\SoftwareDistribution\\DeliveryOptimization"@),
                substituted(
                    env,
                    "%WINDIR%\\ServiceProfiles\\NetworkService\\AppData\\Local\\Microsoft\\Windows\\DeliveryOptimization\\Cache"@,
                ),
            ],
        ),
        ..Tool::blank(
            "do_cache"@,
            Category::Storage,
            "Delivery Optimization cache"@,
            DO_CACHE_BLURB@,
        )
    }
}

fn make_do_cache(env: &Env) -> (r: Tool)
    ensures
        r@ == do_cache_tool(*env),
{
    let mut t: Tool = Tool::base(
        "do_cache",
        Category::Storage,
        "Delivery Optimization cache",
        DO_CACHE_BLURB,
    );
    t.needs_admin = true;
    t.action = vec![
        Cmd::new(
            env,
            "powershell",
            &[
                "-NoProfile",
                "-NonInteractive",
                "-Command",
                "Delete-DeliveryOptimizationCache -Force",
            ],
        ),
    ];
    t.action_label = "Clear cache";
    t.probe = Probe::Dirs(
        vec![
            expand_env(env, "%WINDIR%\\SoftwareDistribution\\DeliveryOptimization"),
            expand_env(
                env,
                "%WINDIR%\\ServiceProfiles\\NetworkService\\AppData\\Local\\Microsoft\\Windows\\DeliveryOptimization\\Cache",
            ),
        ],
    );
    assert(t@ =~~= do_cache_tool(*env));
    t
}

/// Disk Cleanup (Windows built-in).
pub open spec fn disk_cleanup_tool(env: Env) -> ToolView {
    ToolView {
        open: Some(cmd_of(env, "cleanmgr"@, Seq::empty())),
        ..Tool::blank(
            "disk_cleanup"@,
            Category::Storage,
            "Disk Cleanup (Windows built-in)"@,
            DISK_CLEANUP_BLURB@,
        )
    }
}

fn make_disk_cleanup(env: &Env) -> (r: Tool)
    ensures
        r@ == disk_cleanup_tool(*env),
{
    let mut t: Tool = Tool::base(
        "disk_cleanup",
        Category::Storage,
        "Disk Cleanup (Windows built-in)",
        DISK_CLEANUP_BLURB,
    );
    t.open = Some(Cmd::new(env, "cleanmgr", &[]));
    assert(t@ =~~= disk_cleanup_tool(*env));
    t
}

/// Storage settings.
pub open spec fn storage_sense_tool(env: Env) -> ToolView {
    ToolView {
        open: Some(cmd_of(env, "explorer.exe"@, seq!["ms-settings:storagesense"@])),
        ..Tool::blank(
            "storage_sense"@,
            Category::Storage,
            "Storage settings"@,
            STORAGE_SENSE_BLURB@,
        )
    }
}

fn make_storage_sense(env: &Env) -> (r: Tool)
    ensures
        r@ == storage_sense_tool(*env),
{
    let mut t: Tool = Tool::base(
        "storage_sense",
        Category::Storage,
        "Storage settings",
        STORAGE_SENSE_BLURB,
    );
    t.open = Some(Cmd::new(env, "explorer.exe", &["ms-settings:storagesense"]));
    assert(t@ =~~= storage_sense_tool(*env));
    t
}

/// Component store (WinSxS).
pub open spec fn winsxs_tool(env: Env) -> ToolView {
    ToolView {
        needs_admin: true,
        long_running: true,
        check: seq![
            cmd_of(env, "Dism"@, seq!["/Online"@, "/Cleanup-Image"@, "/AnalyzeComponentStore"@]),
        ],
        check_label: "Analyze"@,
        action: seq![
            cmd_of(env, "Dism"@, seq!["/Online"@, "/Cleanup-Image"@, "/StartComponentCleanup"@]),
        ],
        action_label: "Clean up"@,
        ..Tool::blank("winsxs"@, Category::Updates, "Component store (WinSxS)"@, WINSXS_BLURB@)
    }
}

fn make_winsxs(env: &Env) -> (r: Tool)
    ensures
        r@ == winsxs_tool(*env),
{
    let mut t: Tool = Tool::base(
        "winsxs",
        Category::Updates,
        "Component store (WinSxS)",
        WINSXS_BLURB,
    );
    t.needs_admin = true;
    t.long_running = true;
    t.check = vec![Cmd::new(env, "Dism", &["/Online", "/Cleanup-Image", "/AnalyzeComponentStore"])];
    t.check_label = "Analyze";
    t.action = vec![
        Cmd::new(env, "Dism", &["/Online", "/Cleanup-Image", "/StartComponentCleanup"]),
    ];
    t.action_label = "Clean up";
    assert(t@ =~~= winsxs_tool(*env));
    t
}

/// Windows Update.
pub open spec fn wu_settings_tool(env: Env) -> ToolView {
    ToolView {
        open: Some(cmd_of(env, "explorer.exe"@, seq!["ms-settings:windowsupdate"@])),
        ..Tool::blank("wu_settings"@, Category::Updates, "Windows Update"@, WU_SETTINGS_BLURB@)
    }
}

fn make_wu_settings(env: &Env) -> (r: Tool)
    ensures
        r@ == wu_settings_tool(*env),
{
    let mut t: Tool = Tool::base(
        "wu_settings",
        Category::Updates,
        "Windows Update",
        WU_SETTINGS_BLURB,
    );
    t.open = Some(Cmd::new(env, "explorer.exe", &["ms-settings:windowsupdate"]));
    assert(t@ =~~= wu_settings_tool(*env));
    t
}

/// App upgrades (winget).
pub open spec fn winget_upgrade_tool(env: Env, winget: Seq<char>) -> ToolView {
    ToolView {
        long_running: true,
        check: seq![
            cmd_of(
                env,
                winget,
                seq![
                    "upgrade"@,
                    "--include-unknown"@,
                    "--disable-interactivity"@,
                    "--accept-source-agreements"@,
                ],
            ),
        ],
        check_label: "List upgrades"@,
        action: seq![
            cmd_of(
                env,
                winget,
                seq![
                    "upgrade"@,
                    "--all"@,
                    "--include-unknown"@,
                    "--silent"@,
                    "--disable-interactivity"@,
                    "--accept-package-agreements"@,
                    "--accept-source-agreements"@,
                ],
            ),
        ],
        action_label: "Upgrade all"@,
        ..Tool::blank(
            "winget_upgrade"@,
            Category::Software,
            "App upgrades (winget)"@,
            WINGET_UPGRADE_BLURB@,
        )
    }
}

fn make_winget_upgrade(env: &Env, winget: &str) -> (r: Tool)
    ensures
        r@ == winget_upgrade_tool(*env, winget@),
{
    let mut t: Tool = Tool::base(
        "winget_upgrade",
        Category::Software,
        "App upgrades (winget)",
        WINGET_UPGRADE_BLURB,
    );
    t.long_running = true;
    t.check = vec![
        Cmd::new(
            env,
            winget,
            &[
                "upgrade",
                "--include-unknown",
                "--disable-interactivity",
                "--accept-source-agreements",
            ],
        ),
    ];
    t.check_label = "List upgrades";
    t.action = vec![
        Cmd::new(
            env,
            winget,
            &[
                "upgrade",
                "--all",
                "--include-unknown",
                "--silent",
                "--disable-interactivity",
                "--accept-package-agreements",
                "--accept-source-agreements",
            ],
        ),
    ];
    t.action_label = "Upgrade all";
    assert(t@ =~~= winget_upgrade_tool(*env, winget@));
    t
}

/// Find & install (winget).
pub open spec fn winget_search_tool(env: Env, winget: Seq<char>) -> ToolView {
    ToolView {
        long_running: true,
        check: seq![cmd_of(env, winget, seq!["search"@, "--query"@, "<term>"@])],
        check_label: "Search"@,
        action: seq![cmd_of(env, winget, seq!["install"@, "--id"@, "<term>"@, "--exact"@])],
        action_label: "Install"@,
        input: Input::WingetTerm,
        ..Tool::blank(
            "winget_search"@,
            Category::Software,
            "Find & install (winget)"@,
            WINGET_SEARCH_BLURB@,
        )
    }
}

fn make_winget_search(env: &Env, winget: &str) -> (r: Tool)
    ensures
        r@ == winget_search_tool(*env, winget@),
{
    let mut t: Tool = Tool::base(
        "winget_search",
        Category::Software,
        "Find & install (winget)",
        WINGET_SEARCH_BLURB,
    );
    t.long_running = true;
    t.input = Input::WingetTerm;
    t.check = vec![Cmd::new(env, winget, &["search", "--query", "<term>"])];
    t.check_label = "Search";
    t.action = vec![Cmd::new(env, winget, &["install", "--id", "<term>", "--exact"])];
    t.action_label = "Install";
    assert(t@ =~~= winget_search_tool(*env, winget@));
    t
}

/// System File Checker.
pub open spec fn sfc_tool(env: Env) -> ToolView {
    ToolView {
        needs_admin: true,
        long_running: true,
        check: seq![cmd_of(env, "sfc"@, seq!["/verifyonly"@])],
        check_label: "Verify only"@,
        action: seq![cmd_of(env, "sfc"@, seq!["/scannow"@])],
        action_label: "Scan and repair"@,
        ..Tool::blank("sfc"@, Category::Repair, "System File Checker"@, SFC_BLURB@)
    }
}

fn make_sfc(env: &Env) -> (r: Tool)
    ensures
        r@ == sfc_tool(*env),
{
    let mut t: Tool = Tool::base("sfc", Category::Repair, "System File Checker", SFC_BLURB);
    t.needs_admin = true;
    t.long_running = true;
    t.check = vec![Cmd::new(env, "sfc", &["/verifyonly"])];
    t.check_label = "Verify only";
    t.action = vec![Cmd::new(env, "sfc", &["/scannow"])];
    t.action_label = "Scan and repair";
    assert(t@ =~~= sfc_tool(*env));
    t
}

/// Windows image health (DISM).
pub open spec fn dism_health_tool(env: Env) -> ToolView {
    ToolView {
        needs_admin: true,
        long_running: true,
        check: seq![cmd_of(env, "Dism"@, seq!["/Online"@, "/Cleanup-Image"@, "/CheckHealth"@])],
        check_label: "Check health"@,
        action: seq![cmd_of(env, "Dism"@, seq!["/Online"@, "/Cleanup-Image"@, "/RestoreHealth"@])],
        action_label: "Restore health"@,
        ..Tool::blank(
            "dism_health"@,
            Category::Repair,
            "Windows image health (DISM)"@,
            DISM_HEALTH_BLURB@,
        )
    }
}

fn make_dism_health(env: &Env) -> (r: Tool)
    ensures
        r@ == dism_health_tool(*env),
{
    let mut t: Tool = Tool::base(
        "dism_health",
        Category::Repair,
        "Windows image health (DISM)",
        DISM_HEALTH_BLURB,
    );
    t.needs_admin = true;
    t.long_running = true;
    t.check = vec![Cmd::new(env, "Dism", &["/Online", "/Cleanup-Image", "/CheckHealth"])];
    t.check_label = "Check health";
    t.action = vec![Cmd::new(env, "Dism", &["/Online", "/Cleanup-Image", "/RestoreHealth"])];
    t.action_label = "Restore health";
    assert(t@ =~~= dism_health_tool(*env));
    t
}

/// Flush DNS cache.
pub open spec fn flush_dns_tool(env: Env) -> ToolView {
    ToolView {
        action: seq![cmd_of(env, "ipconfig"@, seq!["/flushdns"@])],
        action_label: "Flush"@,
        ..Tool::blank("flush_dns"@, Category::Repair, "Flush DNS cache"@, FLUSH_DNS_BLURB@)
    }
}

fn make_flush_dns(env: &Env) -> (r: Tool)
    ensures
        r@ == flush_dns_tool(*env),
{
    let mut t: Tool = Tool::base("flush_dns", Category::Repair, "Flush DNS cache", FLUSH_DNS_BLURB);
    t.action = vec![Cmd::new(env, "ipconfig", &["/flushdns"])];
    t.action_label = "Flush";
    assert(t@ =~~= flush_dns_tool(*env));
    t
}

/// Reset network stack.
pub open spec fn winsock_tool(env: Env) -> ToolView {
    ToolView {
        needs_admin: true,
        reboot: true,
        action: seq![
            cmd_of(env, "netsh"@, seq!["winsock"@, "reset"@]),
            cmd_of(env, "netsh"@, seq!["int"@, "ip"@, "reset"@]),
        ],
        action_label: "Reset"@,
        ..Tool::blank("winsock"@, Category::Repair, "Reset network stack"@, WINSOCK_BLURB@)
    }
}

fn make_winsock(env: &Env) -> (r: Tool)
    ensures
        r@ == winsock_tool(*env),
{
    let mut t: Tool = Tool::base("winsock", Category::Repair, "Reset network stack", WINSOCK_BLURB);
    t.needs_admin = true;
    t.reboot = true;
    t.action = vec![
        Cmd::new(env, "netsh", &["winsock", "reset"]),
        Cmd::new(env, "netsh", &["int", "ip", "reset"]),
    ];
    t.action_label = "Reset";
    assert(t@ =~~= winsock_tool(*env));
    t
}

/// The whole catalog, with the given winget program.
pub open spec fn catalog(env: Env, winget: Seq<char>) -> Seq<ToolView> {
    seq![
        hiberfil_tool(env),
        windows_old_tool(env),
        do_cache_tool(env),
        disk_cleanup_tool(env),
        storage_sense_tool(env),
        winsxs_tool(env),
        wu_settings_tool(env),
        winget_upgrade_tool(env, winget),
        winget_search_tool(env, winget),
        sfc_tool(env),
        dism_health_tool(env),
        flush_dns_tool(env),
        winsock_tool(env),
    ]
}

/// The program to call for winget: where it was found, or its bare name.
pub open spec fn winget_program(winget: Option<Seq<char>>) -> Seq<char> {
    match winget {
        Some(p) => p,
        None => "winget"@,
    }
}

/// The catalog of a platform.
pub open spec fn platform_tools(platform: Platform, env: Env, winget: Option<Seq<char>>) -> Seq<
    ToolView,
> {
    if platform is Windows {
        catalog(env, winget_program(winget))
    } else {
        Seq::empty()
    }
}

pub fn winget_or_default(winget: &Option<String>) -> (r: String)
    ensures
        r@ == winget_program(crate::paths::opt_view(*winget)),
{
    match winget {
        Some(p) => copy(p.as_str()),
        None => copy("winget"),
    }
}

/// The catalog. Windows-only; empty on other platforms.
pub fn builtin_tools(platform: Platform, env: &Env, winget: &Option<String>) -> (r: Vec<Tool>)
    ensures
        tools_view(r@) == platform_tools(platform, *env, crate::paths::opt_view(*winget)),
{
    match platform {
        Platform::Windows => {},
        _ => {
            let none: Vec<Tool> = Vec::new();
            assert(tools_view(none@) =~= Seq::empty());
            return none;
        },
    }
    let program: String = winget_or_default(winget);
    let winget: &str = program.as_str();
    let mut tools: Vec<Tool> = Vec::new();
    tools.push(make_hiberfil(env));
    tools.push(make_windows_old(env));
    tools.push(make_do_cache(env));
    tools.push(make_disk_cleanup(env));
    tools.push(make_storage_sense(env));
    tools.push(make_winsxs(env));
    tools.push(make_wu_settings(env));
    tools.push(make_winget_upgrade(env, winget));
    tools.push(make_winget_search(env, winget));
    tools.push(make_sfc(env));
    tools.push(make_dism_health(env));
    tools.push(make_flush_dns(env));
    tools.push(make_winsock(env));
    assert(tools_view(tools@) =~= catalog(*env, program@));
    tools
}

/// The texts of the catalog that hold placeholders.
pub open spec fn probed_texts() -> Seq<Seq<char>> {
    seq![
        "%SystemDrive%\\hiberfil.sys"@,
        "%SystemDrive%\\Windows.old"@,
        "%WINDIR%\\SoftwareDistribution\\DeliveryOptimization"@,
        "%WINDIR%\\ServiceProfiles\\NetworkService\\AppData\\Local\\Microsoft\\Windows\\DeliveryOptimization\\Cache"@,
    ]
}

/// The variables to ask the system for before the catalog is made.
pub fn catalog_variables(winget: &Option<String>) -> (r: Vec<String>)
    ensures
        views(r@) == all_names(
            probed_texts().push(winget_program(crate::paths::opt_view(*winget))),
        ),
{
    let mut texts: Vec<String> = Vec::new();
    texts.push(copy("%SystemDrive%\\hiberfil.sys"));
    texts.push(copy("%SystemDrive%\\Windows.old"));
    texts.push(copy("%WINDIR%\\SoftwareDistribution\\DeliveryOptimization"));
    texts.push(
        copy(
            "%WINDIR%\\ServiceProfiles\\NetworkService\\AppData\\Local\\Microsoft\\Windows\\DeliveryOptimization\\Cache",
        ),
    );
    texts.push(winget_or_default(winget));
    assert(views(texts@) =~= probed_texts().push(
        winget_program(crate::paths::opt_view(*winget)),
    ));
    variables_in_all(&texts)
}

/// The first tool of a list with the given id.
pub open spec fn first_with_id(v: Seq<ToolView>, id: Seq<char>) -> Option<ToolView>
    decreases v.len(),
{
    if v.len() == 0 {
        None
    } else if v[0].id == id {
        Some(v[0])
    } else {
        first_with_id(v.skip(1), id)
    }
}

pub fn find_tool(platform: Platform, env: &Env, winget: &Option<String>, id: &str) -> (r: Option<
    Tool,
>)
    ensures
        (match r {
            Some(t) => Some(t@),
            None => None,
        }) == first_with_id(
            platform_tools(platform, *env, crate::paths::opt_view(*winget)),
            id@,
        ),
{
    let mut tools: Vec<Tool> = builtin_tools(platform, env, winget);
    let ghost all = tools_view(tools@);
    let mut i: usize = 0;
    assert(all.skip(0) =~= all);
    while i < tools.len()
        invariant
            i <= tools@.len(),
            all == tools_view(tools@),
            all == platform_tools(platform, *env, crate::paths::opt_view(*winget)),
            first_with_id(all, id@) == first_with_id(all.skip(i as int), id@),
        decreases tools@.len() - i,
    {
        assert(all.skip(i as int)[0] == tools@[i as int]@);
        if same(tools[i].id, id) {
            return Some(tools.swap_remove(i));
        }
        assert(all.skip(i as int).skip(1) =~= all.skip(i + 1));
        i += 1;
    }
    None
}

// ------------------------------------------------------------ availability --
pub const WINGET_MISSING: &'static str = "winget_missing";

pub const NOT_PRESENT: &'static str = "not_present";

pub const HIBERNATION_OFF: &'static str = "hibernation_off";

/// What is on the machine.
pub struct Presence {
    /// `%SystemDrive%\\Windows.old` is a directory.
    pub windows_old: bool,
    /// `%SystemDrive%\\hiberfil.sys` is a file.
    pub hiberfil: bool,
    /// winget was found.
    pub winget: bool,
}

/// Why a tool cannot run.
pub open spec fn reason(id: Seq<char>, here: Presence) -> Option<Seq<char>> {
    if id == "windows_old"@ {
        if here.windows_old {
            None
        } else {
            Some("not_present"@)
        }
    } else if id == "hiberfil"@ {
        if here.hiberfil {
            None
        } else {
            Some("hibernation_off"@)
        }
    } else if id == "winget_upgrade"@ || id == "winget_search"@ {
        if here.winget {
            None
        } else {
            Some("winget_missing"@)
        }
    } else {
        None
    }
}

/// Why a tool cannot run right now (a stable reason id for the UI), or None.
/// Elevation is NOT part of this - the UI decides that on its own.
pub fn unavailable_reason(tool: &Tool, here: &Presence) -> (r: Option<&'static str>)
    ensures
        (match r {
            Some(s) => Some(s@),
            None => None,
        }) == reason(tool.id@, *here),
{
    if same(tool.id, "windows_old") {
        if here.windows_old {
            None
        } else {
            Some(NOT_PRESENT)
        }
    } else if same(tool.id, "hiberfil") {
        if here.hiberfil {
            None
        } else {
            Some(HIBERNATION_OFF)
        }
    } else if same(tool.id, "winget_upgrade") || same(tool.id, "winget_search") {
        if here.winget {
            None
        } else {
            Some(WINGET_MISSING)
        }
    } else {
        None
    }
}

/// A place where winget may be.
pub struct Candidate {
    pub path: String,
    pub is_file: bool,
}

/// The first candidate that is a file.
pub open spec fn first_file(v: Seq<Candidate>, from: int) -> Option<Seq<char>>
    decreases v.len() - from,
{
    if from < 0 || from >= v.len() {
        None
    } else if v[from].is_file {
        Some(v[from].path@)
    } else {
        first_file(v, from + 1)
    }
}

/// Locate winget: the App Execution Alias dir is not always on a GUI process's
/// PATH, so fall back to the well-known WindowsApps location.
pub fn resolve_winget(on_path: &Vec<Candidate>, local: &Option<Candidate>) -> (r: Option<String>)
    ensures
        crate::paths::opt_view(r) == match first_file(on_path@, 0) {
            Some(p) => Some(p),
            None => match *local {
                Some(c) => if c.is_file {
                    Some(c.path@)
                } else {
                    None
                },
                None => None,
            },
        },
{
    let mut i: usize = 0;
    while i < on_path.len()
        invariant
            i <= on_path@.len(),
            first_file(on_path@, 0) == first_file(on_path@, i as int),
        decreases on_path@.len() - i,
    {
        if on_path[i].is_file {
            return Some(on_path[i].path.clone());
        }
        i += 1;
    }
    match local {
        Some(c) => if c.is_file {
            Some(c.path.clone())
        } else {
            None
        },
        None => None,
    }
}

// ------------------------------------------------------------------ winget --
/// A command with a word of the user's between words of the catalog. Only the
/// catalog's words have their placeholders replaced; the user's word is an
/// argument as it stands.
pub open spec fn cmd_around(
    env: Env,
    program: Seq<char>,
    before: Seq<Seq<char>>,
    term: Seq<char>,
    after: Seq<Seq<char>>,
) -> CmdView {
    CmdView {
        program: substituted(env, program),
        args: cmd_of(env, program, before).args + seq![term] + cmd_of(env, program, after).args,
    }
}

fn cmd_with_term(
    env: &Env,
    program: &str,
    before: &[&str],
    term: &str,
    after: &[&str],
) -> (r: Cmd)
    ensures
        r@ == cmd_around(*env, program@, strs(before@), term@, strs(after@)),
{
    let mut cmd: Cmd = Cmd::new(env, program, before);
    let ghost first = cmd@.args;
    let ghost last = cmd_of(*env, program@, strs(after@)).args;
    cmd.args.push(copy(term));
    assert(cmd@.args =~= first + seq![term@] + last.take(0));
    let mut i: usize = 0;
    while i < after.len()
        invariant
            i <= after@.len() == last.len(),
            last == cmd_of(*env, program@, strs(after@)).args,
            cmd@.program == substituted(*env, program@),
            cmd@.args == first + seq![term@] + last.take(i as int),
        decreases after@.len() - i,
    {
        let ghost args0 = cmd@.args;
        cmd.args.push(expand_env(env, after[i]));
        assert(last[i as int] == substituted(*env, after@[i as int]@));
        assert(cmd@.args =~= args0.push(last[i as int]));
        i += 1;
        assert(last.take(i as int) =~= last.take(i - 1).push(last[i - 1]));
        assert(cmd@.args =~= first + seq![term@] + last.take(i as int));
    }
    assert(last.take(i as int) =~= last);
    cmd
}

/// The command lines of the find-and-install tool for a term.
pub open spec fn term_commands(mode: Mode, env: Env, winget: Seq<char>, term: Seq<char>) -> Seq<
    CmdView,
> {
    match mode {
        Mode::Check => seq![
            cmd_around(
                env,
                winget,
                seq!["search"@, "--query"@],
                term,
                seq!["--disable-interactivity"@, "--accept-source-agreements"@],
            ),
        ],
        Mode::Action => seq![
            cmd_around(
                env,
                winget,
                seq!["install"@, "--id"@],
                term,
                seq![
                    "--exact"@,
                    "--disable-interactivity"@,
                    "--accept-package-agreements"@,
                    "--accept-source-agreements"@,
                ],
            ),
        ],
        Mode::Open => Seq::empty(),
    }
}

/// The third argument of the find-and-install command is the term itself,
/// whatever placeholders it spells.
pub proof fn law_term_is_passed_verbatim(
    mode: Mode,
    env: Env,
    winget: Seq<char>,
    term: Seq<char>,
)
    ensures
        forall|i: int|
            0 <= i < term_commands(mode, env, winget, term).len() ==> {
                &&& (#[trigger] term_commands(mode, env, winget, term)[i]).args.len() > 2
                &&& term_commands(mode, env, winget, term)[i].args[2] == term
            },
{
}

/// Commands for the find-&-install tool with a VALIDATED term substituted.
pub fn winget_cmds(mode: Mode, term: &str, env: &Env, winget: &Option<String>) -> (r: Vec<Cmd>)
    ensures
        cmds(r@) == term_commands(
            mode,
            *env,
            winget_program(crate::paths::opt_view(*winget)),
            term@,
        ),
{
    let program: String = winget_or_default(winget);
    match mode {
        Mode::Check => {
            let before: [&str; 2] = ["search", "--query"];
            let after: [&str; 2] = ["--disable-interactivity", "--accept-source-agreements"];
            let cmd: Cmd = cmd_with_term(env, program.as_str(), &before, term, &after);
            assert(strs(before@) =~= seq!["search"@, "--query"@]);
            assert(strs(after@) =~= seq![
                "--disable-interactivity"@,
                "--accept-source-agreements"@,
            ]);
            let r: Vec<Cmd> = vec![cmd];
            assert(cmds(r@) =~= seq![cmd@]);
            r
        },
        Mode::Action => {
            let before: [&str; 2] = ["install", "--id"];
            let after: [&str; 4] = [
                "--exact",
                "--disable-interactivity",
                "--accept-package-agreements",
                "--accept-source-agreements",
            ];
            let cmd: Cmd = cmd_with_term(env, program.as_str(), &before, term, &after);
            assert(strs(before@) =~= seq!["install"@, "--id"@]);
            assert(strs(after@) =~= seq![
                "--exact"@,
                "--disable-interactivity"@,
                "--accept-package-agreements"@,
                "--accept-source-agreements"@,
            ]);
            let r: Vec<Cmd> = vec![cmd];
            assert(cmds(r@) =~= seq![cmd@]);
            r
        },
        Mode::Open => {
            let r: Vec<Cmd> = Vec::new();
            assert(cmds(r@) =~= Seq::empty());
            r
        },
    }
}

} // verus!
