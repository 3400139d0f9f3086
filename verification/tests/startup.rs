use clean_core::env::Env;
use clean_core::registry::{expand_sz_value, reg_value_to_string, sz_value, RegData, RegKind};
use clean_core::startup::{
    classify_impact, entry, exe_path_of, impact_target, is_startup_file, list, split_command,
    BootImpact, StartupEntry, StartupOrigin,
};
use clean_core::startup_changes::{
    backup_id, delay, disabled_blob, hex_encode, launcher_command, launcher_id, may_delay,
    parse_launcher_id, registry_entry, restored_value, run_delayed_start, set_enabled, undelay,
    DelayedBlob, Move, DELAYED_START_FLAG,
};
use clean_core::startup_cli::{
    admin_error, count_entries, resolve, state_text, truncate, Asked, Wanted,
};
use clean_core::types::Platform;

fn sample(name: &str) -> StartupEntry {
    StartupEntry {
        name: name.into(),
        command: "x".into(),
        origin: StartupOrigin::RunCurrentUser,
        location_label: "x".into(),
        enabled: true,
        requires_admin: false,
        impact: BootImpact::Medium,
        delayed: false,
        delay_secs: 0,
    }
}

fn no_env() -> Env {
    Env { vars: Vec::new() }
}

/// Disables a live value and enables it again.
fn roundtrip(name: &str, raw: RegData) -> RegData {
    let e = registry_entry(StartupOrigin::RunCurrentUser, name.to_string(), &raw, None, None)
        .unwrap();
    assert_eq!(set_enabled(Platform::Windows, &e, false).unwrap(), Move::DisableRegistry);
    let blob = disabled_blob(&e, &raw);
    assert_eq!(blob.name, name);
    restored_value(&blob.command, blob.expand)
}

#[test]
fn registry_disable_enable_roundtrip_reg_sz() {
    let back = roundtrip("TestApp", sz_value(r"C:\Apps\test.exe --run"));
    assert_eq!(back.kind, RegKind::Sz);
    assert_eq!(back.bytes, sz_value(r"C:\Apps\test.exe --run").bytes);
}

#[test]
fn registry_roundtrip_preserves_expand_sz() {
    let back = roundtrip("TestExpand", expand_sz_value(r"%ProgramFiles%\App\app.exe"));
    assert_eq!(back.kind, RegKind::ExpandSz);
    assert_eq!(reg_value_to_string(&back).as_deref(), Some(r"%ProgramFiles%\App\app.exe"));
}

#[test]
fn list_runs_without_error_and_is_sorted() {
    let entries =
        list(Platform::Windows, vec![sample("zeta"), sample("Alpha"), sample("beta"), sample("ALPHA")]);
    assert_eq!(entries.len(), 4);
    for w in entries.windows(2) {
        assert!(w[0].name.to_lowercase() <= w[1].name.to_lowercase());
    }
}

#[test]
fn exe_path_handles_quoted_unquoted_and_args() {
    assert_eq!(
        exe_path_of(r#""C:\Program Files\App\app.exe" --run"#).as_deref(),
        Some(r"C:\Program Files\App\app.exe")
    );
    assert_eq!(
        exe_path_of(r"C:\Tools\thing.exe /background").as_deref(),
        Some(r"C:\Tools\thing.exe")
    );
    assert_eq!(exe_path_of("notepad").as_deref(), Some("notepad"));
    assert_eq!(exe_path_of("   "), None);
}

#[test]
fn heavy_keyword_is_high_regardless_of_size() {
    assert_eq!(classify_impact(r"C:\App\AppUpdater.exe", Some(100_000)), BootImpact::High);
    assert_eq!(
        classify_impact(
            r#""C:\Users\me\AppData\Local\OneDrive\OneDrive.exe" /background"#,
            None
        ),
        BootImpact::High
    );
}

#[test]
fn big_binary_is_high_and_small_is_low() {
    assert_eq!(classify_impact(r"C:\App\huge.exe", Some(80 * 1024 * 1024)), BootImpact::High);
    assert_eq!(classify_impact(r"C:\App\tray.exe", Some(500 * 1024)), BootImpact::Low);
}

#[test]
fn unknown_size_no_keyword_is_medium() {
    assert_eq!(classify_impact(r"C:\App\mystery.exe", None), BootImpact::Medium);
    assert_eq!(classify_impact(r"C:\App\normal.exe", Some(10 * 1024 * 1024)), BootImpact::Medium);
}

#[test]
fn split_command_separates_exe_and_args() {
    assert_eq!(
        split_command(r#""C:\Program Files\App\app.exe" --run -x"#),
        (r"C:\Program Files\App\app.exe".to_string(), "--run -x".to_string())
    );
    assert_eq!(
        split_command(r"C:\Tools\thing.exe /background"),
        (r"C:\Tools\thing.exe".to_string(), "/background".to_string())
    );
    assert_eq!(
        split_command(r"C:\Tools\thing.exe"),
        (r"C:\Tools\thing.exe".to_string(), String::new())
    );
}

#[test]
fn launcher_id_roundtrips_through_parse() {
    let id = hex_encode("RunCurrentUser|Some App With Spaces");
    assert!(id.chars().all(|c| c.is_ascii_hexdigit()));
    let cmd =
        format!("\"C:\\Program Files\\Clean Master\\clean-master.exe\" {DELAYED_START_FLAG} {id}");
    assert_eq!(parse_launcher_id(&cmd).as_deref(), Some(id.as_str()));
    assert_eq!(launcher_id(StartupOrigin::RunCurrentUser, "Some App With Spaces"), id);
    assert_eq!(
        launcher_command("C:\\Program Files\\Clean Master\\clean-master.exe", &id),
        cmd
    );
}

#[test]
fn parse_launcher_id_ignores_ordinary_commands() {
    assert_eq!(parse_launcher_id(r#""C:\App\app.exe" --run"#), None);
    assert_eq!(parse_launcher_id(""), None);
}

#[test]
fn non_windows_list_is_empty_and_set_errors() {
    assert!(list(Platform::Other, vec![sample("x")]).is_empty());
    let e = sample("x");
    let raw = sz_value("x");
    let blob = DelayedBlob {
        origin: StartupOrigin::RunCurrentUser,
        name: "x".into(),
        command: "x".into(),
        expand: false,
        delay_secs: 60,
    };
    assert!(set_enabled(Platform::Other, &e, false).is_err());
    assert!(delay(Platform::Other, &e, 60, "clean-master.exe", &raw).is_err());
    assert!(undelay(Platform::Other, &blob).is_err());
    assert!(run_delayed_start(Platform::Other, &no_env(), &None).is_err());
}

#[test]
fn delay_moves_the_command_behind_a_launcher() {
    let raw = expand_sz_value(r"%APP%\a.exe /x");
    let e = registry_entry(StartupOrigin::RunCurrentUser, "App".into(), &raw, None, None).unwrap();
    assert!(may_delay(Platform::Windows, &e).is_ok());
    let plan = delay(Platform::Windows, &e, 60, "C:\\cm.exe", &raw).unwrap();
    let shown = reg_value_to_string(&plan.live).unwrap();
    assert_eq!(parse_launcher_id(&shown), Some(plan.id.clone()));
    assert_eq!(plan.blob.delay_secs, 60);
    let listed =
        registry_entry(StartupOrigin::RunCurrentUser, "App".into(), &plan.live, Some(plan.blob), None)
            .unwrap();
    assert!(listed.delayed && listed.enabled);
    assert_eq!(listed.delay_secs, 60);
    assert_eq!(listed.command, r"%APP%\a.exe /x");
    assert!(set_enabled(Platform::Windows, &listed, false).is_err());
    assert!(may_delay(Platform::Windows, &listed).is_err());
}

#[test]
fn undelay_gives_the_value_back() {
    let blob = DelayedBlob {
        origin: StartupOrigin::RunCurrentUser,
        name: "App".into(),
        command: r"%APP%\a.exe /x".into(),
        expand: true,
        delay_secs: 30,
    };
    let env = Env { vars: vec![("APP".into(), "C:\\App".into())] };
    let launch = run_delayed_start(Platform::Windows, &env, &Some(DelayedBlob {
        origin: blob.origin,
        name: blob.name.clone(),
        command: blob.command.clone(),
        expand: true,
        delay_secs: 30,
    }))
    .unwrap();
    assert_eq!((launch.wait_secs, launch.exe.as_str(), launch.args.as_str()), (30, "C:\\App\\a.exe", "/x"));
    let back = undelay(Platform::Windows, &blob).unwrap();
    assert_eq!(back.kind, RegKind::ExpandSz);
    assert_eq!(reg_value_to_string(&back).as_deref(), Some(r"%APP%\a.exe /x"));
    assert!(run_delayed_start(Platform::Windows, &env, &None).is_err());
}

#[test]
fn delay_is_for_this_users_enabled_entries() {
    let mut machine = sample("m");
    machine.origin = StartupOrigin::RunLocalMachine;
    assert!(may_delay(Platform::Windows, &machine).is_err());
    let mut off = sample("off");
    off.enabled = false;
    assert!(may_delay(Platform::Windows, &off).is_err());
    assert_ne!(
        backup_id(StartupOrigin::RunCurrentUser, "a"),
        backup_id(StartupOrigin::RunLocalMachine, "a")
    );
}

#[test]
fn registry_text_survives_writing_and_reading() {
    for s in ["plain", "ünï çode", "😀 wide"] {
        assert_eq!(reg_value_to_string(&sz_value(s)).as_deref(), Some(s));
        assert_eq!(reg_value_to_string(&expand_sz_value(s)).as_deref(), Some(s));
    }
    assert_eq!(reg_value_to_string(&RegData { kind: RegKind::Other, bytes: vec![1, 0] }), None);
}

#[test]
fn entries_know_where_they_come_from() {
    let e = entry(StartupOrigin::RunLocalMachine, "n".into(), "C:\\tray.exe".into(), true, Some(1));
    assert!(e.requires_admin);
    assert_eq!(e.impact, BootImpact::Low);
    assert!(!StartupOrigin::FolderCurrentUser.is_registry());
    assert!(!StartupOrigin::FolderCurrentUser.requires_admin());
    assert!(StartupOrigin::FolderCommon.requires_admin());
    assert!(!is_startup_file("desktop.ini", false));
    assert!(!is_startup_file("sub", true));
    assert!(is_startup_file("app.lnk", false));
    let env = Env { vars: vec![("APP".into(), "C:\\App".into())] };
    assert_eq!(impact_target(&env, "%APP%\\a.exe /x").as_deref(), Some("C:\\App\\a.exe"));
}

#[test]
fn entries_are_found_by_name_and_state() {
    let mut off = sample("Beta");
    off.enabled = false;
    let mut late = sample("Gamma");
    late.delayed = true;
    late.delay_secs = 90;
    let all = vec![sample("Alpha"), off, late];
    assert_eq!(resolve(&all, "alpha", Wanted::Enabled), Ok(0));
    assert_eq!(resolve(&all, "BETA", Wanted::Disabled), Ok(1));
    assert_eq!(resolve(&all, "gamma", Wanted::Delayed), Ok(2));
    assert!(resolve(&all, "gamma", Wanted::Delayable).is_err());
    assert_eq!(
        resolve(&all, "nope", Wanted::Delayed),
        Err("no delayed startup entry named 'nope'.".to_string())
    );
    let twice = vec![sample("dup"), sample("Dup")];
    assert!(resolve(&twice, "dup", Wanted::Enabled).is_err());
    assert_eq!(state_text(&all[2]), "delayed 90s");
    assert_eq!(state_text(&all[1]), "disabled");
    assert_eq!(count_entries(&all), (0, 2));
}

#[test]
fn machine_wide_changes_need_elevation() {
    let mut e = sample("x");
    assert!(admin_error(&e, false, Asked::DisableInTerminal).is_none());
    e.requires_admin = true;
    assert!(admin_error(&e, false, Asked::ToggleInWindow).is_some());
    assert!(admin_error(&e, true, Asked::EnableInTerminal).is_none());
    assert_eq!(truncate("short", 10), "short");
    assert_eq!(truncate("äöüäöü", 4).chars().count(), 4);
}

#[test]
fn any_hex_id_survives_the_shim_command() {
    for text in ["x", "a b", "\u{130}\u{c9}|%", "--delayed-start"] {
        let id = hex_encode(text);
        let line = launcher_command("C:\\Program Files\\c.exe", &id);
        assert_eq!(parse_launcher_id(&line), Some(id));
    }
}
