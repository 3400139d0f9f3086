use clean_core::appscan::{
    app_bundles_in, classify, is_application, is_bundleware, is_update_entry, mac_app,
    newest_file_time_in, parse_install_date, scan_installed_apps, uninstall_keys, windows_apps,
    AppRemoval, BundleEntry, FoundProgram, InstalledApp, TimedFile, UninstallEntry,
};
use clean_core::civil::{days_from_civil, install_date_unix};
use clean_core::env::Env;
use clean_core::removal::{
    app_totals, left_in_bin, plan_removal, undo_card, undone_name, AppPlan, UndoCard,
};
use clean_core::safety::{Action, ActionManifest, Disposition};
use clean_core::types::Platform;

const DAY: i64 = 86_400;
const NOW: i64 = 1_800_000_000;

#[test]
fn install_date_parses_registry_format_only() {
    assert_eq!(parse_install_date("20230112").as_deref(), Some("2023-01-12"));
    assert_eq!(parse_install_date(" 20230112 ").as_deref(), Some("2023-01-12"));
    assert_eq!(parse_install_date("2023-01-12"), None);
    assert_eq!(parse_install_date("202301"), None);
    assert_eq!(parse_install_date(""), None);
}

#[test]
fn install_date_unix_matches_known_epochs() {
    assert_eq!(install_date_unix("1970-01-01"), Some(0));
    assert_eq!(install_date_unix("2000-01-01"), Some(946_684_800));
    assert_eq!(install_date_unix("2023-13-01"), None);
}

#[test]
fn days_cross_leap_years() {
    assert_eq!(days_from_civil(1970, 1, 1), 0);
    assert_eq!(days_from_civil(1969, 12, 31), -1);
    assert_eq!(days_from_civil(2000, 3, 1) - days_from_civil(2000, 2, 28), 2);
    assert_eq!(days_from_civil(1900, 3, 1) - days_from_civil(1900, 2, 28), 1);
    assert_eq!(install_date_unix("2024-02-29"), Some(1_709_164_800));
}

#[test]
fn unused_flag_needs_over_180_days() {
    let fresh = classify(NOW, None, Some(NOW - 179 * DAY), false);
    assert!(fresh.is_empty());
    let stale = classify(NOW, None, Some(NOW - 181 * DAY), false);
    assert_eq!(stale, vec!["unused"]);
}

#[test]
fn old_flag_requires_old_install_and_stale_usage() {
    let install = Some(NOW - 400 * DAY);
    assert!(classify(NOW, install, Some(NOW - 10 * DAY), false).is_empty());
    assert_eq!(classify(NOW, install, None, false), vec!["old"]);
    assert!(classify(NOW, Some(NOW - 100 * DAY), None, false).is_empty());
}

#[test]
fn unknown_everything_is_never_flagged() {
    assert!(classify(NOW, None, None, false).is_empty());
}

#[test]
fn bundleware_patterns_match_name_or_publisher() {
    assert!(is_bundleware("2345 Pinyin Input", ""));
    assert!(is_bundleware("McAfee WebAdvisor", "McAfee LLC"));
    assert!(is_bundleware("Some Game Bar", "WildTangent"));
    assert!(!is_bundleware("Visual Studio Code", "Microsoft Corporation"));
    assert!(!is_bundleware("WPS Office", "Kingsoft"));
}

#[test]
fn update_entries_are_recognized() {
    assert!(is_update_entry("KB2565063"));
    assert!(is_update_entry("Update for Microsoft Office"));
    assert!(is_update_entry("Security Update for Windows"));
    assert!(!is_update_entry("Krita 5.2"));
    assert!(!is_update_entry("KBar Media Player"));
}

#[test]
fn app_bundles_found_by_suffix_only() {
    let at = |name: &str, is_dir: bool| BundleEntry {
        name: name.to_string(),
        path: format!("/Applications/{name}"),
        is_dir,
        is_symlink: false,
    };
    let found = app_bundles_in(&vec![at("Safari.app", true), at("NotAnApp", true), at("stray.app", false)]);
    assert_eq!(found.len(), 1);
    assert_eq!(found[0].0, "Safari");
    assert!(found[0].1.ends_with(".app"));
}

fn timed(name: &str, accessed: Option<i64>, modified: Option<i64>) -> TimedFile {
    TimedFile { name: name.to_string(), is_file: true, accessed, modified }
}

#[test]
fn newest_file_time_filters_by_extension() {
    let dir = Some(vec![
        timed("app.exe", Some(50), Some(60)),
        timed("old.EXE", Some(10), None),
        timed("data.dat", Some(99), Some(99)),
    ]);
    assert_eq!(newest_file_time_in(&dir, "exe"), Some(60));
    assert!(newest_file_time_in(&dir, "xyz").is_none());
    assert!(newest_file_time_in(&None, "exe").is_none());
}

fn uninstall(name: &str, version: &str, size_kb: u32, location: &str) -> UninstallEntry {
    UninstallEntry {
        name: name.to_string(),
        system_component: 0,
        parent: String::new(),
        uninstall: "u.exe".to_string(),
        publisher: "P".to_string(),
        version: version.to_string(),
        location: location.to_string(),
        install_date: "20200101".to_string(),
        size_kb,
    }
}

#[test]
fn programs_are_listed_biggest_first_and_once() {
    let found = |e: UninstallEntry| FoundProgram { entry: e, files: None };
    let apps = windows_apps(
        NOW,
        &vec![
            found(uninstall("Small", "1", 10, "")),
            found(uninstall("Big", "2", 500, "")),
            found(uninstall("Big", "2", 500, "C:\\Big")),
        ],
    );
    assert_eq!(apps.iter().map(|a| a.name.as_str()).collect::<Vec<_>>(), vec!["Big", "Small"]);
    assert_eq!(apps[0].location, "C:\\Big");
    assert_eq!(apps[0].size_bytes, 500 * 1024);
    assert_eq!(apps[0].install_date, "2020-01-01");
    assert_eq!(apps[0].flags, vec!["old".to_string()]);
    assert!(scan_installed_apps(Platform::Other, apps).is_empty());
}

#[test]
fn components_and_updates_are_no_applications() {
    assert!(is_application(&uninstall("App", "1", 1, "")));
    let mut e = uninstall("App", "1", 1, "");
    e.system_component = 1;
    assert!(!is_application(&e));
    let mut e = uninstall("App", "1", 1, "");
    e.parent = "Office".to_string();
    assert!(!is_application(&e));
    let mut e = uninstall("App", "1", 1, "");
    e.uninstall = String::new();
    assert!(!is_application(&e));
    assert!(!is_application(&uninstall("KB2565063", "1", 1, "")));
    assert_eq!(uninstall_keys().len(), 3);
}

fn bundle(path: &str) -> InstalledApp {
    mac_app(NOW, "A".into(), path.into(), 7, Some(NOW - 200 * DAY))
}

#[test]
fn bundles_are_recycled_from_the_folder_that_holds_them() {
    let env = Env { vars: vec![("HOME".into(), "/Users/me".into())] };
    let apps = vec![bundle("/Applications/A.app"), bundle("/Users/me/Applications/A.app")];
    assert_eq!(apps[0].flags, vec!["unused".to_string()]);
    assert!(matches!(&apps[0].removal, AppRemoval::MacBundle { path } if path == "/Applications/A.app"));
    match plan_removal(Platform::MacOs, &env, &apps, 0) {
        Ok(AppPlan::Recycle { path, size }) => assert_eq!((path.as_str(), size), ("/Applications/A.app", 7)),
        _ => panic!("must be recycled"),
    }
    assert!(plan_removal(Platform::MacOs, &env, &apps, 1).is_ok());
    assert_eq!(
        plan_removal(Platform::MacOs, &env, &apps, 2).unwrap_err(),
        "No such app. Rescan first."
    );
    assert_eq!(app_totals(&apps), (14, 2));
}

#[test]
fn windows_programs_start_their_uninstaller() {
    let env = Env { vars: Vec::new() };
    let apps = windows_apps(NOW, &vec![FoundProgram { entry: uninstall("A", "1", 1, ""), files: None }]);
    match plan_removal(Platform::Windows, &env, &apps, 0) {
        Ok(AppPlan::Launch { command }) => assert_eq!(command, "u.exe"),
        _ => panic!("must be launched"),
    }
}

#[test]
fn undo_card_counts_what_can_come_back() {
    let mut m = ActionManifest::new(9);
    let action = |d: Disposition, size: u64| Action { from: "x".into(), disposition: d, size, at_unix: 4 };
    m.actions.push(action(Disposition::RecycleBin, 5));
    m.actions.push(action(Disposition::Permanent, 100));
    m.actions.push(action(Disposition::RecycleBin, 6));
    match undo_card(&m, None) {
        UndoCard::Show { files, bytes, at_unix } => assert_eq!((files, bytes, at_unix), (2, 11, 4)),
        _ => panic!("must be shown"),
    }
    match undo_card(&m, Some((1, 5))) {
        UndoCard::Show { files, bytes, .. } => assert_eq!((files, bytes), (1, 5)),
        _ => panic!("must be shown"),
    }
    match undo_card(&m, Some((0, 0))) {
        UndoCard::Retire { name } => assert_eq!(name, "stale-9.json"),
        _ => panic!("must be retired"),
    }
    assert_eq!(undone_name(&m), "undone-9.json");
    assert_eq!(left_in_bin(&m, &vec!["X".to_string()]), (2, 11));
    assert_eq!(left_in_bin(&m, &vec!["y".to_string()]), (0, 0));
}
