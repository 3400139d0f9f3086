use clean_core::catalog::{
    builtin_tools, catalog_variables, find_tool, resolve_winget, unavailable_reason, winget_cmds, Candidate, Presence,
};
use clean_core::console::{
    ansi_codepage, decode_8bit, decode_8bit_with, drain_lines, sniff_encoding, LinePump, TextEnc,
};
use clean_core::env::Env;
use clean_core::runner::{Next, Phase, Poll, StepRun};
use clean_core::scanner::EntryKind;
use clean_core::toolbox::{
    expand_env, probe_bytes, relaunch_result, validate_winget_term, wait_for_pid_arg,
    wait_for_pid_params, Cmd, Input, Mode, Probe, SizeWalk, SizedEntry,
};
use clean_core::toolrun::{
    check_idle, join_cmds, plan_request, reveal_cmd, ToolPlan, ToolRequest,
};
use clean_core::types::Platform;

fn env() -> Env {
    let var = |k: &str, v: &str| (k.to_string(), v.to_string());
    Env {
        vars: vec![
            var("CM_TB_TEST_VAR", "abc"),
            var("SystemDrive", "C:"),
            var("SystemRoot", "C:\\Windows"),
            var("windir", "C:\\Windows"),
            var("WINDIR", "C:\\Windows"),
        ],
    }
}

#[test]
fn expand_env_replaces_known_and_keeps_unknown() {
    assert_eq!(expand_env(&env(), "x%CM_TB_TEST_VAR%y"), "xabcy");
    assert_eq!(expand_env(&env(), "%CM_TB_NO_SUCH_VAR_XYZ%\\p"), "%CM_TB_NO_SUCH_VAR_XYZ%\\p");
    assert_eq!(expand_env(&env(), "100% sure"), "100% sure");
    assert_eq!(expand_env(&env(), "%%"), "%%");
}

#[test]
fn cmd_display_quotes_whitespace_args_only() {
    let c = Cmd {
        program: "reg".into(),
        args: vec!["add".into(), "HKLM\\A B".into(), "/f".into()],
    };
    assert_eq!(c.display(), "reg add \"HKLM\\A B\" /f");
}

#[test]
fn catalog_invariants() {
    assert!(builtin_tools(Platform::Other, &env(), &None).is_empty());
    let tools = builtin_tools(Platform::Windows, &env(), &None);
    assert!(tools.len() >= 12, "catalog shrank: {}", tools.len());
    let mut ids: Vec<&str> = Vec::new();
    for t in &tools {
        assert!(!ids.contains(&t.id), "duplicate tool id {}", t.id);
        ids.push(t.id);
        assert!(!t.name.is_empty() && !t.blurb.is_empty(), "{}: empty text", t.id);
        assert!(
            !t.check.is_empty() || !t.action.is_empty() || t.open.is_some(),
            "{}: no check, action or open",
            t.id
        );
        for c in t.check.iter().chain(t.action.iter()).chain(t.open.iter()) {
            assert!(!c.program.is_empty(), "{}: empty program", t.id);
            assert!(
                !c.program.eq_ignore_ascii_case("cmd")
                    && !c.program.eq_ignore_ascii_case("cmd.exe"),
                "{}: uses cmd shell",
                t.id
            );
            for a in &c.args {
                assert!(!a.contains('%'), "{}: unexpanded env token in {a}", t.id);
            }
        }
        if t.input == Input::WingetTerm {
            assert!(
                !t.check.is_empty() && !t.action.is_empty(),
                "{}: input tool needs both modes",
                t.id
            );
        }
    }
    for id in ["winsxs", "sfc", "dism_health", "winsock", "hiberfil", "windows_old", "do_cache"] {
        let t = tools.iter().find(|t| t.id == id).expect(id);
        assert!(t.needs_admin, "{id} must need admin");
    }
    assert!(tools.iter().find(|t| t.id == "winsock").unwrap().reboot);
    assert!(!tools.iter().find(|t| t.id == "flush_dns").unwrap().needs_admin);
    assert!(find_tool(Platform::Windows, &env(), &None, "no_such_tool").is_none());
}

#[test]
fn winget_term_validation() {
    assert_eq!(validate_winget_term("  Mozilla.Firefox ").unwrap(), "Mozilla.Firefox");
    assert_eq!(validate_winget_term("visual studio code").unwrap(), "visual studio code");
    assert!(validate_winget_term("").is_err());
    assert!(validate_winget_term("   ").is_err());
    assert!(validate_winget_term("--uninstall").is_err());
    assert!(validate_winget_term("/q").is_err());
    assert!(validate_winget_term("a\nb").is_err());
    assert!(validate_winget_term(&"x".repeat(129)).is_err());
    assert!(validate_winget_term(&"x".repeat(128)).is_ok());
}

#[test]
fn winget_cmds_carry_term_as_single_arg() {
    let c = winget_cmds(Mode::Check, "visual studio code", &env(), &None);
    assert_eq!(c.len(), 1);
    let i = c[0].args.iter().position(|a| a == "--query").unwrap();
    assert_eq!(c[0].args[i + 1], "visual studio code");
    let c = winget_cmds(Mode::Action, "Mozilla.Firefox", &env(), &None);
    let i = c[0].args.iter().position(|a| a == "--id").unwrap();
    assert_eq!(c[0].args[i + 1], "Mozilla.Firefox");
    assert!(c[0].args.iter().any(|a| a == "--exact"));
    assert!(winget_cmds(Mode::Open, "x", &env(), &None).is_empty());
}

#[test]
fn winget_terms_are_not_expanded() {
    let env = Env { vars: vec![("CM_X".to_string(), "abc".to_string())] };
    assert_eq!(validate_winget_term("%CM_X%").unwrap(), "%CM_X%");
    let c = winget_cmds(Mode::Check, "%CM_X%", &env, &None);
    assert_eq!(c[0].args[1..3], ["--query".to_string(), "%CM_X%".to_string()]);
    let c = winget_cmds(Mode::Action, "%CM_X%", &env, &Some("%CM_X%\\winget.exe".to_string()));
    assert_eq!(c[0].program, "abc\\winget.exe");
    assert_eq!(c[0].args[1..4], ["--id".to_string(), "%CM_X%".to_string(), "--exact".to_string()]);
}

fn wide(s: &str) -> Vec<u8> {
    s.encode_utf16().flat_map(|u| u.to_le_bytes()).collect()
}

#[test]
fn sniff_encoding_detects_utf16_and_8bit() {
    assert_eq!(sniff_encoding(&wide("Beginning verification phase\r\n")), TextEnc::Utf16Le);
    assert_eq!(sniff_encoding(&[0xFF, 0xFE, b'a', 0]), TextEnc::Utf16Le);
    assert_eq!(sniff_encoding(b"Deployment Image Servicing\r\n"), TextEnc::EightBit);
    assert_eq!(
        sniff_encoding(&[0xB2, 0xBF, 0xCA, 0xF0, 0xB3, 0xCC, 0xD0, 0xF2]),
        TextEnc::EightBit
    );
    assert_eq!(sniff_encoding(b"ok"), TextEnc::EightBit);
}

#[test]
fn decode_8bit_prefers_utf8_then_codepage() {
    assert_eq!(decode_8bit_with("中文 ok".as_bytes(), 936), "中文 ok");
    assert_eq!(decode_8bit_with(&[0xD6, 0xD0, 0xCE, 0xC4], 936), "中文");
    assert!(!decode_8bit_with(&[0xD6, 0xD0, 0xCE, 0xC4], 950).is_empty());
    assert_eq!(decode_8bit_with(&[0xE9], 1252), "é");
}

#[test]
fn code_page_is_asked_for_on_windows_only() {
    assert_eq!(ansi_codepage(Platform::Windows, 936), 936);
    assert_eq!(ansi_codepage(Platform::MacOs, 936), 65001);
    assert_eq!(decode_8bit(&[0xD6, 0xD0], Platform::Windows, 936), "中");
    assert_eq!(decode_8bit(&[0xD6, 0xD0], Platform::MacOs, 936), "\u{FFFD}\u{FFFD}");
}

#[test]
fn drain_lines_8bit_keeps_partial_tail_until_flush() {
    let mut buf = b"line one\r\nline two\rpartial".to_vec();
    let lines = drain_lines(&mut buf, TextEnc::EightBit, false, 65001);
    assert_eq!(lines, vec!["line one".to_string(), "line two".to_string()]);
    assert_eq!(buf, b"partial");
    let lines = drain_lines(&mut buf, TextEnc::EightBit, true, 65001);
    assert_eq!(lines, vec!["partial".to_string()]);
    assert!(buf.is_empty());
}

#[test]
fn drain_lines_utf16_decodes_and_drops_bom() {
    let mut buf: Vec<u8> = vec![0xFF, 0xFE];
    buf.extend(wide("Verification 100% complete.\r\nWindows Resource Protection\r\n"));
    buf.push(b'W');
    let lines = drain_lines(&mut buf, TextEnc::Utf16Le, false, 65001);
    assert_eq!(
        lines,
        vec![
            "Verification 100% complete.".to_string(),
            "Windows Resource Protection".to_string()
        ]
    );
    assert_eq!(buf, vec![b'W']);
}

#[test]
fn lines_do_not_depend_on_how_the_bytes_arrive() {
    let text = b"first\r\nsecond line\nthird";
    let mut whole = LinePump::new();
    let mut expected = whole.feed(text, 65001);
    expected.extend(whole.finish(65001));
    let mut pieces = LinePump::new();
    let mut got = Vec::new();
    for chunk in text.chunks(3) {
        got.extend(pieces.feed(chunk, 65001));
    }
    got.extend(pieces.finish(65001));
    assert_eq!(got, expected);
    assert_eq!(got, vec!["first".to_string(), "second line".to_string(), "third".to_string()]);
}

/// What a program would do when it is started.
struct Program {
    name: &'static str,
    output: &'static str,
    code: i32,
}

/// Drives a run the way a process supervisor does.
fn run_steps(
    steps: Vec<Cmd>,
    known: &[Program],
    lines: &mut Vec<String>,
) -> Result<StepRun, String> {
    let mut run = StepRun::new(steps);
    loop {
        match run.next(false) {
            Next::Finished => return Ok(run),
            Next::Start { line } => lines.push(line),
        }
        let name = run.steps[run.codes.len()].program.clone();
        let program = match known.iter().find(|p| p.name == name) {
            Some(p) => p,
            None => {
                run.started(Some("not found".to_string()))?;
                return Ok(run);
            }
        };
        run.started(None)?;
        let mut pump = LinePump::new();
        lines.extend(pump.feed(program.output.as_bytes(), 65001));
        run.polled(Poll::Running)?;
        lines.extend(pump.finish(65001));
        run.polled(Poll::Exited { code: Some(program.code) })?;
        if run.phase == Phase::Over {
            return Ok(run);
        }
    }
}

const PROGRAMS: [Program; 3] = [
    Program { name: "echo-alpha", output: "alpha\n", code: 0 },
    Program { name: "echo-beta", output: "beta\n", code: 0 },
    Program { name: "fail", output: "", code: 3 },
];

fn step(program: &str) -> Cmd {
    Cmd::new(&env(), program, &[])
}

#[test]
fn run_steps_streams_lines_and_reports_success() {
    let mut lines = Vec::new();
    let run = run_steps(vec![step("echo-alpha"), step("echo-beta")], &PROGRAMS, &mut lines).unwrap();
    let out = run.outcome;
    assert!(out.success, "{out:?} {lines:?}");
    assert_eq!(out.exit_code, Some(0));
    assert_eq!(out.steps_run, 2);
    assert!(lines.iter().any(|l| l.starts_with("> ")), "command echo line missing: {lines:?}");
    assert!(lines.iter().any(|l| l.trim() == "alpha"), "{lines:?}");
    assert!(lines.iter().any(|l| l.trim() == "beta"), "{lines:?}");
}

#[test]
fn run_steps_stops_at_first_failure() {
    let mut lines = Vec::new();
    let run = run_steps(vec![step("fail"), step("echo-alpha")], &PROGRAMS, &mut lines).unwrap();
    assert!(!run.outcome.success);
    assert_eq!(run.outcome.exit_code, Some(3));
    assert_eq!(run.outcome.steps_run, 1);
    assert!(!lines.iter().any(|l| l.trim() == "alpha"));
}

#[test]
fn run_steps_missing_program_is_an_error() {
    let r = run_steps(vec![step("cm-no-such-program-xyz")], &PROGRAMS, &mut Vec::new());
    assert_eq!(r.err().as_deref(), Some("could not start cm-no-such-program-xyz: not found"));
}

#[test]
fn cancelled_run_is_no_success() {
    let mut run = StepRun::new(vec![step("sleep"), step("echo-alpha")]);
    assert!(matches!(run.next(false), Next::Start { .. }));
    run.started(None).unwrap();
    run.polled(Poll::Running).unwrap();
    run.polled(Poll::Cancelled).unwrap();
    assert_eq!(run.phase, Phase::Over);
    assert!(run.outcome.cancelled);
    assert!(!run.outcome.success);
    assert_eq!(run.outcome.steps_run, 1);
    assert_eq!(run.outcome.exit_code, None);
    let mut second = StepRun::new(vec![step("echo-alpha"), step("sleep"), step("echo-beta")]);
    assert!(matches!(second.next(false), Next::Start { .. }));
    second.started(None).unwrap();
    second.polled(Poll::Exited { code: Some(0) }).unwrap();
    assert!(matches!(second.next(false), Next::Start { .. }));
    second.started(None).unwrap();
    second.polled(Poll::Cancelled).unwrap();
    assert!(second.outcome.cancelled && !second.outcome.success);
    assert_eq!((second.outcome.steps_run, second.outcome.exit_code), (2, None));
    let mut between = StepRun::new(vec![step("echo-alpha"), step("sleep")]);
    assert!(matches!(between.next(false), Next::Start { .. }));
    between.started(None).unwrap();
    between.polled(Poll::Exited { code: Some(0) }).unwrap();
    assert!(matches!(between.next(true), Next::Finished));
    assert_eq!((between.outcome.steps_run, between.outcome.exit_code), (1, Some(0)));
    let mut early = StepRun::new(vec![step("sleep")]);
    assert!(matches!(early.next(true), Next::Finished));
    assert!(early.outcome.cancelled && !early.outcome.success);
    assert_eq!(early.outcome.steps_run, 0);
}

#[test]
fn a_failed_wait_ends_the_run() {
    let mut run = StepRun::new(vec![step("sleep")]);
    assert!(matches!(run.next(false), Next::Start { .. }));
    run.started(None).unwrap();
    let why = run.polled(Poll::Failed { message: "lost the process".to_string() });
    assert_eq!(why, Err("wait failed: lost the process".to_string()));
    assert!(!run.outcome.success);
}

#[test]
fn probe_reports_file_and_dir_sizes() {
    assert_eq!(probe_bytes(&Probe::File("a.bin".into()), &vec![Some(1234)]), Some(1234));
    assert_eq!(probe_bytes(&Probe::File("missing".into()), &vec![None]), None);
    // A file of 1234 bytes beside a directory with one of 100.
    let mut walk = SizeWalk::new("/d");
    while let Some(dir) = walk.next() {
        let entries = if dir == "/d" {
            vec![
                SizedEntry { kind: EntryKind::File, path: "/d/a.bin".into(), len: Some(1234) },
                SizedEntry { kind: EntryKind::Directory, path: "/d/sub".into(), len: None },
                SizedEntry { kind: EntryKind::Link, path: "/d/link".into(), len: Some(7) },
            ]
        } else {
            vec![SizedEntry { kind: EntryKind::File, path: "/d/sub/b.bin".into(), len: Some(100) }]
        };
        walk.feed(&entries);
    }
    assert_eq!(walk.total, 1334);
    assert_eq!(probe_bytes(&Probe::Dirs(vec!["/d".into()]), &vec![Some(walk.total)]), Some(1334));
    assert_eq!(
        probe_bytes(&Probe::Dirs(vec!["nope".into(), "nope2".into()]), &vec![None, None]),
        None
    );
    assert_eq!(probe_bytes(&Probe::Nothing, &vec![]), None);
}

#[test]
fn wait_for_pid_arg_parses_only_the_flag_form() {
    let a = |v: &[&str]| v.iter().map(|s| s.to_string()).collect::<Vec<_>>();
    assert_eq!(wait_for_pid_arg(&a(&["clean-master.exe", "--wait-for-pid", "4242"])), Some(4242));
    assert_eq!(wait_for_pid_arg(&a(&["clean-master.exe"])), None);
    assert_eq!(wait_for_pid_arg(&a(&["clean-master.exe", "--wait-for-pid"])), None);
    assert_eq!(wait_for_pid_arg(&a(&["clean-master.exe", "--wait-for-pid", "abc"])), None);
}

#[test]
fn relaunched_instance_finds_its_parent() {
    let params = wait_for_pid_params(77);
    assert_eq!(params, "--wait-for-pid 77");
    let mut args = vec!["clean-master.exe".to_string()];
    args.extend(params.split(' ').map(|s| s.to_string()));
    assert_eq!(wait_for_pid_arg(&args), Some(77));
    assert!(relaunch_result(Platform::Windows, 42).is_ok());
    assert!(relaunch_result(Platform::Windows, 5).is_err());
    assert!(relaunch_result(Platform::MacOs, 42).is_err());
}

#[test]
fn mode_parse() {
    assert_eq!(Mode::parse("check"), Some(Mode::Check));
    assert_eq!(Mode::parse("action"), Some(Mode::Action));
    assert_eq!(Mode::parse("open"), Some(Mode::Open));
    assert_eq!(Mode::parse("rm -rf"), None);
}

fn request(id: &str, mode: &str) -> ToolRequest {
    ToolRequest {
        id: id.to_string(),
        mode: mode.to_string(),
        input: None,
        elevated: true,
        busy: false,
        winget: Some("winget.exe".to_string()),
        here: Presence { windows_old: true, hiberfil: true, winget: true },
    }
}

fn refused(q: ToolRequest) -> String {
    match plan_request(Platform::Windows, &env(), &q) {
        Err(why) => why,
        Ok(_) => panic!("must be refused"),
    }
}

#[test]
fn requests_run_catalog_commands() {
    match plan_request(Platform::Windows, &env(), &request("flush_dns", "action")) {
        Ok(ToolPlan::Run(steps)) => {
            assert!(!steps.is_empty());
            assert!(!join_cmds(&steps).is_empty());
        }
        _ => panic!("the action must run"),
    }
    assert!(matches!(
        plan_request(Platform::Windows, &env(), &request("storage_sense", "open")),
        Ok(ToolPlan::Open(_))
    ));
}

#[test]
fn requests_are_refused_with_a_reason() {
    let mut q = request("sfc", "check");
    q.elevated = false;
    assert!(refused(q).contains("administrator"));
    let mut q = request("flush_dns", "action");
    q.busy = true;
    assert!(refused(q).contains("still running"));
    assert!(refused(request("flush_dns", "open")).contains("nothing to open"));
    assert!(!refused(request("no_such_tool", "check")).is_empty());
    assert!(!refused(request("flush_dns", "rm -rf")).is_empty());
    let mut q = request("windows_old", "action");
    q.here.windows_old = false;
    assert_eq!(refused(q), "Tool is not available right now (not_present).");
    let mut q = request("winget_search", "check");
    q.input = Some("--uninstall".to_string());
    assert!(!refused(q).is_empty());
}

#[test]
fn unavailable_tools_say_why() {
    let tool = |id: &str| find_tool(Platform::Windows, &env(), &None, id).unwrap();
    let none = Presence { windows_old: false, hiberfil: false, winget: false };
    assert_eq!(unavailable_reason(&tool("windows_old"), &none), Some("not_present"));
    assert_eq!(unavailable_reason(&tool("hiberfil"), &none), Some("hibernation_off"));
    assert_eq!(unavailable_reason(&tool("winget_search"), &none), Some("winget_missing"));
    assert_eq!(unavailable_reason(&tool("flush_dns"), &none), None);
}

#[test]
fn winget_is_taken_from_the_first_place_that_has_it() {
    let at = |path: &str, is_file: bool| Candidate { path: path.to_string(), is_file };
    let on_path = vec![at("A\\winget.exe", false), at("B\\winget.exe", true)];
    assert_eq!(
        resolve_winget(&on_path, &Some(at("L\\winget.exe", true))).as_deref(),
        Some("B\\winget.exe")
    );
    assert_eq!(
        resolve_winget(&vec![], &Some(at("L\\winget.exe", true))).as_deref(),
        Some("L\\winget.exe")
    );
    assert_eq!(resolve_winget(&vec![], &Some(at("L\\winget.exe", false))), None);
    assert_eq!(resolve_winget(&vec![], &None), None);
}

#[test]
fn files_are_revealed_without_a_shell() {
    let c = reveal_cmd(Platform::Windows, "C:\\a b.txt", true).unwrap();
    assert_eq!((c.program.as_str(), c.args), ("explorer", vec!["/select,C:\\a b.txt".to_string()]));
    let c = reveal_cmd(Platform::MacOs, "/a b", true).unwrap();
    assert_eq!((c.program.as_str(), c.args), ("open", vec!["-R".to_string(), "/a b".to_string()]));
    assert_eq!(reveal_cmd(Platform::MacOs, "/x", false).unwrap_err(), "No longer exists: /x");
    assert_eq!(
        reveal_cmd(Platform::Other, "/x", true).unwrap_err(),
        "Reveal is not supported on this platform."
    );
    assert!(check_idle(false).is_ok());
    assert_eq!(
        check_idle(true).unwrap_err(),
        "A tool is still running. Wait for it or cancel it first."
    );
}

#[test]
fn the_catalog_asks_for_few_variables() {
    let names = catalog_variables(&Some("%CM_X%\\winget.exe".to_string()));
    assert_eq!(names, ["SystemDrive", "SystemDrive", "WINDIR", "WINDIR", "CM_X"]);
    let answers = |names: &[String]| Env {
        vars: names.iter().map(|n| (n.clone(), format!("<{n}>"))).collect(),
    };
    let mut more = answers(&names);
    more.vars.push(("OTHER".to_string(), "o".to_string()));
    let winget = Some("%CM_X%\\winget.exe".to_string());
    let a = builtin_tools(Platform::Windows, &answers(&names), &winget);
    let b = builtin_tools(Platform::Windows, &more, &winget);
    assert_eq!(format!("{a:?}"), format!("{b:?}"));
    assert!(a.iter().any(|t| matches!(&t.probe, Probe::File(p) if p == "<SystemDrive>\\hiberfil.sys")));
}

#[test]
fn names_beyond_ascii_are_the_systems_to_compare() {
    let env = Env { vars: vec![("\u{c9}".to_string(), "v".to_string())] };
    assert_eq!(expand_env(&env, "%\u{c9}%"), "v");
    assert_eq!(expand_env(&env, "%\u{e9}%"), "%\u{e9}%");
}
