//! Startup (autostart) manager: list what runs at login and enable/disable
//! entries reversibly.
//!
//! Disabling NEVER deletes the target program. A disabled entry is moved into a
//! CleanMaster-owned backup store (a registry key for Run values, a folder for
//! Startup-folder shortcuts); enabling moves it back to its exact origin,
//! preserving the original registry value type (`REG_SZ` / `REG_EXPAND_SZ`).
//!
//! Windows-only. On other platforms the list is empty and every change is an
//! error. The caller reads and writes the registry; what is written stands
//! here.
use crate::env::Env;
use crate::order::{is_sorted_copy, key_views, sort_by_keys, SortKey};
use crate::paths::opt_view;
use crate::text::{
    ascii_lowered, char_ascii_lower, chars_of, contains, copy, eq_ignore_ascii_case, find_chars,
    find_from, find_white, find_whitespace, has, lowercase, same_ascii, string_of, to_lowercase,
    trim_bounds, trimmed,
};
use crate::toolbox::{expand_env, substituted};
use crate::types::Platform;
use vstd::prelude::*;

verus! {

// ----------------------------------------------------------------- entries --
/// Where an autostart entry lives. This is enough to locate it for
/// enable/disable and to decide whether admin rights are needed.
#[derive(Debug, Clone, Copy, PartialEq, Eq, Structural)]
pub enum StartupOrigin {
    /// `HKCU\...\CurrentVersion\Run`
    RunCurrentUser,
    /// `HKLM\...\CurrentVersion\Run` (admin to change)
    RunLocalMachine,
    /// `HKLM\...\WOW6432Node\...\Run` (admin to change)
    RunLocalMachineWow64,
    /// Per-user Startup folder
    FolderCurrentUser,
    /// All-users (common) Startup folder (admin to change)
    FolderCommon,
}

/// The two parts of the registry in which startup entries live.
#[derive(Debug, Clone, Copy, PartialEq, Eq, Structural)]
pub enum Hive {
    CurrentUser,
    LocalMachine,
}

pub const RUN_SUBKEY: &'static str = "Software\\Microsoft\\Windows\\CurrentVersion\\Run";

pub const RUN_WOW_SUBKEY: &'static str =
    "Software\\WOW6432Node\\Microsoft\\Windows\\CurrentVersion\\Run";

/// Disabled entries are parked here.
pub const BACKUP_SUBKEY: &'static str = "Software\\CleanMaster\\DisabledStartup";

/// Delayed entries: the ORIGINAL command is parked here (keyed by a hex id
/// derived from origin+name), while the live Run value points at our shim.
pub const DELAYED_SUBKEY: &'static str = "Software\\CleanMaster\\DelayedStartup";

/// The Startup folder below the roaming or the shared application data.
pub const STARTUP_DIR: &'static str = "Microsoft\\Windows\\Start Menu\\Programs\\Startup";

impl StartupOrigin {
    /// Changing it needs administrator rights.
    pub open spec fn admin(self) -> bool {
        self is RunLocalMachine || self is RunLocalMachineWow64 || self is FolderCommon
    }

    pub open spec fn registry(self) -> bool {
        self is RunCurrentUser || self is RunLocalMachine || self is RunLocalMachineWow64
    }

    pub open spec fn label_text(self) -> Seq<char> {
        match self {
            StartupOrigin::RunCurrentUser => "HKCU\\...\\Run"@,
            StartupOrigin::RunLocalMachine => "HKLM\\...\\Run"@,
            StartupOrigin::RunLocalMachineWow64 => "HKLM\\...\\WOW6432Node\\...\\Run"@,
            StartupOrigin::FolderCurrentUser => "Startup folder (this user)"@,
            StartupOrigin::FolderCommon => "Startup folder (all users)"@,
        }
    }

    /// The name of the variant.
    pub open spec fn code(self) -> Seq<char> {
        match self {
            StartupOrigin::RunCurrentUser => "RunCurrentUser"@,
            StartupOrigin::RunLocalMachine => "RunLocalMachine"@,
            StartupOrigin::RunLocalMachineWow64 => "RunLocalMachineWow64"@,
            StartupOrigin::FolderCurrentUser => "FolderCurrentUser"@,
            StartupOrigin::FolderCommon => "FolderCommon"@,
        }
    }

    pub fn requires_admin(self) -> (r: bool)
        ensures
            r == self.admin(),
    {
        match self {
            StartupOrigin::RunLocalMachine
            | StartupOrigin::RunLocalMachineWow64
            | StartupOrigin::FolderCommon => true,
            _ => false,
        }
    }

    pub fn is_registry(self) -> (r: bool)
        ensures
            r == self.registry(),
    {
        match self {
            StartupOrigin::RunCurrentUser
            | StartupOrigin::RunLocalMachine
            | StartupOrigin::RunLocalMachineWow64 => true,
            _ => false,
        }
    }

    pub fn label(self) -> (r: &'static str)
        ensures
            r@ == self.label_text(),
    {
        match self {
            StartupOrigin::RunCurrentUser => "HKCU\\...\\Run",
            StartupOrigin::RunLocalMachine => "HKLM\\...\\Run",
            StartupOrigin::RunLocalMachineWow64 => "HKLM\\...\\WOW6432Node\\...\\Run",
            StartupOrigin::FolderCurrentUser => "Startup folder (this user)",
            StartupOrigin::FolderCommon => "Startup folder (all users)",
        }
    }

    pub fn variant(self) -> (r: &'static str)
        ensures
            r@ == self.code(),
    {
        match self {
            StartupOrigin::RunCurrentUser => "RunCurrentUser",
            StartupOrigin::RunLocalMachine => "RunLocalMachine",
            StartupOrigin::RunLocalMachineWow64 => "RunLocalMachineWow64",
            StartupOrigin::FolderCurrentUser => "FolderCurrentUser",
            StartupOrigin::FolderCommon => "FolderCommon",
        }
    }

    /// The registry key that holds the live entries.
    pub fn origin_key(self) -> (r: Option<(Hive, &'static str)>)
        ensures
            r is Some <==> self.registry(),
            r matches Some(k) ==> (k.0 is CurrentUser <==> self is RunCurrentUser) && k.1@ == (
            if self is RunLocalMachineWow64 {
                "Software\\WOW6432Node\\Microsoft\\Windows\\CurrentVersion\\Run"@
            } else {
                "Software\\Microsoft\\Windows\\CurrentVersion\\Run"@
            }),
    {
        match self {
            StartupOrigin::RunCurrentUser => Some((Hive::CurrentUser, RUN_SUBKEY)),
            StartupOrigin::RunLocalMachine => Some((Hive::LocalMachine, RUN_SUBKEY)),
            StartupOrigin::RunLocalMachineWow64 => Some((Hive::LocalMachine, RUN_WOW_SUBKEY)),
            _ => None,
        }
    }

    /// The variable below whose value the Startup folder is.
    pub fn folder_variable(self) -> (r: Option<&'static str>)
        ensures
            r is Some <==> !self.registry(),
            r matches Some(v) ==> v@ == (if self is FolderCurrentUser {
                "APPDATA"@
            } else {
                "ProgramData"@
            }),
    {
        match self {
            StartupOrigin::FolderCurrentUser => Some("APPDATA"),
            StartupOrigin::FolderCommon => Some("ProgramData"),
            _ => None,
        }
    }

    /// The folder below the backup store in which disabled shortcuts are
    /// parked.
    pub fn parked_in(self) -> (r: Option<&'static str>)
        ensures
            r is Some <==> !self.registry(),
            r matches Some(v) ==> v@ == (if self is FolderCurrentUser {
                "user"@
            } else {
                "common"@
            }),
    {
        match self {
            StartupOrigin::FolderCurrentUser => Some("user"),
            StartupOrigin::FolderCommon => Some("common"),
            _ => None,
        }
    }
}

/// A rough, HONEST estimate of how much an autostart entry slows login. It is a
/// keyword + file-size heuristic over the resolved target exe, NOT Task
/// Manager's measured boot time (Windows exposes no public API for that), so it
/// is always presented as an estimate.
#[derive(Debug, Clone, Copy, PartialEq, Eq, Structural)]
pub enum BootImpact {
    High,
    Medium,
    Low,
}

impl BootImpact {
    /// Stable lowercase id for CSS classes / i18n keys.
    pub fn id(self) -> (r: &'static str)
        ensures
            r@ == match self {
                BootImpact::High => "high"@,
                BootImpact::Medium => "medium"@,
                BootImpact::Low => "low"@,
            },
    {
        match self {
            BootImpact::High => "high",
            BootImpact::Medium => "medium",
            BootImpact::Low => "low",
        }
    }
}

/// One autostart entry, enabled or disabled.
#[derive(Debug)]
pub struct StartupEntry {
    /// Registry value name, or the Startup-folder file name.
    pub name: String,
    /// The command line / target path that runs at login.
    pub command: String,
    pub origin: StartupOrigin,
    pub location_label: String,
    pub enabled: bool,
    /// True when changing this entry needs administrator rights (HKLM /
    /// all-users). Surface it; do not attempt and fail silently.
    pub requires_admin: bool,
    /// Estimated login-slowdown impact (see [`BootImpact`]).
    pub impact: BootImpact,
    /// True when this entry has been delayed: its Run value now launches a
    /// Clean Master shim that waits `delay_secs` before starting the original
    /// program. `command` still reflects the ORIGINAL program, not the shim.
    pub delayed: bool,
    /// Seconds the launch is delayed after login (0 when not delayed).
    pub delay_secs: u32,
}

#[verifier::ext_equal]
pub struct EntryView {
    pub name: Seq<char>,
    pub command: Seq<char>,
    pub origin: StartupOrigin,
    pub location_label: Seq<char>,
    pub enabled: bool,
    pub requires_admin: bool,
    pub impact: BootImpact,
    pub delayed: bool,
    pub delay_secs: u32,
}

impl View for StartupEntry {
    type V = EntryView;

    open spec fn view(&self) -> EntryView {
        EntryView {
            name: self.name@,
            command: self.command@,
            origin: self.origin,
            location_label: self.location_label@,
            enabled: self.enabled,
            requires_admin: self.requires_admin,
            impact: self.impact,
            delayed: self.delayed,
            delay_secs: self.delay_secs,
        }
    }
}

// ----------------------------------------------------------- command lines --
/// The first position of `.exe`, in whatever case.
pub open spec fn exe_suffix(c: Seq<char>) -> Option<int> {
    find_from(ascii_lowered(c), ".exe"@, 0)
}

/// A trimmed command line cut into the program and what follows it: behind the
/// closing quote where it starts with one, else behind the first `.exe`, else
/// at the first white space.
pub open spec fn command_parts(c: Seq<char>) -> (Seq<char>, Seq<char>) {
    if c.len() > 0 && c[0] == '"' {
        match find_from(c, seq!['"'], 1) {
            Some(end) => (c.subrange(1, end), c.skip(end + 1)),
            None => (c.skip(1), Seq::empty()),
        }
    } else {
        match exe_suffix(c) {
            Some(pos) => (c.take(pos + 4), c.skip(pos + 4)),
            None => match find_white(c, 0) {
                Some(end) => (c.take(end), c.skip(end)),
                None => (c, Seq::empty()),
            },
        }
    }
}

/// Where the program of a trimmed command ends and the rest starts.
fn cut_command(cs: &[char]) -> (r: (usize, usize, usize))
    ensures
        r.0 <= r.1 <= r.2 <= cs@.len(),
        command_parts(cs@).0 == cs@.subrange(r.0 as int, r.1 as int),
        command_parts(cs@).1 == cs@.skip(r.2 as int),
{
    let n: usize = cs.len();
    if n > 0 && cs[0] == '"' {
        let quote: Vec<char> = vec!['"'];
        assert(quote@ =~= seq!['"']);
        match find_chars(cs, &quote, 1) {
            Some(end) => (1, end, end + 1),
            None => {
                assert(cs@.subrange(1, n as int) =~= cs@.skip(1));
                assert(cs@.skip(n as int) =~= Seq::empty());
                (1, n, n)
            },
        }
    } else {
        let mut lower: Vec<char> = Vec::new();
        let mut i: usize = 0;
        while i < n
            invariant
                i <= n == cs@.len(),
                lower@ == ascii_lowered(cs@.take(i as int)),
            decreases n - i,
        {
            lower.push(char_ascii_lower(cs[i]));
            i += 1;
            assert(lower@ =~= ascii_lowered(cs@.take(i as int)));
        }
        assert(cs@.take(n as int) =~= cs@);
        let exe: Vec<char> = chars_of(".exe");
        proof {
            reveal_strlit(".exe");
            assert(exe@.len() == 4);
        }
        match find_chars(&lower, &exe, 0) {
            Some(pos) => {
                assert(cs@.subrange(0, pos + 4) =~= cs@.take(pos + 4));
                (0, pos + 4, pos + 4)
            },
            None => match find_whitespace(cs, 0) {
                Some(end) => {
                    assert(cs@.subrange(0, end as int) =~= cs@.take(end as int));
                    (0, end, end)
                },
                None => {
                    assert(cs@.subrange(0, n as int) =~= cs@);
                    assert(cs@.skip(n as int) =~= Seq::empty());
                    (0, n, n)
                },
            },
        }
    }
}

fn trimmed_chars(s: &str) -> (r: Vec<char>)
    ensures
        r@ == trimmed(s@),
{
    let t: String = crate::text::trim(s);
    chars_of(t.as_str())
}

/// The program of a command line.
pub open spec fn exe_of(command: Seq<char>) -> Option<Seq<char>> {
    if trimmed(command).len() == 0 {
        None
    } else {
        Some(command_parts(trimmed(command)).0)
    }
}

/// Pull the target executable path out of a Run command line. Handles a quoted
/// path, an unquoted path ending in `.exe`, and the plain first token. Returns
/// `None` for an empty command.
pub fn exe_path_of(command: &str) -> (r: Option<String>)
    ensures
        opt_view(r) == exe_of(command@),
{
    let cs: Vec<char> = trimmed_chars(command);
    if cs.len() == 0 {
        return None;
    }
    let (from, to, _) = cut_command(&cs);
    Some(string_of(&cs, from, to))
}

/// Split a Run command line into (exe, arguments). Mirrors [`exe_path_of`] for
/// the exe half; the arguments are whatever follows, trimmed.
pub fn split_command(command: &str) -> (r: (String, String))
    ensures
        r.0@ == command_parts(trimmed(command@)).0,
        r.1@ == trimmed(command_parts(trimmed(command@)).1),
{
    let cs: Vec<char> = trimmed_chars(command);
    let n: usize = cs.len();
    let (from, to, rest) = cut_command(&cs);
    let (a, b) = trim_bounds(&cs, rest, n);
    assert(cs@.subrange(rest as int, n as int) =~= cs@.skip(rest as int));
    (string_of(&cs, from, to), string_of(&cs, a, b))
}

// ------------------------------------------------------------------ impact --
/// Substrings (matched on the target exe's file name, lowercased) that mark a
/// program as typically heavy at boot: updaters, cloud sync, and known-large
/// agents. Deliberately conservative - a hit only raises the estimate.
pub open spec fn heavy_keywords() -> Seq<Seq<char>> {
    seq![
        "update"@,
        "updater"@,
        "sync"@,
        "onedrive"@,
        "dropbox"@,
        "googledrive"@,
        "teams"@,
        "steam"@,
        "epicgames"@,
        "adobe"@,
        "creativecloud"@,
        "acrotray"@,
        "docker"@,
        "nvcontainer"@,
        "spotify"@,
        "discord"@,
        "skype"@,
        "backup"@,
        "cloud"@,
        "mcafee"@,
        "norton"@,
    ]
}

fn keywords() -> (r: Vec<&'static str>)
    ensures
        crate::toolbox::strs(r@) == heavy_keywords(),
{
    let r: Vec<&'static str> = vec![
        "update",
        "updater",
        "sync",
        "onedrive",
        "dropbox",
        "googledrive",
        "teams",
        "steam",
        "epicgames",
        "adobe",
        "creativecloud",
        "acrotray",
        "docker",
        "nvcontainer",
        "spotify",
        "discord",
        "skype",
        "backup",
        "cloud",
        "mcafee",
        "norton",
    ];
    assert(crate::toolbox::strs(r@) =~= heavy_keywords());
    r
}

/// One of the words stands in the text.
pub open spec fn has_any(s: Seq<char>, words: Seq<Seq<char>>) -> bool {
    exists|i: int| 0 <= i < words.len() && has(s, #[trigger] words[i])
}

/// Whether one of the words stands in the text.
pub fn contains_any(s: &str, words: &Vec<&'static str>) -> (r: bool)
    ensures
        r == has_any(s@, crate::toolbox::strs(words@)),
{
    let ghost all = crate::toolbox::strs(words@);
    let mut i: usize = 0;
    while i < words.len()
        invariant
            i <= words@.len(),
            all == crate::toolbox::strs(words@),
            forall|k: int| 0 <= k < i ==> !crate::text::has(s@, #[trigger] all[k]),
        decreases words@.len() - i,
    {
        assert(all[i as int] == words@[i as int]@);
        if contains(s, words[i]) {
            return true;
        }
        i += 1;
    }
    false
}

/// What stands behind the last slash.
pub open spec fn last_name(p: Seq<char>) -> Seq<char>
    decreases p.len(),
{
    if p.len() == 0 || p.last() == '\\' || p.last() == '/' {
        Seq::empty()
    } else {
        last_name(p.drop_last()).push(p.last())
    }
}

/// The name of the program of a command, in lower case.
pub open spec fn program_name(command: Seq<char>) -> Seq<char> {
    match exe_of(command) {
        Some(p) => lowercase(last_name(p)),
        None => Seq::empty(),
    }
}

pub const BIG_EXE_BYTES: u64 = 41_943_040;

pub const SMALL_EXE_BYTES: u64 = 2_097_152;

/// The impact, given the name of the program and the size of its file.
pub open spec fn impact_by(name: Seq<char>, exe_size: Option<u64>) -> BootImpact {
    if has_any(name, heavy_keywords()) {
        BootImpact::High
    } else {
        match exe_size {
            Some(size) => if size >= 41_943_040 {
                BootImpact::High
            } else if size < 2_097_152 {
                BootImpact::Low
            } else {
                BootImpact::Medium
            },
            None => BootImpact::Medium,
        }
    }
}

pub fn impact_of_name(name: &str, exe_size: Option<u64>) -> (r: BootImpact)
    ensures
        r == impact_by(name@, exe_size),
{
    if contains_any(name, &keywords()) {
        return BootImpact::High;
    }
    match exe_size {
        Some(size) => if size >= BIG_EXE_BYTES {
            BootImpact::High
        } else if size < SMALL_EXE_BYTES {
            BootImpact::Low
        } else {
            BootImpact::Medium
        },
        None => BootImpact::Medium,
    }
}

/// Classify an entry's boot impact from its command and (optionally) the size
/// of its resolved target exe.
///
/// A known-heavy keyword or a large binary reads as High; a small binary reads
/// as Low; everything else (including an unresolvable target) is Medium - the
/// honest "unknown / typical" bucket.
pub fn classify_impact(command: &str, exe_size: Option<u64>) -> (r: BootImpact)
    ensures
        r == impact_by(program_name(command@), exe_size),
{
    let name: String = match exe_path_of(command) {
        Some(p) => {
            let cs: Vec<char> = chars_of(p.as_str());
            let n: usize = cs.len();
            let mut from: usize = n;
            assert(cs@.take(n as int) =~= cs@);
            assert(cs@.subrange(n as int, n as int) =~= Seq::empty());
            assert(last_name(cs@) + Seq::empty() =~= last_name(cs@));
            while from > 0 && cs[from - 1] != '\\' && cs[from - 1] != '/'
                invariant
                    from <= n == cs@.len(),
                    last_name(cs@) == last_name(cs@.take(from as int)) + cs@.subrange(
                        from as int,
                        n as int,
                    ),
                decreases from,
            {
                proof {
                    let t = cs@.take(from as int);
                    assert(t.drop_last() =~= cs@.take(from - 1));
                    assert(last_name(t.drop_last()).push(t.last()) + cs@.subrange(
                        from as int,
                        n as int,
                    ) =~= last_name(t.drop_last()) + cs@.subrange(from - 1, n as int));
                }
                from -= 1;
            }
            assert(last_name(cs@.take(from as int)) =~= Seq::empty());
            let name: String = string_of(&cs, from, n);
            assert(name@ =~= last_name(cs@));
            to_lowercase(name.as_str())
        },
        None => String::new(),
    };
    impact_of_name(name.as_str(), exe_size)
}

/// The file whose size tells the impact of a command, variables replaced.
pub fn impact_target(env: &Env, command: &str) -> (r: Option<String>)
    ensures
        opt_view(r) == match exe_of(command@) {
            Some(p) => Some(substituted(*env, p)),
            None => None,
        },
{
    match exe_path_of(command) {
        Some(p) => Some(expand_env(env, p.as_str())),
        None => None,
    }
}

// ----------------------------------------------------------------- listing --
/// An entry as it is listed, given the size of the file of its program.
pub open spec fn listed(
    origin: StartupOrigin,
    name: Seq<char>,
    command: Seq<char>,
    enabled: bool,
    exe_size: Option<u64>,
) -> EntryView {
    EntryView {
        name,
        command,
        origin,
        location_label: origin.label_text(),
        enabled,
        requires_admin: origin.admin(),
        impact: impact_by(program_name(command), exe_size),
        delayed: false,
        delay_secs: 0,
    }
}

pub fn entry(
    origin: StartupOrigin,
    name: String,
    command: String,
    enabled: bool,
    exe_size: Option<u64>,
) -> (r: StartupEntry)
    ensures
        r@ == listed(origin, name@, command@, enabled, exe_size),
{
    let impact: BootImpact = classify_impact(command.as_str(), exe_size);
    StartupEntry {
        name,
        command,
        origin,
        location_label: copy(origin.label()),
        enabled,
        requires_admin: origin.requires_admin(),
        impact,
        delayed: false,
        delay_secs: 0,
    }
}

/// Whether a file of a Startup folder is an entry: neither a directory nor the
/// folder's own settings file.
pub fn is_startup_file(name: &str, is_dir: bool) -> (r: bool)
    ensures
        r == (!is_dir && !same_ascii(name@, "desktop.ini"@)),
{
    !is_dir && !eq_ignore_ascii_case(name, "desktop.ini")
}

/// Entries are ordered by name in lower case.
pub open spec fn name_keys(v: Seq<StartupEntry>) -> Seq<(u64, Seq<char>)> {
    v.map_values(|e: StartupEntry| (0u64, lowercase(e.name@)))
}

/// All autostart entries (Run keys + Startup folders), enabled and disabled,
/// sorted by name. Empty on non-Windows.
pub fn list(platform: Platform, found: Vec<StartupEntry>) -> (r: Vec<StartupEntry>)
    ensures
        if platform is Windows {
            is_sorted_copy(found@, name_keys(found@), r@)
        } else {
            r@.len() == 0
        },
{
    match platform {
        Platform::Windows => {},
        _ => {
            return Vec::new();
        },
    }
    let mut keys: Vec<SortKey> = Vec::new();
    let mut i: usize = 0;
    while i < found.len()
        invariant
            i <= found@.len(),
            keys@.len() == i,
            forall|k: int| 0 <= k < i ==> (#[trigger] keys@[k])@ == name_keys(found@)[k],
        decreases found@.len() - i,
    {
        let lower: String = to_lowercase(found[i].name.as_str());
        keys.push(SortKey { rank: 0, name: chars_of(lower.as_str()) });
        i += 1;
    }
    assert(key_views(keys@) =~= name_keys(found@));
    sort_by_keys(found, &keys)
}

} // verus!
