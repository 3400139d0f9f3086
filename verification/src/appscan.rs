//! Installed-software discovery for the App Manager screen: list installed
//! programs with size / install date / a best-effort "last used" estimate, and
//! flag removal candidates (long unused, old install, known bundleware).
//!
//! Safety by construction: this module never deletes anything. On Windows the
//! caller launches the vendor's own `UninstallString` (exactly what Settings >
//! Apps does); on macOS the caller recycles the .app bundle through the
//! standard manifest/undo pipeline. Heuristics only ever produce *flags* -
//! removal is always the user's explicit per-app choice.
use crate::civil::{civil_days, date_parts, date_seconds, install_date_unix};
use crate::order::{
    descending, is_sorted_copy, key_views, rank_descending, sort_by_keys, SortKey,
};
use crate::paths::{name_extension, name_extension_of, opt_view};
use crate::startup::{contains_any, has_any, Hive};
use crate::text::{
    char_is_digit, chars_of, copy, digits_value, ends_with, eq_ignore_ascii_case, i64_value,
    is_blank, is_digit, join3, lowercase, same, same_ascii, starts_with, string_of, to_lowercase,
    trim, trimmed, views,
};
use crate::types::Platform;
use vstd::prelude::*;
use vstd::utf8::encode_utf8;

verus! {

/// How an app is removed. It is derived again by index; nothing here is ever
/// accepted from the webview.
#[derive(Debug)]
pub enum AppRemoval {
    /// Windows: spawn this registry-provided command (vendor uninstaller).
    WindowsUninstall { uninstall_string: String },
    /// macOS: move this .app bundle to the Trash (undo-able).
    MacBundle { path: String },
}

#[derive(Debug)]
pub struct InstalledApp {
    pub name: String,
    pub version: String,
    pub publisher: String,
    /// "YYYY-MM-DD" or empty when the platform does not record it.
    pub install_date: String,
    /// 0 = unknown (never fabricated).
    pub size_bytes: u64,
    pub location: String,
    /// Unix seconds of the newest executable access/modify time in the install
    /// location; 0 = unknown. An estimate, labeled so in the UI.
    pub last_used_unix: i64,
    /// "unused" | "old" | "bundleware" (any subset, ordered).
    pub flags: Vec<String>,
    pub removal: AppRemoval,
}

#[verifier::ext_equal]
pub struct AppView {
    pub name: Seq<char>,
    pub version: Seq<char>,
    pub publisher: Seq<char>,
    pub install_date: Seq<char>,
    pub size_bytes: u64,
    pub location: Seq<char>,
    pub last_used_unix: i64,
    pub flags: Seq<Seq<char>>,
    /// The command of the vendor's uninstaller.
    pub uninstall: Option<Seq<char>>,
    /// The bundle to recycle.
    pub bundle: Option<Seq<char>>,
}

impl View for InstalledApp {
    type V = AppView;

    open spec fn view(&self) -> AppView {
        AppView {
            name: self.name@,
            version: self.version@,
            publisher: self.publisher@,
            install_date: self.install_date@,
            size_bytes: self.size_bytes,
            location: self.location@,
            last_used_unix: self.last_used_unix,
            flags: views(self.flags@),
            uninstall: match self.removal {
                AppRemoval::WindowsUninstall { uninstall_string } => Some(uninstall_string@),
                _ => None,
            },
            bundle: match self.removal {
                AppRemoval::MacBundle { path } => Some(path@),
                _ => None,
            },
        }
    }
}

/// The views of a list of apps.
pub open spec fn app_views(v: Seq<InstalledApp>) -> Seq<AppView> {
    v.map_values(|a: InstalledApp| a@)
}

// -------------------------------------------------------------- heuristics --
/// No launch evidence for this long -> "unused".
pub const UNUSED_AFTER_DAYS: i64 = 180;

/// Installed this long ago AND stale -> "old".
pub const OLD_INSTALL_DAYS: i64 = 365;

pub const OLD_STALE_USE_DAYS: i64 = 90;

/// Known bundleware / rider software, matched case-insensitively against name +
/// publisher. Deliberately short and unambiguous: a match is evidence shown to
/// the user, never an automatic action.
pub open spec fn bundleware_patterns() -> Seq<Seq<char>> {
    seq![
        "2345"@,
        "hao123"@,
        "toolbar"@,
        "webadvisor"@,
        "web companion"@,
        "search protect"@,
        "wildtangent"@,
        "pc app store"@,
        "mcafee security scan"@,
        "driver updater"@,
    ]
}

fn patterns() -> (r: Vec<&'static str>)
    ensures
        crate::toolbox::strs(r@) == bundleware_patterns(),
{
    let r: Vec<&'static str> = vec![
        "2345",
        "hao123",
        "toolbar",
        "webadvisor",
        "web companion",
        "search protect",
        "wildtangent",
        "pc app store",
        "mcafee security scan",
        "driver updater",
    ];
    assert(crate::toolbox::strs(r@) =~= bundleware_patterns());
    r
}

pub open spec fn bundled(name: Seq<char>, publisher: Seq<char>) -> bool {
    has_any(lowercase(name + " "@ + publisher), bundleware_patterns())
}

pub fn is_bundleware(name: &str, publisher: &str) -> (r: bool)
    ensures
        r == bundled(name@, publisher@),
{
    let both: String = join3(name, " ", publisher);
    let hay: String = to_lowercase(both.as_str());
    has_bundleware_word(hay.as_str())
}

/// Whether lower-case text holds one of the patterns.
pub fn has_bundleware_word(hay: &str) -> (r: bool)
    ensures
        r == has_any(hay@, bundleware_patterns()),
{
    contains_any(hay, &patterns())
}

/// The first four characters behind `KB`, or all where there are fewer, are
/// digits, and the name is longer than four bytes.
pub open spec fn is_kb_number(n: Seq<char>) -> bool {
    &&& "KB"@.is_prefix_of(n)
    &&& forall|i: int| 2 <= i < n.len() && i < 6 ==> is_digit(#[trigger] n[i])
    &&& encode_utf8(n).len() > 4
}

/// A trimmed name, and the same in lower case, is that of an update.
pub open spec fn names_update(n: Seq<char>, lower: Seq<char>) -> bool {
    is_kb_number(n) || "update for "@.is_prefix_of(lower) || "security update for "@.is_prefix_of(
        lower,
    ) || "hotfix for "@.is_prefix_of(lower)
}

pub fn is_update_name(n: &str, lower: &str) -> (r: bool)
    ensures
        r == names_update(n@, lower@),
{
    let cs: Vec<char> = chars_of(n);
    let len: usize = cs.len();
    let mut digits: bool = true;
    let mut i: usize = 2;
    while i < len && i < 6
        invariant
            2 <= i,
            i <= 6,
            len == cs@.len(),
            cs@ == n@,
            i <= len || i == 2,
            digits <==> forall|k: int| 2 <= k < len && k < i ==> is_digit(#[trigger] n@[k]),
        decreases 6 - i,
    {
        if !char_is_digit(cs[i]) {
            assert(!is_digit(n@[i as int]));
            digits = false;
        }
        i += 1;
    }
    (starts_with(n, "KB") && digits && n.as_bytes().len() > 4) || starts_with(lower, "update for ")
        || starts_with(lower, "security update for ") || starts_with(lower, "hotfix for ")
}

/// Registry entries that are OS patches, not applications.
pub fn is_update_entry(name: &str) -> (r: bool)
    ensures
        r == names_update(trimmed(name@), lowercase(trimmed(name@))),
{
    let n: String = trim(name);
    let lower: String = to_lowercase(n.as_str());
    is_update_name(n.as_str(), lower.as_str())
}

/// Eight digits.
pub open spec fn is_compact_date(d: Seq<char>) -> bool {
    d.len() == 8 && forall|i: int| 0 <= i < 8 ==> is_digit(#[trigger] d[i])
}

/// Eight digits as year, month and day.
pub open spec fn dashed(d: Seq<char>) -> Seq<char> {
    d.subrange(0, 4) + seq!['-'] + d.subrange(4, 6) + seq!['-'] + d.subrange(6, 8)
}

/// "20230112" -> "2023-01-12".
pub open spec fn iso_date(raw: Seq<char>) -> Option<Seq<char>> {
    if is_compact_date(trimmed(raw)) {
        Some(dashed(trimmed(raw)))
    } else {
        None
    }
}

/// "20230112" -> "2023-01-12". Anything malformed -> None.
pub fn parse_install_date(raw: &str) -> (r: Option<String>)
    ensures
        opt_view(r) == iso_date(raw@),
{
    let d: String = trim(raw);
    let cs: Vec<char> = chars_of(d.as_str());
    if cs.len() != 8 {
        return None;
    }
    let mut i: usize = 0;
    while i < 8
        invariant
            i <= 8,
            cs@.len() == 8,
            cs@ == trimmed(raw@),
            forall|k: int| 0 <= k < i ==> is_digit(#[trigger] cs@[k]),
        decreases 8 - i,
    {
        if !char_is_digit(cs[i]) {
            assert(!is_digit(trimmed(raw@)[i as int]));
            return None;
        }
        i += 1;
    }
    let mut out: String = string_of(&cs, 0, 4);
    out.push('-');
    out.push_str(string_of(&cs, 4, 6).as_str());
    out.push('-');
    out.push_str(string_of(&cs, 6, 8).as_str());
    assert(out@ =~= dashed(trimmed(raw@)));
    Some(out)
}

/// So many whole days have passed.
pub open spec fn days_passed(now: i64, then: i64, days: int) -> bool {
    now - then >= days * 86_400
}

/// The flags of an app. Unknown times never create a flag on their own.
pub open spec fn app_flags(
    now: i64,
    install: Option<i64>,
    used: Option<i64>,
    bundleware: bool,
) -> Seq<Seq<char>> {
    let unused = match used {
        Some(t) => days_passed(now, t, 181),
        None => false,
    };
    let stale = match used {
        Some(t) => days_passed(now, t, 91),
        None => true,
    };
    let old = match install {
        Some(t) => days_passed(now, t, 366) && stale,
        None => false,
    };
    (if unused {
        seq!["unused"@]
    } else {
        Seq::empty()
    }) + (if old {
        seq!["old"@]
    } else {
        Seq::empty()
    }) + (if bundleware {
        seq!["bundleware"@]
    } else {
        Seq::empty()
    })
}

/// The span between two times fits a machine number.
pub open spec fn span_fits(now: i64, then: Option<i64>) -> bool {
    then matches Some(t) ==> i64::MIN <= now - t <= i64::MAX
}

/// Without evidence of when a program was installed or used, it is flagged for
/// its maker alone.
pub proof fn law_unknown_is_never_flagged(now: i64, bundleware: bool)
    ensures
        app_flags(now, None, None, false) == Seq::<Seq<char>>::empty(),
        app_flags(now, None, None, bundleware).len() == if bundleware {
            1nat
        } else {
            0nat
        },
{
    assert(app_flags(now, None, None, false) =~= Seq::empty());
}

/// Pure flag computation. `install_unix` / `last_used_unix`: None = unknown.
/// Unknown never *creates* a flag on its own - we only flag on evidence.
pub fn classify(
    now_unix: i64,
    install_unix: Option<i64>,
    last_used_unix: Option<i64>,
    bundleware: bool,
) -> (r: Vec<String>)
    requires
        span_fits(now_unix, install_unix),
        span_fits(now_unix, last_used_unix),
    ensures
        views(r@) == app_flags(now_unix, install_unix, last_used_unix, bundleware),
{
    let mut flags: Vec<String> = Vec::new();
    let mut stale: bool = true;
    match last_used_unix {
        Some(t) => {
            let age: i64 = now_unix - t;
            if age >= (UNUSED_AFTER_DAYS + 1) * 86_400 {
                flags.push(copy("unused"));
            }
            stale = age >= (OLD_STALE_USE_DAYS + 1) * 86_400;
        },
        None => {},
    }
    match install_unix {
        Some(t) => {
            if now_unix - t >= (OLD_INSTALL_DAYS + 1) * 86_400 && stale {
                flags.push(copy("old"));
            }
        },
        None => {},
    }
    if bundleware {
        flags.push(copy("bundleware"));
    }
    assert(views(flags@) =~= app_flags(now_unix, install_unix, last_used_unix, bundleware));
    flags
}

// ---------------------------------------------------------------- evidence --
/// A file of a directory with the times that it carries (Unix seconds; times
/// before the epoch are left out).
pub struct TimedFile {
    pub name: String,
    pub is_file: bool,
    pub accessed: Option<i64>,
    pub modified: Option<i64>,
}

/// A file whose extension matches (empty = any file).
pub open spec fn counts_as(f: TimedFile, ext: Seq<char>) -> bool {
    f.is_file && (ext.len() == 0 || match name_extension(f.name@) {
        Some(e) => same_ascii(e, ext),
        None => false,
    })
}

/// The later of two times.
pub open spec fn later(a: Option<i64>, b: Option<i64>) -> Option<i64> {
    match (a, b) {
        (Some(x), Some(y)) => if y > x {
            b
        } else {
            a
        },
        (None, _) => b,
        (_, None) => a,
    }
}

/// The newest time of the files that match.
pub open spec fn newest(v: Seq<TimedFile>, ext: Seq<char>) -> Option<i64>
    decreases v.len(),
{
    if v.len() == 0 {
        None
    } else {
        let before = newest(v.drop_last(), ext);
        if counts_as(v.last(), ext) {
            later(later(before, v.last().accessed), v.last().modified)
        } else {
            before
        }
    }
}

fn later_of(a: Option<i64>, b: Option<i64>) -> (r: Option<i64>)
    ensures
        r == later(a, b),
{
    match (a, b) {
        (Some(x), Some(y)) => if y > x {
            Some(y)
        } else {
            Some(x)
        },
        (Some(x), None) => Some(x),
        (None, b) => b,
    }
}

/// Newest access-or-modified time (unix secs) among the top-level files of a
/// directory whose extension matches `ext` (empty = any file). Bounded: only
/// the first 512 entries count. `None` for a directory that cannot be read.
pub fn newest_file_time_in(dir: &Option<Vec<TimedFile>>, ext: &str) -> (r: Option<i64>)
    ensures
        r == match *dir {
            Some(v) => newest(
                if v@.len() <= 512 {
                    v@
                } else {
                    v@.take(512)
                },
                ext@,
            ),
            None => None,
        },
{
    let v: &Vec<TimedFile> = match dir {
        Some(v) => v,
        None => {
            return None;
        },
    };
    let n: usize = if v.len() <= 512 {
        v.len()
    } else {
        512
    };
    let any: bool = ext.unicode_len() == 0;
    let mut best: Option<i64> = None;
    let mut i: usize = 0;
    while i < n
        invariant
            i <= n <= v@.len(),
            any == (ext@.len() == 0),
            best == newest(v@.take(i as int), ext@),
        decreases n - i,
    {
        assert(v@.take(i + 1).drop_last() =~= v@.take(i as int));
        let f: &TimedFile = &v[i];
        let fits: bool = any || match name_extension_of(f.name.as_str()) {
            Some(e) => eq_ignore_ascii_case(e.as_str(), ext),
            None => false,
        };
        if f.is_file && fits {
            best = later_of(later_of(best, f.accessed), f.modified);
        }
        i += 1;
    }
    assert(v@.take(v@.len() as int) =~= v@);
    best
}

// ------------------------------------------------------------------ orders --
/// What a list of apps is sorted by.
#[derive(Debug, Clone, Copy, PartialEq, Eq, Structural)]
pub enum AppOrder {
    /// Longer locations first.
    Location,
    /// Bigger apps first.
    Size,
    Version,
    /// By name, in lower case.
    Name,
    /// Bigger apps first, then by name in lower case.
    SizeAndName,
}

pub open spec fn app_key(by: AppOrder, a: InstalledApp) -> (u64, Seq<char>) {
    match by {
        AppOrder::Location => (descending(encode_utf8(a.location@).len() as u64), Seq::empty()),
        AppOrder::Size => (descending(a.size_bytes), Seq::empty()),
        AppOrder::Version => (0, a.version@),
        AppOrder::Name => (0, lowercase(a.name@)),
        AppOrder::SizeAndName => (descending(a.size_bytes), lowercase(a.name@)),
    }
}

pub open spec fn app_keys(by: AppOrder, v: Seq<InstalledApp>) -> Seq<(u64, Seq<char>)> {
    v.map_values(|a: InstalledApp| app_key(by, a))
}

pub open spec fn app_sorted(
    by: AppOrder,
    input: Seq<InstalledApp>,
    out: Seq<InstalledApp>,
) -> bool {
    is_sorted_copy(input, app_keys(by, input), out)
}

fn sort_apps(by: AppOrder, v: Vec<InstalledApp>) -> (r: Vec<InstalledApp>)
    ensures
        app_sorted(by, v@, r@),
{
    let mut keys: Vec<SortKey> = Vec::new();
    let mut i: usize = 0;
    while i < v.len()
        invariant
            i <= v@.len(),
            keys@.len() == i,
            forall|k: int| 0 <= k < i ==> (#[trigger] keys@[k])@ == app_key(by, v@[k]),
        decreases v@.len() - i,
    {
        let a: &InstalledApp = &v[i];
        let key: SortKey = match by {
            AppOrder::Location => SortKey {
                rank: rank_descending(a.location.as_str().as_bytes().len() as u64),
                name: Vec::new(),
            },
            AppOrder::Size => SortKey { rank: rank_descending(a.size_bytes), name: Vec::new() },
            AppOrder::Version => SortKey { rank: 0, name: chars_of(a.version.as_str()) },
            AppOrder::Name => SortKey {
                rank: 0,
                name: chars_of(to_lowercase(a.name.as_str()).as_str()),
            },
            AppOrder::SizeAndName => SortKey {
                rank: rank_descending(a.size_bytes),
                name: chars_of(to_lowercase(a.name.as_str()).as_str()),
            },
        };
        assert(key@ == app_key(by, *a)) by {
            assert(key.name@ =~= app_key(by, *a).1);
        }
        keys.push(key);
        i += 1;
    }
    assert(key_views(keys@) =~= app_keys(by, v@));
    sort_by_keys(v, &keys)
}

// ------------------------------------------------------------ Windows scan --
/// Where Windows keeps its list of programs.
pub fn uninstall_keys() -> (r: Vec<(Hive, &'static str)>)
    ensures
        r@ == seq![
            (
                Hive::LocalMachine,
                "SOFTWARE\\Microsoft\\Windows\\CurrentVersion\\Uninstall",
            ),
            (
                Hive::LocalMachine,
                "SOFTWARE\\WOW6432Node\\Microsoft\\Windows\\CurrentVersion\\Uninstall",
            ),
            (
                Hive::CurrentUser,
                "SOFTWARE\\Microsoft\\Windows\\CurrentVersion\\Uninstall",
            ),
        ],
{
    vec![
        (Hive::LocalMachine, "SOFTWARE\\Microsoft\\Windows\\CurrentVersion\\Uninstall"),
        (
            Hive::LocalMachine,
            "SOFTWARE\\WOW6432Node\\Microsoft\\Windows\\CurrentVersion\\Uninstall",
        ),
        (Hive::CurrentUser, "SOFTWARE\\Microsoft\\Windows\\CurrentVersion\\Uninstall"),
    ]
}

/// The values of one program in the registry; empty or 0 where there is none.
pub struct UninstallEntry {
    pub name: String,
    pub system_component: u32,
    pub parent: String,
    pub uninstall: String,
    pub publisher: String,
    pub version: String,
    pub location: String,
    pub install_date: String,
    /// In KB.
    pub size_kb: u32,
}

/// A program of its own: it has a name and an uninstaller, and is neither an
/// update nor a part of the system or of another program.
pub open spec fn is_program(e: UninstallEntry) -> bool {
    let name = trimmed(e.name@);
    &&& name.len() > 0
    &&& !names_update(trimmed(name), lowercase(trimmed(name)))
    &&& e.system_component != 1
    &&& trimmed(e.parent@).len() == 0
    &&& trimmed(e.uninstall@).len() > 0
}

pub fn is_application(e: &UninstallEntry) -> (r: bool)
    ensures
        r == is_program(*e),
{
    let name: String = trim(e.name.as_str());
    name.as_str().unicode_len() > 0 && !is_update_entry(name.as_str()) && e.system_component != 1
        && is_blank(e.parent.as_str()) && !is_blank(e.uninstall.as_str())
}

/// When a program was installed, where that is known.
pub open spec fn installed_at(raw: Seq<char>) -> Option<i64> {
    match iso_date(raw) {
        Some(iso) => match date_seconds(iso) {
            Some(n) => Some(n as i64),
            None => None,
        },
        None => None,
    }
}

/// A registry date is at most in the year 9999.
proof fn lemma_registry_date(d: Seq<char>)
    requires
        is_compact_date(d),
    ensures
        date_seconds(dashed(d)) matches Some(n) ==> i64::MIN <= n <= 1_000_000_000_000,
{
    let s = dashed(d);
    match date_parts(s) {
        Some((y, m, day)) => {
            reveal_with_fuel(crate::civil::dash_from, 6);
            assert(s.len() == 10);
            assert forall|i: int| 0 <= i < 4 implies s[i] != '-' by {
                assert(s[i] == d[i]);
                assert(is_digit(d[i]));
            }
            assert(s[4] == '-');
            assert(crate::civil::dash_from(s, 0) == Some(4int));
            let ys = s.take(4);
            assert(ys =~= d.subrange(0, 4));
            assert(ys[0] == d[0] && is_digit(d[0]));
            assert(i64_value(ys) == Some(y as i64));
            reveal_with_fuel(digits_value, 5);
            assert(ys.drop_last() =~= d.subrange(0, 3));
            assert(ys.drop_last().drop_last() =~= d.subrange(0, 2));
            assert(ys.drop_last().drop_last().drop_last() =~= d.subrange(0, 1));
            assert(is_digit(d[0]) && is_digit(d[1]) && is_digit(d[2]) && is_digit(d[3]));
            assert(0 <= y <= 9999);
            crate::civil::lemma_months(y);
            assert(civil_days(y, m, day) <= 365 * 10_000 + 2600 + 400);
            assert(civil_days(y, m, day) >= -800_000);
        },
        None => {},
    }
}

/// An app as the registry and the files beside it show it.
pub open spec fn program_app(now: i64, e: UninstallEntry, files: Option<Vec<TimedFile>>) -> AppView {
    let name = trimmed(e.name@);
    let location = trimmed(e.location@);
    let used = program_used(e, files);
    AppView {
        name,
        version: e.version@,
        publisher: e.publisher@,
        install_date: match iso_date(e.install_date@) {
            Some(iso) => iso,
            None => Seq::empty(),
        },
        size_bytes: (e.size_kb * 1024) as u64,
        location,
        last_used_unix: match used {
            Some(t) => t,
            None => 0,
        },
        flags: app_flags(now, installed_at(e.install_date@), used, bundled(name, e.publisher@)),
        uninstall: Some(trimmed(e.uninstall@)),
        bundle: None,
    }
}

/// When a program was last used: the newest time of a program file in its
/// location.
pub open spec fn program_used(e: UninstallEntry, files: Option<Vec<TimedFile>>) -> Option<i64> {
    if trimmed(e.location@).len() == 0 {
        None
    } else {
        match files {
            Some(v) => newest(
                if v@.len() <= 512 {
                    v@
                } else {
                    v@.take(512)
                },
                "exe"@,
            ),
            None => None,
        }
    }
}

/// The times of a program can be compared with `now`.
pub open spec fn program_spans_fit(
    now: i64,
    e: UninstallEntry,
    files: Option<Vec<TimedFile>>,
) -> bool {
    span_fits(now, installed_at(e.install_date@)) && span_fits(now, program_used(e, files))
}

/// The app of a program. `files` are the files of its location.
pub fn windows_app(now_unix: i64, e: &UninstallEntry, files: &Option<Vec<TimedFile>>) -> (r:
    InstalledApp)
    requires
        program_spans_fit(now_unix, *e, *files),
    ensures
        r@ == program_app(now_unix, *e, *files),
{
    let name: String = trim(e.name.as_str());
    let location: String = trim(e.location.as_str());
    let parsed: Option<String> = parse_install_date(e.install_date.as_str());
    let (install_date, install): (String, Option<i64>) = match parsed {
        Some(iso) => {
            proof {
                lemma_registry_date(trimmed(e.install_date@));
            }
            let at: Option<i64> = install_date_unix(iso.as_str());
            (iso, at)
        },
        None => (String::new(), None),
    };
    let used: Option<i64> = if is_blank(location.as_str()) {
        None
    } else {
        newest_file_time_in(files, "exe")
    };
    proof {
        lemma_trimmed_twice(e.location@);
    }
    let bundleware: bool = is_bundleware(name.as_str(), e.publisher.as_str());
    let flags: Vec<String> = classify(now_unix, install, used, bundleware);
    let r: InstalledApp = InstalledApp {
        name,
        version: e.version.clone(),
        publisher: e.publisher.clone(),
        install_date,
        size_bytes: e.size_kb as u64 * 1024,
        location,
        last_used_unix: match used {
            Some(t) => t,
            None => 0,
        },
        flags,
        removal: AppRemoval::WindowsUninstall { uninstall_string: trim(e.uninstall.as_str()) },
    };
    assert(r@ =~= program_app(now_unix, *e, *files));
    r
}

/// Trimming leaves nothing to trim.
proof fn lemma_trimmed_twice(s: Seq<char>)
    ensures
        trimmed(s).len() == 0 <==> trimmed(trimmed(s)).len() == 0,
{
    let t = crate::text::trimmed_start(s);
    lemma_trimmed_start(s);
    lemma_trimmed_end(t);
    let u = crate::text::trimmed_end(t);
    if u.len() > 0 {
        assert(!crate::text::is_white(u[0]));
        assert(crate::text::trimmed_start(u) == u);
        assert(crate::text::trimmed_end(u) == u);
    } else {
        assert(trimmed(u).len() == 0);
    }
}

proof fn lemma_trimmed_start(s: Seq<char>)
    ensures
        crate::text::trimmed_start(s).len() > 0 ==> !crate::text::is_white(
            crate::text::trimmed_start(s)[0],
        ),
    decreases s.len(),
{
    if s.len() > 0 && crate::text::is_white(s[0]) {
        lemma_trimmed_start(s.skip(1));
    }
}

proof fn lemma_trimmed_end(s: Seq<char>)
    ensures
        crate::text::trimmed_end(s).len() > 0 ==> crate::text::trimmed_end(s)[0] == s[0]
            && !crate::text::is_white(crate::text::trimmed_end(s).last()),
        crate::text::trimmed_end(s).len() <= s.len(),
    decreases s.len(),
{
    if s.len() > 0 && crate::text::is_white(s.last()) {
        lemma_trimmed_end(s.drop_last());
    }
}

/// One program that was found.
pub struct FoundProgram {
    pub entry: UninstallEntry,
    pub files: Option<Vec<TimedFile>>,
}

/// The apps of the programs that count, in order.
pub open spec fn program_apps(now: i64, found: Seq<FoundProgram>) -> Seq<AppView>
    decreases found.len(),
{
    if found.len() == 0 {
        Seq::empty()
    } else {
        let before = program_apps(now, found.drop_last());
        let p = found.last();
        if is_program(p.entry) {
            before.push(program_app(now, p.entry, p.files))
        } else {
            before
        }
    }
}

/// The same product twice: names equal but for the case of ASCII letters, and
/// the same version.
pub open spec fn same_product(a: InstalledApp, b: InstalledApp) -> bool {
    same_ascii(a.name@, b.name@) && a.version@ == b.version@
}

/// Of neighbours that are the same product the first stays.
pub open spec fn deduped(v: Seq<InstalledApp>) -> Seq<InstalledApp>
    decreases v.len(),
{
    if v.len() == 0 {
        Seq::empty()
    } else {
        let before = deduped(v.drop_last());
        if before.len() > 0 && same_product(v.last(), before.last()) {
            before
        } else {
            before.push(v.last())
        }
    }
}

fn dedup_apps(v: Vec<InstalledApp>) -> (r: Vec<InstalledApp>)
    ensures
        r@ == deduped(v@),
{
    let ghost all = v@;
    let mut rest: Vec<InstalledApp> = v;
    let mut back: Vec<InstalledApp> = Vec::new();
    while rest.len() > 0
        invariant
            rest@ + back@.reverse() == all,
        decreases rest@.len(),
    {
        let ghost before = rest@;
        let ghost turned = back@;
        match rest.pop() {
            Some(a) => {
                back.push(a);
                assert(rest@ + back@.reverse() =~= before + turned.reverse());
            },
            None => {},
        }
    }
    assert(back@.reverse() =~= all);
    let mut out: Vec<InstalledApp> = Vec::new();
    let ghost n = all.len();
    assert(all.take(0) =~= Seq::empty());
    while back.len() > 0
        invariant
            back@.len() <= n == all.len(),
            back@.reverse() == all.skip(n - back@.len()),
            out@ == deduped(all.take(n - back@.len())),
        decreases back@.len(),
    {
        let ghost i = n - back@.len();
        let ghost turned = back@;
        match back.pop() {
            Some(a) => {
                proof {
                    assert(a == turned.reverse()[0]);
                    assert(a == all[i]);
                    assert(back@.reverse() =~= all.skip(i + 1)) by {
                        assert forall|k: int| 0 <= k < back@.len() implies back@.reverse()[k]
                            == all.skip(i + 1)[k] by {
                            assert(back@.reverse()[k] == turned.reverse()[k + 1]);
                            assert(all.skip(i)[k + 1] == all[i + 1 + k]);
                        }
                    }
                    assert(all.take(i + 1).drop_last() =~= all.take(i));
                    assert(all.take(i + 1).last() == a);
                }
                let n_out: usize = out.len();
                let twice: bool = n_out > 0 && eq_ignore_ascii_case(
                    a.name.as_str(),
                    out[n_out - 1].name.as_str(),
                ) && same(a.version.as_str(), out[n_out - 1].version.as_str());
                if !twice {
                    out.push(a);
                }
            },
            None => {},
        }
    }
    assert(all.take(n as int) =~= all);
    out
}

/// The list of Windows: programs sorted by name and version, of the same
/// product the bigger one, then the one with the longer location, first - and
/// only the first of each kept.
pub open spec fn windows_list(raw: Seq<InstalledApp>, out: Seq<InstalledApp>) -> bool {
    exists|a: Seq<InstalledApp>,
        b: Seq<InstalledApp>,
        c: Seq<InstalledApp>,
        d: Seq<InstalledApp>| #[trigger]
        app_sorted(AppOrder::Location, raw, a) && #[trigger] app_sorted(AppOrder::Size, a, b)
            && #[trigger] app_sorted(AppOrder::Version, b, c) && #[trigger] app_sorted(
            AppOrder::Name,
            c,
            d,
        ) && out == deduped(d)
}

/// The installed programs of Windows.
pub fn windows_apps(now_unix: i64, found: &Vec<FoundProgram>) -> (r: Vec<InstalledApp>)
    requires
        forall|i: int|
            0 <= i < found@.len() ==> program_spans_fit(
                now_unix,
                (#[trigger] found@[i]).entry,
                found@[i].files,
            ),
    ensures
        exists|raw: Seq<InstalledApp>|
            app_views(raw) == program_apps(now_unix, found@) && #[trigger] windows_list(raw, r@),
{
    let mut apps: Vec<InstalledApp> = Vec::new();
    let mut i: usize = 0;
    assert(found@.take(0) =~= Seq::empty());
    assert(app_views(apps@) =~= Seq::empty());
    while i < found.len()
        invariant
            i <= found@.len(),
            forall|k: int|
                0 <= k < found@.len() ==> program_spans_fit(
                    now_unix,
                    (#[trigger] found@[k]).entry,
                    found@[k].files,
                ),
            app_views(apps@) == program_apps(now_unix, found@.take(i as int)),
        decreases found@.len() - i,
    {
        assert(found@.take(i + 1).drop_last() =~= found@.take(i as int));
        let p: &FoundProgram = &found[i];
        if is_application(&p.entry) {
            let ghost before = apps@;
            let a: InstalledApp = windows_app(now_unix, &p.entry, &p.files);
            apps.push(a);
            assert(app_views(apps@) =~= app_views(before).push(a@));
        }
        i += 1;
    }
    assert(found@.take(i as int) =~= found@);
    let ghost raw = apps@;
    let a: Vec<InstalledApp> = sort_apps(AppOrder::Location, apps);
    let ghost ga = a@;
    let b: Vec<InstalledApp> = sort_apps(AppOrder::Size, a);
    let ghost gb = b@;
    let c: Vec<InstalledApp> = sort_apps(AppOrder::Version, b);
    let ghost gc = c@;
    let d: Vec<InstalledApp> = sort_apps(AppOrder::Name, c);
    let ghost gd = d@;
    let out: Vec<InstalledApp> = dedup_apps(d);
    assert(app_sorted(AppOrder::Location, raw, ga) && app_sorted(AppOrder::Size, ga, gb)
        && app_sorted(AppOrder::Version, gb, gc) && app_sorted(AppOrder::Name, gc, gd));
    assert(windows_list(raw, out@));
    out
}

/// No two neighbours of the list are the same product.
pub proof fn law_no_product_is_listed_twice_in_a_row(v: Seq<InstalledApp>, i: int)
    requires
        0 < i < deduped(v).len(),
    ensures
        !same_product(deduped(v)[i], deduped(v)[i - 1]),
    decreases v.len(),
{
    let before = deduped(v.drop_last());
    if i < before.len() {
        law_no_product_is_listed_twice_in_a_row(v.drop_last(), i);
    }
}

// -------------------------------------------------------------- macOS scan --
/// One entry of an Applications directory.
pub struct BundleEntry {
    pub name: String,
    pub path: String,
    pub is_dir: bool,
    pub is_symlink: bool,
}

/// The name of a bundle: a real directory called `<name>.app`.
pub open spec fn bundle_name(e: BundleEntry) -> Option<Seq<char>> {
    let n = e.name@;
    if e.is_dir && !e.is_symlink && n.len() > 4 && ".app"@.is_suffix_of(n) {
        Some(n.take(n.len() - 4))
    } else {
        None
    }
}

/// Names and paths of the bundles, in the order of the entries.
pub open spec fn bundles(v: Seq<BundleEntry>) -> Seq<(Seq<char>, Seq<char>)>
    decreases v.len(),
{
    if v.len() == 0 {
        Seq::empty()
    } else {
        let before = bundles(v.drop_last());
        match bundle_name(v.last()) {
            Some(n) => before.push((n, v.last().path@)),
            None => before,
        }
    }
}

pub open spec fn pair_views(v: Seq<(String, String)>) -> Seq<(Seq<char>, Seq<char>)> {
    v.map_values(|p: (String, String)| (p.0@, p.1@))
}

pub open spec fn first_keys(v: Seq<(String, String)>) -> Seq<(u64, Seq<char>)> {
    v.map_values(|p: (String, String)| (0u64, p.0@))
}

pub open spec fn second_keys(v: Seq<(String, String)>) -> Seq<(u64, Seq<char>)> {
    v.map_values(|p: (String, String)| (0u64, p.1@))
}

fn sort_pairs(v: Vec<(String, String)>, second: bool) -> (r: Vec<(String, String)>)
    ensures
        is_sorted_copy(
            v@,
            if second {
                second_keys(v@)
            } else {
                first_keys(v@)
            },
            r@,
        ),
{
    let ghost goal = if second {
        second_keys(v@)
    } else {
        first_keys(v@)
    };
    let mut keys: Vec<SortKey> = Vec::new();
    let mut i: usize = 0;
    while i < v.len()
        invariant
            i <= v@.len() == goal.len(),
            goal == if second {
                second_keys(v@)
            } else {
                first_keys(v@)
            },
            keys@.len() == i,
            forall|k: int| 0 <= k < i ==> (#[trigger] keys@[k])@ == goal[k],
        decreases v@.len() - i,
    {
        let name: Vec<char> = if second {
            chars_of(v[i].1.as_str())
        } else {
            chars_of(v[i].0.as_str())
        };
        keys.push(SortKey { rank: 0, name });
        i += 1;
    }
    assert(key_views(keys@) =~= goal);
    sort_by_keys(v, &keys)
}

/// One pass over a directory: every `*.app` directory becomes an app entry
/// (unsized; the caller sizes in parallel), sorted by name, then by path.
pub fn app_bundles_in(entries: &Vec<BundleEntry>) -> (r: Vec<(String, String)>)
    ensures
        exists|raw: Seq<(String, String)>, mid: Seq<(String, String)>|
            pair_views(raw) == bundles(entries@) && #[trigger] is_sorted_copy(
                raw,
                second_keys(raw),
                mid,
            ) && #[trigger] is_sorted_copy(mid, first_keys(mid), r@),
{
    let mut out: Vec<(String, String)> = Vec::new();
    let mut i: usize = 0;
    proof {
        reveal_strlit(".app");
    }
    assert(".app"@.len() == 4);
    assert(entries@.take(0) =~= Seq::empty());
    assert(pair_views(out@) =~= Seq::empty());
    while i < entries.len()
        invariant
            i <= entries@.len(),
            ".app"@.len() == 4,
            pair_views(out@) == bundles(entries@.take(i as int)),
        decreases entries@.len() - i,
    {
        assert(entries@.take(i + 1).drop_last() =~= entries@.take(i as int));
        let e: &BundleEntry = &entries[i];
        let cs: Vec<char> = chars_of(e.name.as_str());
        let n: usize = cs.len();
        if e.is_dir && !e.is_symlink && n > 4 && ends_with(e.name.as_str(), ".app") {
            let stem: String = string_of(&cs, 0, n - 4);
            assert(stem@ =~= e.name@.take(n - 4));
            let ghost before = out@;
            out.push((stem, e.path.clone()));
            assert(pair_views(out@) =~= pair_views(before).push((stem@, e.path@)));
        }
        i += 1;
    }
    assert(entries@.take(i as int) =~= entries@);
    let ghost raw = out@;
    let mid: Vec<(String, String)> = sort_pairs(out, true);
    let ghost gm = mid@;
    let r: Vec<(String, String)> = sort_pairs(mid, false);
    assert(is_sorted_copy(raw, second_keys(raw), gm) && is_sorted_copy(gm, first_keys(gm), r@));
    r
}

/// The app of a bundle with the size of its files; `last_used` is the newest
/// time of its executables.
pub fn mac_app(now_unix: i64, name: String, path: String, size: u64, last_used: Option<i64>) -> (r:
    InstalledApp)
    requires
        span_fits(now_unix, last_used),
    ensures
        r@ == (AppView {
            name: name@,
            version: Seq::empty(),
            publisher: Seq::empty(),
            install_date: Seq::empty(),
            size_bytes: size,
            location: path@,
            last_used_unix: match last_used {
                Some(t) => t,
                None => 0,
            },
            flags: app_flags(now_unix, None, last_used, bundled(name@, Seq::empty())),
            uninstall: None,
            bundle: Some(path@),
        }),
{
    let bundleware: bool = is_bundleware(name.as_str(), "");
    proof {
        reveal_strlit("");
        assert(""@ =~= Seq::<char>::empty());
    }
    let flags: Vec<String> = classify(now_unix, None, last_used, bundleware);
    InstalledApp {
        name,
        version: String::new(),
        publisher: String::new(),
        install_date: String::new(),
        size_bytes: size,
        location: path.clone(),
        last_used_unix: match last_used {
            Some(t) => t,
            None => 0,
        },
        flags,
        removal: AppRemoval::MacBundle { path },
    }
}

/// Enumerate installed software, biggest first. Never deletes anything. Empty
/// on platforms without an implementation.
pub fn scan_installed_apps(platform: Platform, apps: Vec<InstalledApp>) -> (r: Vec<InstalledApp>)
    ensures
        if platform is Other {
            r@.len() == 0
        } else {
            app_sorted(AppOrder::SizeAndName, apps@, r@)
        },
{
    match platform {
        Platform::Other => Vec::new(),
        _ => sort_apps(AppOrder::SizeAndName, apps),
    }
}

} // verus!
