//! Disabling, enabling and delaying startup entries.
use crate::digest::{hex, hex_text, is_hex_char, lemma_hex_chars, lemma_hex_len};
use crate::env::Env;
use crate::error::CoreError;
use crate::paths::opt_view;
use crate::registry::{
    expand_sz_value, law_registry_text_roundtrip, reg_value_to_string, sz_value, text_value,
    value_text, RegData, RegKind, RegView,
};
use crate::startup::{
    command_parts, entry, listed, split_command, EntryView, StartupEntry, StartupOrigin,
};
use crate::text::{
    char_is_white, chars_of, copy, find_chars, find_from, find_white, is_white, lemma_bar_split,
    lemma_find_from, occurs_at, string_of, trimmed, trimmed_start,
};
use crate::toolbox::{expand_env, substituted};
use crate::types::Platform;
use vstd::prelude::*;
use vstd::utf8::encode_utf8;

verus! {

/// The flag Clean Master's delayed-start shim is invoked with:
/// `"<clean-master.exe>" --delayed-start <id>`. Kept public so the binaries can
/// recognize it in their argv before their normal startup.
pub const DELAYED_START_FLAG: &'static str = "--delayed-start";

// --------------------------------------------------------------------- ids --
/// Lowercase hex of a string's bytes - a command-line-safe, single-token id
/// derived from an entry's origin+name for the delayed-start backup store.
pub fn hex_encode(s: &str) -> (r: String)
    ensures
        r@ == hex_text(encode_utf8(s@)),
{
    hex(s.as_bytes())
}

/// The id under which an entry is parked.
pub open spec fn parked_as(origin: StartupOrigin, name: Seq<char>) -> Seq<char> {
    origin.code() + seq!['|'] + name
}

pub fn backup_id(origin: StartupOrigin, name: &str) -> (r: String)
    ensures
        r@ == parked_as(origin, name@),
{
    let mut out: String = copy(origin.variant());
    out.push('|');
    out.push_str(name);
    assert(out@ =~= parked_as(origin, name@));
    out
}

/// The id of a delayed entry: one word of hexadecimal digits.
pub open spec fn delayed_as(origin: StartupOrigin, name: Seq<char>) -> Seq<char> {
    hex_text(encode_utf8(parked_as(origin, name)))
}

pub fn launcher_id(origin: StartupOrigin, name: &str) -> (r: String)
    ensures
        r@ == delayed_as(origin, name@),
{
    let id: String = backup_id(origin, name);
    hex_encode(id.as_str())
}

/// The command line of the shim.
pub open spec fn shim_line(exe: Seq<char>, id: Seq<char>) -> Seq<char> {
    seq!['"'] + exe + seq!['"', ' '] + "--delayed-start"@ + seq![' '] + id
}

pub fn launcher_command(launcher_exe: &str, id: &str) -> (r: String)
    ensures
        r@ == shim_line(launcher_exe@, id@),
{
    let mut out: String = String::new();
    out.push('"');
    out.push_str(launcher_exe);
    out.push('"');
    out.push(' ');
    out.push_str(DELAYED_START_FLAG);
    out.push(' ');
    out.push_str(id);
    assert(out@ =~= shim_line(launcher_exe@, id@));
    out
}

/// The first word of a text.
pub open spec fn first_word(s: Seq<char>) -> Seq<char> {
    let t = trimmed_start(s);
    match find_white(t, 0) {
        Some(end) => t.take(end),
        None => t,
    }
}

/// The word behind the flag of a shim invocation.
pub open spec fn shim_id(command: Seq<char>) -> Option<Seq<char>> {
    match find_from(command, "--delayed-start"@, 0) {
        Some(i) => {
            let word = first_word(command.skip(i + "--delayed-start"@.len()));
            if word.len() > 0 {
                Some(word)
            } else {
                None
            }
        },
        None => None,
    }
}

/// If `command` is a Clean Master delayed-start shim invocation, return its id
/// token (the argument after [`DELAYED_START_FLAG`]).
pub fn parse_launcher_id(command: &str) -> (r: Option<String>)
    ensures
        opt_view(r) == shim_id(command@),
{
    let cs: Vec<char> = chars_of(command);
    let n: usize = cs.len();
    let flag: Vec<char> = chars_of(DELAYED_START_FLAG);
    let at: usize = match find_chars(&cs, &flag, 0) {
        Some(i) => i + flag.len(),
        None => {
            return None;
        },
    };
    let ghost rest = cs@.skip(at as int);
    let mut from: usize = at;
    while from < n && char_is_white(cs[from])
        invariant
            at <= from <= n == cs@.len(),
            rest == cs@.skip(at as int),
            trimmed_start(rest) == trimmed_start(cs@.skip(from as int)),
        decreases n - from,
    {
        assert(cs@.skip(from as int).skip(1) =~= cs@.skip(from + 1));
        from += 1;
    }
    let ghost t = cs@.skip(from as int);
    assert(trimmed_start(rest) == t);
    let mut end: usize = from;
    while end < n && !char_is_white(cs[end])
        invariant
            from <= end <= n == cs@.len(),
            t == cs@.skip(from as int),
            find_white(t, 0) == find_white(t, end - from),
        decreases n - end,
    {
        end += 1;
    }
    assert(end < n ==> find_white(t, end - from) == Some(end - from));
    assert(end == n ==> find_white(t, end - from) is None);
    if end == from {
        return None;
    }
    let word: String = string_of(&cs, from, end);
    assert(word@ =~= first_word(rest));
    Some(word)
}

// ---------------------------------------------------------- parked entries --
/// What is kept of a disabled Run value.
#[derive(Debug)]
pub struct DisabledBlob {
    pub origin: StartupOrigin,
    pub name: String,
    pub command: String,
    /// Original value was REG_EXPAND_SZ (so it must be restored as such).
    pub expand: bool,
}

/// The record kept for a delayed entry: enough to run the original program
/// after the wait, and to restore the exact original Run value on undelay.
#[derive(Debug)]
pub struct DelayedBlob {
    pub origin: StartupOrigin,
    pub name: String,
    pub command: String,
    /// Original value was REG_EXPAND_SZ (restore it as such).
    pub expand: bool,
    pub delay_secs: u32,
}

/// The command of a live value; that of the entry where it holds no text.
pub open spec fn live_command(entry: EntryView, raw: RegView) -> Seq<char> {
    match value_text(raw) {
        Some(s) => s,
        None => entry.command,
    }
}

fn command_of(entry: &StartupEntry, raw: &RegData) -> (r: String)
    ensures
        r@ == live_command(entry@, raw@),
{
    match reg_value_to_string(raw) {
        Some(s) => s,
        None => entry.command.clone(),
    }
}

fn is_expand(raw: &RegData) -> (r: bool)
    ensures
        r == (raw.kind is ExpandSz),
{
    match raw.kind {
        RegKind::ExpandSz => true,
        _ => false,
    }
}

/// The record of an entry whose live value is `raw`.
pub fn disabled_blob(entry: &StartupEntry, raw: &RegData) -> (r: DisabledBlob)
    ensures
        r.origin == entry.origin,
        r.name@ == entry.name@,
        r.command@ == live_command(entry@, raw@),
        r.expand == (raw.kind is ExpandSz),
{
    DisabledBlob {
        origin: entry.origin,
        name: entry.name.clone(),
        command: command_of(entry, raw),
        expand: is_expand(raw),
    }
}

/// The live value that a record restores: the command, in its first type.
pub fn restored_value(command: &str, expand: bool) -> (r: RegData)
    ensures
        r@ == text_value(command@, expand),
{
    if expand {
        expand_sz_value(command)
    } else {
        sz_value(command)
    }
}

/// Disabling and enabling, or delaying and undelaying, gives back the live
/// value as it was: the command and the type of the value.
pub proof fn law_parked_value_is_restored(entry: EntryView, command: Seq<char>, expand: bool)
    requires
        forall|i: int| 0 <= i < command.len() ==> #[trigger] command[i] != '\0',
    ensures
        ({
            let raw = text_value(command, expand);
            text_value(live_command(entry, raw), raw.kind is ExpandSz) == raw
        }),
{
    law_registry_text_roundtrip(command, expand);
}

// --------------------------------------------------------------- decisions --
/// How an entry is moved.
#[derive(Debug, Clone, Copy, PartialEq, Eq, Structural)]
pub enum Move {
    /// It is already where it should be.
    Nothing,
    DisableRegistry,
    EnableRegistry,
    DisableFolder,
    EnableFolder,
}

/// Why an entry cannot be enabled or disabled.
pub open spec fn move_error(platform: Platform, entry: EntryView, enabled: bool) -> Option<
    Seq<char>,
> {
    if !(platform is Windows) {
        Some("startup management is only available on Windows"@)
    } else if entry.enabled != enabled && entry.delayed {
        Some("this entry is delayed - remove the delay first, then disable it"@)
    } else {
        None
    }
}

/// Enable or disable one entry. Disabling moves it to the CleanMaster backup
/// store (never deletes the program); enabling restores it to its origin. A
/// no-op when the entry is already in the requested state.
pub fn set_enabled(platform: Platform, entry: &StartupEntry, enabled: bool) -> (r: Result<
    Move,
    CoreError,
>)
    ensures
        match r {
            Ok(m) => {
                &&& move_error(platform, entry@, enabled) is None
                &&& m == if entry.enabled == enabled {
                    Move::Nothing
                } else if entry.origin.registry() {
                    if enabled {
                        Move::EnableRegistry
                    } else {
                        Move::DisableRegistry
                    }
                } else {
                    if enabled {
                        Move::EnableFolder
                    } else {
                        Move::DisableFolder
                    }
                }
            },
            Err(e) => e matches CoreError::Session(why) && move_error(platform, entry@, enabled)
                == Some(why@),
        },
{
    match platform {
        Platform::Windows => {},
        _ => {
            return Err(CoreError::session("startup management is only available on Windows"));
        },
    }
    if entry.enabled == enabled {
        return Ok(Move::Nothing);
    }
    if entry.delayed {
        return Err(
            CoreError::session("this entry is delayed - remove the delay first, then disable it"),
        );
    }
    Ok(
        match (entry.origin.is_registry(), enabled) {
            (true, false) => Move::DisableRegistry,
            (true, true) => Move::EnableRegistry,
            (false, false) => Move::DisableFolder,
            (false, true) => Move::EnableFolder,
        },
    )
}

/// Why an entry cannot be delayed, before its live value is read.
pub open spec fn delay_error(platform: Platform, entry: EntryView) -> Option<Seq<char>> {
    if !(platform is Windows) {
        Some("delayed start is only available on Windows"@)
    } else if !(entry.origin is RunCurrentUser) {
        Some("delayed start is only supported for this user's startup entries (HKCU)"@)
    } else if entry.delayed {
        Some("entry is already delayed"@)
    } else if !entry.enabled {
        Some("enable the entry before delaying it"@)
    } else {
        None
    }
}

pub fn may_delay(platform: Platform, entry: &StartupEntry) -> (r: Result<(), CoreError>)
    ensures
        match r {
            Ok(_) => delay_error(platform, entry@) is None,
            Err(e) => e matches CoreError::Session(why) && delay_error(platform, entry@) == Some(
                why@,
            ),
        },
{
    match platform {
        Platform::Windows => {},
        _ => {
            return Err(CoreError::session("delayed start is only available on Windows"));
        },
    }
    match entry.origin {
        StartupOrigin::RunCurrentUser => {},
        _ => {
            return Err(
                CoreError::session(
                    "delayed start is only supported for this user's startup entries (HKCU)",
                ),
            );
        },
    }
    if entry.delayed {
        return Err(CoreError::session("entry is already delayed"));
    }
    if !entry.enabled {
        return Err(CoreError::session("enable the entry before delaying it"));
    }
    Ok(())
}

/// What is written to delay an entry: first the record under its id, then the
/// shim over the live value. Where the second write fails, the record is taken
/// back.
#[derive(Debug)]
pub struct DelayPlan {
    pub id: String,
    pub blob: DelayedBlob,
    pub live: RegData,
}

/// Delay an enabled HKCU startup entry by `delay_secs` seconds. `launcher_exe`
/// is the full path to the Clean Master executable that will act as the wait
/// shim (prefer the GUI exe, which shows no console), and `raw` the live value.
/// Errors for non-HKCU, disabled, or already-delayed entries.
pub fn delay(
    platform: Platform,
    entry: &StartupEntry,
    delay_secs: u32,
    launcher_exe: &str,
    raw: &RegData,
) -> (r: Result<DelayPlan, CoreError>)
    ensures
        match r {
            Ok(p) => {
                &&& delay_error(platform, entry@) is None
                &&& shim_id(live_command(entry@, raw@)) is None
                &&& p.id@ == delayed_as(entry.origin, entry.name@)
                &&& p.blob.origin == entry.origin
                &&& p.blob.name@ == entry.name@
                &&& p.blob.command@ == live_command(entry@, raw@)
                &&& p.blob.expand == (raw.kind is ExpandSz)
                &&& p.blob.delay_secs == delay_secs
                &&& p.live@ == text_value(shim_line(launcher_exe@, p.id@), false)
            },
            Err(e) => e matches CoreError::Session(why) && Some(why@) == match delay_error(
                platform,
                entry@,
            ) {
                Some(text) => Some(text),
                None => if shim_id(live_command(entry@, raw@)) is Some {
                    Some("entry is already delayed"@)
                } else {
                    None
                },
            },
        },
{
    match may_delay(platform, entry) {
        Ok(_) => {},
        Err(e) => {
            return Err(e);
        },
    }
    let command: String = command_of(entry, raw);
    if parse_launcher_id(command.as_str()).is_some() {
        return Err(CoreError::session("entry is already delayed"));
    }
    let id: String = launcher_id(entry.origin, entry.name.as_str());
    let shim: String = launcher_command(launcher_exe, id.as_str());
    Ok(
        DelayPlan {
            id,
            blob: DelayedBlob {
                origin: entry.origin,
                name: entry.name.clone(),
                command,
                expand: is_expand(raw),
                delay_secs,
            },
            live: sz_value(shim.as_str()),
        },
    )
}

/// Remove a delay: the value to write over the shim is the original one (exact
/// command + type).
pub fn undelay(platform: Platform, blob: &DelayedBlob) -> (r: Result<RegData, CoreError>)
    ensures
        match r {
            Ok(v) => platform is Windows && blob.origin.registry() && v@ == text_value(
                blob.command@,
                blob.expand,
            ),
            Err(e) => e matches CoreError::Session(why) && why@ == if !(platform is Windows) {
                "delayed start is only available on Windows"@
            } else {
                "not a registry startup entry"@
            } && !(platform is Windows && blob.origin.registry()),
        },
{
    match platform {
        Platform::Windows => {},
        _ => {
            return Err(CoreError::session("delayed start is only available on Windows"));
        },
    }
    if !blob.origin.is_registry() {
        return Err(CoreError::session("not a registry startup entry"));
    }
    Ok(restored_value(blob.command.as_str(), blob.expand))
}

/// What the shim does: wait, then start the program with its arguments as they
/// stand.
#[derive(Debug)]
pub struct DelayedLaunch {
    pub wait_secs: u64,
    pub exe: String,
    pub args: String,
}

/// Shim entry point: run the delayed program of a record after its configured
/// wait.
pub fn run_delayed_start(platform: Platform, env: &Env, blob: &Option<DelayedBlob>) -> (r: Result<
    DelayedLaunch,
    CoreError,
>)
    ensures
        match r {
            Ok(l) => {
                &&& platform is Windows
                &&& *blob matches Some(b)
                &&& l.wait_secs == b.delay_secs
                &&& l.exe@ == command_parts(trimmed(substituted(*env, b.command@))).0
                &&& l.args@ == trimmed(
                    command_parts(trimmed(substituted(*env, b.command@))).1,
                )
            },
            Err(e) => e matches CoreError::Session(why) && if !(platform is Windows) {
                why@ == "delayed start is only available on Windows"@
            } else {
                *blob is None && why@ == "no such delayed entry"@
            },
        },
{
    match platform {
        Platform::Windows => {},
        _ => {
            return Err(CoreError::session("delayed start is only available on Windows"));
        },
    }
    match blob {
        Some(b) => {
            let expanded: String = expand_env(env, b.command.as_str());
            let (exe, args) = split_command(expanded.as_str());
            Ok(DelayedLaunch { wait_secs: b.delay_secs as u64, exe, args })
        },
        None => Err(CoreError::session("no such delayed entry")),
    }
}

/// The entry of a live Run value. A value pointing at our shim is a DELAYED
/// entry: the original program (from the record) is shown, not the shim line.
pub open spec fn live_entry(
    origin: StartupOrigin,
    name: Seq<char>,
    raw: RegView,
    blob: Option<DelayedBlob>,
    exe_size: Option<u64>,
) -> Option<EntryView> {
    match value_text(raw) {
        Some(command) => match (shim_id(command), blob) {
            (Some(_), Some(b)) => Some(
                EntryView {
                    delayed: true,
                    delay_secs: b.delay_secs,
                    ..listed(origin, name, b.command@, true, exe_size)
                },
            ),
            _ => Some(listed(origin, name, command, true, exe_size)),
        },
        None => None,
    }
}

pub fn registry_entry(
    origin: StartupOrigin,
    name: String,
    raw: &RegData,
    blob: Option<DelayedBlob>,
    exe_size: Option<u64>,
) -> (r: Option<StartupEntry>)
    ensures
        (match r {
            Some(e) => Some(e@),
            None => None,
        }) == live_entry(origin, name@, raw@, blob, exe_size),
{
    match reg_value_to_string(raw) {
        Some(command) => {
            let shim: bool = parse_launcher_id(command.as_str()).is_some();
            match blob {
                Some(b) if shim => {
                    let secs: u32 = b.delay_secs;
                    let mut e: StartupEntry = entry(origin, name, b.command, true, exe_size);
                    e.delayed = true;
                    e.delay_secs = secs;
                    Some(e)
                },
                _ => Some(entry(origin, name, command, true, exe_size)),
            }
        },
        None => None,
    }
}

// -------------------------------------------------------------------- laws --
/// Two entries have the same backup id only if they have the same origin and
/// the same name.
pub proof fn law_backup_ids_tell_entries_apart(
    a: StartupOrigin,
    x: Seq<char>,
    b: StartupOrigin,
    y: Seq<char>,
)
    requires
        parked_as(a, x) == parked_as(b, y),
    ensures
        a == b,
        x == y,
{
    lemma_codes(a, b);
    lemma_bar_split(a.code(), x, b.code(), y);
}

proof fn lemma_codes(a: StartupOrigin, b: StartupOrigin)
    ensures
        a.code() == b.code() ==> a == b,
        forall|i: int| 0 <= i < a.code().len() ==> #[trigger] a.code()[i] != '|',
        forall|i: int| 0 <= i < b.code().len() ==> #[trigger] b.code()[i] != '|',
{
    reveal_strlit("RunCurrentUser");
    reveal_strlit("RunLocalMachine");
    reveal_strlit("RunLocalMachineWow64");
    reveal_strlit("FolderCurrentUser");
    reveal_strlit("FolderCommon");
    assert("RunCurrentUser"@.len() == 14);
    assert("RunLocalMachine"@.len() == 15);
    assert("RunLocalMachineWow64"@.len() == 20);
    assert("FolderCurrentUser"@.len() == 17);
    assert("FolderCommon"@.len() == 12);
    lemma_no_bar(a.code());
    lemma_no_bar(b.code());
}

/// None of the codes holds a bar.
proof fn lemma_no_bar(s: Seq<char>)
    requires
        s == "RunCurrentUser"@ || s == "RunLocalMachine"@ || s == "RunLocalMachineWow64"@ || s
            == "FolderCurrentUser"@ || s == "FolderCommon"@,
    ensures
        forall|i: int| 0 <= i < s.len() ==> #[trigger] s[i] != '|',
{
    reveal_strlit("RunCurrentUser");
    reveal_strlit("RunLocalMachine");
    reveal_strlit("RunLocalMachineWow64");
    reveal_strlit("FolderCurrentUser");
    reveal_strlit("FolderCommon");
    reveal_with_fuel(free_of_bar, 21);
    assert(free_of_bar(s, s.len()));
    lemma_free_of_bar(s, s.len());
}

spec fn free_of_bar(s: Seq<char>, n: nat) -> bool
    decreases n,
{
    n == 0 || (s[n - 1] != '|' && free_of_bar(s, (n - 1) as nat))
}

proof fn lemma_free_of_bar(s: Seq<char>, n: nat)
    requires
        n <= s.len(),
        free_of_bar(s, n),
    ensures
        forall|i: int| 0 <= i < n ==> #[trigger] s[i] != '|',
    decreases n,
{
    if n > 0 {
        lemma_free_of_bar(s, (n - 1) as nat);
    }
}

/// The shim command is read back as the id that it was written with: the id of
/// an entry is one word of hexadecimal digits. (A program path that itself holds
/// the flag is left out: there the flag is found too early.)
pub proof fn law_shim_carries_its_id(exe: Seq<char>, origin: StartupOrigin, name: Seq<char>)
    requires
        !crate::text::has(exe, "--delayed-start"@),
    ensures
        shim_id(shim_line(exe, delayed_as(origin, name))) == Some(delayed_as(origin, name)),
        forall|i: int|
            0 <= i < delayed_as(origin, name).len() ==> is_hex_char(
                #[trigger] delayed_as(origin, name)[i],
            ),
{
    lemma_hex_chars(encode_utf8(parked_as(origin, name)));
    law_shim_carries_any_hex_id(exe, parked_as(origin, name));
}

/// The shim command carries the hexadecimal form of any text that is not empty,
/// not only that of an entry.
pub proof fn law_shim_carries_any_hex_id(exe: Seq<char>, text: Seq<char>)
    requires
        !crate::text::has(exe, "--delayed-start"@),
        text.len() > 0,
    ensures
        shim_id(shim_line(exe, hex_text(encode_utf8(text)))) == Some(hex_text(encode_utf8(text))),
{
    let bytes = encode_utf8(text);
    lemma_encoded_not_empty(text);
    let flag = "--delayed-start"@;
    let id = hex_text(bytes);
    let line = shim_line(exe, id);
    lemma_hex_chars(bytes);
    lemma_hex_len(bytes);
    reveal_strlit("--delayed-start");
    assert(flag.len() == 15);
    let len = exe.len() as int;
    let at = len + 3;
    assert(line.subrange(at, at + 15) =~= flag);
    assert(occurs_at(line, flag, at));
    assert forall|i: int| 0 <= i < at implies !occurs_at(line, flag, i) by {
        if occurs_at(line, flag, i) {
            let w = line.subrange(i, i + 15);
            assert(w == flag);
            if i == 0 {
                assert(w[0] == line[0]);
                assert(line[0] == '"');
                assert(flag[0] == '-');
            } else if i + 15 <= len + 1 {
                assert(exe.subrange(i - 1, i + 14) =~= w) by {
                    assert forall|k: int| 0 <= k < 15 implies exe[i - 1 + k] == #[trigger] w[k] by {
                        assert(w[k] == line[i + k]);
                        assert(line[i + k] == exe[i + k - 1]);
                    }
                }
                assert(occurs_at(exe, flag, i - 1));
            } else if i <= len + 1 {
                let k = len + 1 - i;
                assert(line[len + 1] == '"');
                assert(w[k] == line[i + k]);
                assert(flag[k] == '"');
                lemma_flag_has_no_quote(k);
            } else {
                assert(w[0] == line[i]);
                assert(line[len + 2] == ' ');
                assert(flag[0] == '-');
            }
        }
    }
    lemma_find_from(line, flag, 0);
    assert(find_from(line, flag, 0) == Some(at)) by {
        match find_from(line, flag, 0) {
            Some(i) => {
                if i > at {
                    assert(occurs_at(line, flag, at));
                }
                if i < at {
                    assert(occurs_at(line, flag, i));
                }
            },
            None => {
                assert(occurs_at(line, flag, at));
            },
        }
    }
    let rest = line.skip(at + 15);
    assert(rest =~= seq![' '] + id);
    assert(id.len() > 0);
    assert(rest[0] == ' ');
    assert(rest.skip(1) =~= id);
    assert(is_hex_char(id[0]));
    assert(trimmed_start(rest) == id) by {
        assert(trimmed_start(rest) == trimmed_start(rest.skip(1)));
        assert(!is_white(id[0]));
    }
    assert forall|i: int| 0 <= i < id.len() implies !is_white(#[trigger] id[i]) by {
        assert(is_hex_char(id[i]));
    }
    lemma_no_white(id, 0);
}

proof fn lemma_flag_has_no_quote(k: int)
    requires
        0 <= k < "--delayed-start"@.len(),
    ensures
        "--delayed-start"@[k] != '"',
{
    let flag = "--delayed-start"@;
    reveal_strlit("--delayed-start");
    assert(flag.len() == 15);
    if k < 5 {
        assert(k == 0 || k == 1 || k == 2 || k == 3 || k == 4);
    } else if k < 10 {
        assert(k == 5 || k == 6 || k == 7 || k == 8 || k == 9);
    } else {
        assert(k == 10 || k == 11 || k == 12 || k == 13 || k == 14);
    }
}

proof fn lemma_no_white(s: Seq<char>, from: int)
    requires
        0 <= from <= s.len(),
        forall|i: int| 0 <= i < s.len() ==> !is_white(#[trigger] s[i]),
    ensures
        find_white(s, from) is None,
    decreases s.len() - from,
{
    if from < s.len() {
        lemma_no_white(s, from + 1);
    }
}

proof fn lemma_encoded_not_empty(s: Seq<char>)
    requires
        s.len() > 0,
    ensures
        encode_utf8(s).len() > 0,
{
    vstd::utf8::encode_utf8_decode_utf8(s);
    if encode_utf8(s).len() == 0 {
        assert(encode_utf8(s) =~= encode_utf8(Seq::<char>::empty()));
        vstd::utf8::encode_utf8_decode_utf8(Seq::<char>::empty());
        assert(s == Seq::<char>::empty());
    }
}

} // verus!
