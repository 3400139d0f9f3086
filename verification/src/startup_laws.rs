//! How startup commands are taken apart and rated, and how entries are listed,
//! chosen and changed.
use crate::digest::is_hex_char;
use crate::order::{is_sorted_copy, law_sorted_copy_is_ascending};
use crate::registry::{law_registry_text_roundtrip, text_value};
use crate::startup::{
    command_parts, exe_of, exe_suffix, has_any, heavy_keywords, impact_by, last_name, listed,
    name_keys, program_name, StartupEntry, StartupOrigin,
};
use crate::startup_changes::{
    delay_error, delayed_as, law_shim_carries_its_id, live_entry, move_error, shim_line,
    DelayedBlob,
};
use crate::startup_cli::{is_wanted, Wanted};
use crate::text::{
    ascii_lowered, find_from, find_white, has, is_white, lemma_find_from, lex_lt, lowercase,
    occurs_at, same_ascii, trimmed,
};
use crate::types::Platform;
use vstd::prelude::*;

verus! {

// ----------------------------------------------------------------- commands --
proof fn lemma_find_white(s: Seq<char>, from: int)
    requires
        0 <= from <= s.len(),
    ensures
        match find_white(s, from) {
            Some(i) => from <= i < s.len() && is_white(s[i]) && forall|k: int|
                from <= k < i ==> !is_white(#[trigger] s[k]),
            None => forall|k: int| from <= k < s.len() ==> !is_white(#[trigger] s[k]),
        },
    decreases s.len() - from,
{
    if from < s.len() && !is_white(s[from]) {
        lemma_find_white(s, from + 1);
    }
}

/// A quoted program ends at the closing quote, and the rest are its arguments.
pub proof fn law_quoted_program_ends_at_the_quote(exe: Seq<char>, rest: Seq<char>)
    requires
        forall|i: int| 0 <= i < exe.len() ==> #[trigger] exe[i] != '"',
    ensures
        command_parts(seq!['"'] + exe + seq!['"'] + rest) == (exe, rest),
        command_parts(seq!['"'] + exe) == (exe, Seq::<char>::empty()),
{
    let q = seq!['"'];
    let c = q + exe + q + rest;
    let end: int = exe.len() as int + 1;
    lemma_find_from(c, q, 1);
    assert(c.subrange(end, end + 1) =~= q);
    assert(occurs_at(c, q, end));
    match find_from(c, q, 1) {
        Some(i) => {
            assert(c.subrange(i, i + 1)[0] == c[i]);
            if i < end {
                assert(c[i] == exe[i - 1]);
            }
        },
        None => {},
    }
    assert(c.subrange(1, end) =~= exe);
    assert(c.skip(end + 1) =~= rest);
    let d = q + exe;
    lemma_find_from(d, q, 1);
    match find_from(d, q, 1) {
        Some(i) => {
            assert(d.subrange(i, i + 1)[0] == d[i]);
            assert(d[i] == exe[i - 1]);
        },
        None => {},
    }
    assert(d.skip(1) =~= exe);
}

/// An unquoted command loses nothing when it is taken apart. The program ends
/// behind the first `.exe`, in whatever case; without one, at the first white.
pub proof fn law_unquoted_program_ends_at_exe(c: Seq<char>)
    requires
        c.len() > 0,
        c[0] != '"',
    ensures
        command_parts(c).0 + command_parts(c).1 == c,
        forall|i: int|
            occurs_at(ascii_lowered(c), ".exe"@, i) && (forall|j: int|
                0 <= j < i ==> !occurs_at(ascii_lowered(c), ".exe"@, j)) ==> #[trigger] c.take(
                i + 4,
            ) == command_parts(c).0,
        !crate::text::has(ascii_lowered(c), ".exe"@) ==> {
            &&& forall|k: int|
                0 <= k < command_parts(c).0.len() ==> !is_white(#[trigger] command_parts(c).0[k])
            &&& command_parts(c).1.len() > 0 ==> is_white(command_parts(c).1[0])
        },
{
    reveal_strlit(".exe");
    let low = ascii_lowered(c);
    lemma_find_from(low, ".exe"@, 0);
    lemma_find_white(c, 0);
    match exe_suffix(c) {
        Some(pos) => {
            assert(c.take(pos + 4) + c.skip(pos + 4) =~= c);
            assert forall|i: int|
                occurs_at(low, ".exe"@, i) && (forall|j: int|
                    0 <= j < i ==> !occurs_at(low, ".exe"@, j)) implies #[trigger] c.take(i + 4)
                == command_parts(c).0 by {
                if i < pos {
                    assert(!occurs_at(low, ".exe"@, i));
                }
                if pos < i {
                    assert(occurs_at(low, ".exe"@, pos));
                }
            }
            assert(has(low, ".exe"@));
        },
        None => {
            assert forall|i: int| occurs_at(low, ".exe"@, i) implies false by {
                assert(0 <= i);
            }
            match find_white(c, 0) {
                Some(end) => {
                    assert(c.take(end) + c.skip(end) =~= c);
                    assert(c.skip(end)[0] == c[end]);
                },
                None => {
                    assert(c + Seq::<char>::empty() =~= c);
                },
            }
        },
    }
}

/// The name of a program is what follows the last separator of its path.
pub proof fn law_name_follows_the_last_separator(dir: Seq<char>, name: Seq<char>)
    requires
        forall|i: int| 0 <= i < name.len() ==> #[trigger] name[i] != '\\' && name[i] != '/',
        dir.len() > 0 ==> dir.last() == '\\' || dir.last() == '/',
    ensures
        last_name(dir + name) == name,
    decreases name.len(),
{
    let p = dir + name;
    if name.len() == 0 {
        assert(p =~= dir);
        assert(name =~= Seq::empty());
    } else {
        let front = name.drop_last();
        assert forall|i: int| 0 <= i < front.len() implies #[trigger] front[i] != '\\' && front[i]
            != '/' by {
            assert(front[i] == name[i]);
        }
        law_name_follows_the_last_separator(dir, front);
        assert(p.drop_last() =~= dir + front);
        assert(p.last() == name.last());
        assert(name.last() == name[name.len() - 1]);
        assert(front.push(name.last()) =~= name);
    }
}

// ------------------------------------------------------------------- rating --
/// The name holds one of the words that stand for programs that are slow to
/// start.
pub open spec fn names_a_heavy_program(name: Seq<char>) -> bool {
    ||| has(name, "update"@)
    ||| has(name, "updater"@)
    ||| has(name, "sync"@)
    ||| has(name, "onedrive"@)
    ||| has(name, "dropbox"@)
    ||| has(name, "googledrive"@)
    ||| has(name, "teams"@)
    ||| has(name, "steam"@)
    ||| has(name, "epicgames"@)
    ||| has(name, "adobe"@)
    ||| has(name, "creativecloud"@)
    ||| has(name, "acrotray"@)
    ||| has(name, "docker"@)
    ||| has(name, "nvcontainer"@)
    ||| has(name, "spotify"@)
    ||| has(name, "discord"@)
    ||| has(name, "skype"@)
    ||| has(name, "backup"@)
    ||| has(name, "cloud"@)
    ||| has(name, "mcafee"@)
    ||| has(name, "norton"@)
}

proof fn lemma_heavy(name: Seq<char>)
    ensures
        has_any(name, heavy_keywords()) <==> names_a_heavy_program(name),
{
    let w = heavy_keywords();
    assert(w.len() == 21);
    assert(w[0] == "update"@ && w[1] == "updater"@ && w[2] == "sync"@ && w[3] == "onedrive"@ && w[4]
        == "dropbox"@ && w[5] == "googledrive"@ && w[6] == "teams"@ && w[7] == "steam"@ && w[8]
        == "epicgames"@ && w[9] == "adobe"@ && w[10] == "creativecloud"@ && w[11] == "acrotray"@
        && w[12] == "docker"@ && w[13] == "nvcontainer"@ && w[14] == "spotify"@ && w[15]
        == "discord"@ && w[16] == "skype"@ && w[17] == "backup"@ && w[18] == "cloud"@ && w[19]
        == "mcafee"@ && w[20] == "norton"@);
    if has_any(name, w) {
        let i = choose|i: int| 0 <= i < w.len() && has(name, #[trigger] w[i]);
        assert(0 <= i < 21);
    }
}

/// A program with a heavy name slows the login down much, whatever its size. Of
/// the others one of 40 MiB or more does too, one below 2 MiB little, and one in
/// between, or whose size is unknown, somewhat.
pub proof fn law_impact_goes_by_name_and_size(name: Seq<char>, size: u64)
    ensures
        names_a_heavy_program(name) ==> impact_by(name, Some(size)) is High && impact_by(
            name,
            None,
        ) is High,
        !names_a_heavy_program(name) ==> {
            &&& impact_by(name, None) is Medium
            &&& impact_by(name, Some(size)) is High <==> size >= 40 * 1024 * 1024
            &&& impact_by(name, Some(size)) is Low <==> size < 2 * 1024 * 1024
        },
{
    lemma_heavy(name);
}

/// The rating of a command goes by the name of its program, in lower case and
/// without its directory; a blank command has no name.
pub proof fn law_rating_goes_by_the_program_name(command: Seq<char>)
    ensures
        trimmed(command).len() == 0 ==> exe_of(command) is None && program_name(command).len() == 0,
        trimmed(command).len() > 0 ==> program_name(command) == lowercase(
            last_name(command_parts(trimmed(command)).0),
        ),
{
}

// ------------------------------------------------------------------ entries --
/// What is there for all users needs administrator rights, and what is there for
/// this user does not.
pub proof fn law_machine_entries_need_admin(origin: StartupOrigin)
    ensures
        origin.admin() <==> !(origin is RunCurrentUser) && !(origin is FolderCurrentUser),
        origin.registry() <==> !(origin is FolderCurrentUser) && !(origin is FolderCommon),
{
}

/// An entry is listed with its own name, command and state, at the place it was
/// found, and not as delayed.
pub proof fn law_entry_is_listed_as_found(
    origin: StartupOrigin,
    name: Seq<char>,
    command: Seq<char>,
    enabled: bool,
    exe_size: Option<u64>,
)
    ensures
        ({
            let e = listed(origin, name, command, enabled, exe_size);
            &&& e.name == name
            &&& e.command == command
            &&& e.origin == origin
            &&& e.enabled == enabled
            &&& !e.delayed
            &&& e.delay_secs == 0
            &&& e.requires_admin <==> !(origin is RunCurrentUser) && !(origin is FolderCurrentUser)
            &&& names_a_heavy_program(program_name(command)) ==> e.impact is High
        }),
{
    lemma_heavy(program_name(command));
}

/// The list of entries holds what was found, ordered by name without regard to
/// case.
pub proof fn law_entries_are_ordered_by_name(found: Seq<StartupEntry>, out: Seq<StartupEntry>)
    requires
        is_sorted_copy(found, name_keys(found), out),
    ensures
        out.len() == found.len(),
        forall|e: StartupEntry| #[trigger] out.contains(e) <==> found.contains(e),
        forall|i: int, j: int|
            0 <= i < j < out.len() ==> !lex_lt(
                lowercase((#[trigger] out[j]).name@),
                lowercase((#[trigger] out[i]).name@),
            ),
{
    law_sorted_copy_is_ascending(
        found,
        |e: StartupEntry| (0u64, lowercase(e.name@)),
        name_keys(found),
        out,
    );
}

// ----------------------------------------------------------------- choosing --
/// The entries that a name stands for are those with that name, but for the case
/// of letters, that are in the state asked for.
pub proof fn law_a_name_stands_for_its_entries(
    v: Seq<StartupEntry>,
    name: Seq<char>,
    w: Wanted,
    i: int,
)
    ensures
        crate::startup_cli::matches(v, name, w).contains(i) <==> 0 <= i < v.len() && same_ascii(v[i].name@, name) && (
        match w {
            Wanted::Enabled => v[i].enabled,
            Wanted::Disabled => !v[i].enabled,
            Wanted::Delayable => v[i].enabled && !v[i].delayed,
            Wanted::Delayed => v[i].delayed,
        }),
    decreases v.len(),
{
    let all = crate::startup_cli::matches(v, name, w);
    if v.len() > 0 {
        let front = v.drop_last();
        let before = crate::startup_cli::matches(front, name, w);
        law_a_name_stands_for_its_entries(front, name, w, i);
        if before.contains(i) {
            let k = choose|k: int| 0 <= k < before.len() && before[k] == i;
            assert(all[k] == i);
            assert(front[i] == v[i]);
        }
        if same_ascii(v.last().name@, name) && is_wanted(v.last(), w) {
            assert(all[before.len() as int] == v.len() - 1);
            if all.contains(i) && i != v.len() - 1 {
                let k = choose|k: int| 0 <= k < all.len() && all[k] == i;
                assert(before[k] == i);
            }
        }
        if 0 <= i < front.len() {
            assert(front[i] == v[i]);
        }
    }
}

// ------------------------------------------------------------------ changes --
/// An entry is moved on Windows only, and not while it is delayed; where nothing
/// changes a delay does not matter.
pub proof fn law_delayed_entries_are_not_moved(
    platform: Platform,
    entry: crate::startup::EntryView,
    enabled: bool,
)
    ensures
        move_error(platform, entry, enabled) is None <==> platform is Windows && (!entry.delayed
            || entry.enabled == enabled),
{
}

/// Only an enabled entry of this user's Run key that is not delayed yet can be
/// delayed, and only on Windows.
pub proof fn law_who_can_be_delayed(platform: Platform, entry: crate::startup::EntryView)
    ensures
        delay_error(platform, entry) is None <==> platform is Windows && entry.origin
            is RunCurrentUser && entry.enabled && !entry.delayed,
{
}

/// A delayed entry is shown with its own command and its delay: the value that
/// delaying writes, read together with what was put aside, is the entry as it
/// was, marked as delayed.
pub proof fn law_delayed_entry_shows_its_own_command(
    exe: Seq<char>,
    origin: StartupOrigin,
    name: Seq<char>,
    blob: DelayedBlob,
    exe_size: Option<u64>,
)
    requires
        forall|i: int| 0 <= i < exe.len() ==> #[trigger] exe[i] != '\0',
        !crate::text::has(exe, "--delayed-start"@),
    ensures
        ({
            let live = text_value(shim_line(exe, delayed_as(origin, name)), false);
            &&& live_entry(origin, name, live, Some(blob), exe_size) matches Some(e)
            &&& e.name == name
            &&& e.command == blob.command@
            &&& e.delayed
            &&& e.delay_secs == blob.delay_secs
            &&& e.enabled
            &&& e.origin == origin
        }),
{
    let id = delayed_as(origin, name);
    let line = shim_line(exe, id);
    law_shim_carries_its_id(exe, origin, name);
    reveal_strlit("--delayed-start");
    assert forall|i: int| 0 <= i < line.len() implies #[trigger] line[i] != '\0' by {
        let n = exe.len() as int;
        let f = "--delayed-start"@;
        assert(f.len() == 15);
        if i == 0 {
            assert(line[i] == '"');
        } else if i < 1 + n {
            assert(line[i] == exe[i - 1]);
        } else if i < 3 + n {
            assert(line[i] == '"' || line[i] == ' ');
        } else if i < 18 + n {
            assert(line[i] == f[i - 3 - n]);
        } else if i == 18 + n {
            assert(line[i] == ' ');
        } else {
            assert(line[i] == id[i - 19 - n]);
            assert(is_hex_char(id[i - 19 - n]));
        }
    }
    law_registry_text_roundtrip(line, false);
}

} // verus!
