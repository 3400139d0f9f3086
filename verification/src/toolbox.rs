//! Toolbox: a curated catalog of Windows maintenance tools.
//!
//! Safety by construction:
//! - The catalog is Rust data, not a file: no manifest and no webview input can
//!   ever inject a command. Callers pass a tool id + a mode; the command line
//!   is re-derived here.
//! - Every invocation is a program with an argument vector, never a shell
//!   string. The only user-supplied text (winget query / package id) is
//!   validated and passed as one argument behind an explicit `--query`/`--id`.
//! - Read-only *checks* and *actions* are separate commands, so a check can run
//!   freely and an action be confirmed with the literal command shown.
use crate::env::Env;
use crate::rules::lemma_find_skip;
use crate::scanner::EntryKind;
use crate::text::{
    char_is_control, char_is_white, chars_of, copy, decimal, decimal_of, find_chars, find_from,
    is_control, is_digit, is_white, join2, join3, lemma_decimal_value, lemma_find_from, parse_u32,
    same, signed_decimal, signed_decimal_of, string_of, trim, trimmed, u32_value, views,
};
use crate::types::Platform;
use vstd::prelude::*;
use vstd::utf8::encode_utf8;

verus! {

// ------------------------------------------------------------------- model --
/// Screen grouping. `id()` is the stable string the UI keys translations on.
#[derive(Debug, Clone, Copy, PartialEq, Eq, Structural)]
pub enum Category {
    Storage,
    Updates,
    Software,
    Repair,
}

impl Category {
    pub fn id(self) -> (r: &'static str)
        ensures
            r@ == match self {
                Category::Storage => "storage"@,
                Category::Updates => "updates"@,
                Category::Software => "software"@,
                Category::Repair => "repair"@,
            },
    {
        match self {
            Category::Storage => "storage",
            Category::Updates => "updates",
            Category::Software => "software",
            Category::Repair => "repair",
        }
    }
}

// ------------------------------------------------------------ placeholders --
/// `s` with every `%NAME%` replaced by the variable's value. A token whose
/// variable is unset stays as it is, and so does a `%` that starts no token.
pub open spec fn substituted(env: Env, s: Seq<char>) -> Seq<char>
    decreases s.len(),
{
    match find_from(s, seq!['%'], 0) {
        None => s,
        Some(i) => if i < 0 || i >= s.len() {
            s
        } else {
            match find_from(s, seq!['%'], i + 1) {
                Some(j) => if j > i + 1 && j < s.len() {
                    let name = s.subrange(i + 1, j);
                    let value = match env.value(name) {
                        Some(v) => v,
                        None => seq!['%'] + name + seq!['%'],
                    };
                    s.take(i) + value + substituted(env, s.skip(j + 1))
                } else {
                    s.take(i + 1) + substituted(env, s.skip(i + 1))
                },
                None => s.take(i + 1) + substituted(env, s.skip(i + 1)),
            }
        },
    }
}

/// Text without a `%` stays as it is.
pub proof fn lemma_substituted_plain(env: Env, s: Seq<char>)
    requires
        !s.contains('%'),
    ensures
        substituted(env, s) == s,
{
    lemma_find_from(s, seq!['%'], 0);
    match find_from(s, seq!['%'], 0) {
        Some(i) => {
            assert(s.subrange(i, i + 1) =~= seq!['%']);
            assert(s.subrange(i, i + 1)[0] == s[i]);
            assert(s.contains('%'));
        },
        None => {},
    }
}

/// One token read.
proof fn lemma_token(env: Env, out: Seq<char>, rest: Seq<char>, i: int, j: int)
    requires
        find_from(rest, seq!['%'], 0) == Some(i),
        find_from(rest, seq!['%'], i + 1) == Some(j),
        0 <= i,
        i + 1 < j < rest.len(),
    ensures
        out + substituted(env, rest) == out + rest.take(i) + (match env.value(
            rest.subrange(i + 1, j),
        ) {
            Some(v) => v,
            None => seq!['%'] + rest.subrange(i + 1, j) + seq!['%'],
        }) + substituted(env, rest.skip(j + 1)),
{
    let name = rest.subrange(i + 1, j);
    let value = match env.value(name) {
        Some(v) => v,
        None => seq!['%'] + name + seq!['%'],
    };
    let tail = substituted(env, rest.skip(j + 1));
    assert(substituted(env, rest) == rest.take(i) + value + tail);
    assert(out + (rest.take(i) + value + tail) =~= out + rest.take(i) + value + tail);
}

/// A `%` that starts no token.
proof fn lemma_lone(env: Env, out: Seq<char>, rest: Seq<char>, i: int)
    requires
        find_from(rest, seq!['%'], 0) == Some(i),
        0 <= i < rest.len(),
        find_from(rest, seq!['%'], i + 1) matches Some(j) ==> j <= i + 1,
    ensures
        out + substituted(env, rest) == (out + rest.take(i)).push('%') + substituted(
            env,
            rest.skip(i + 1),
        ),
{
    lemma_find_from(rest, seq!['%'], 0);
    assert(rest.subrange(i, i + 1)[0] == seq!['%'][0]);
    let tail = substituted(env, rest.skip(i + 1));
    assert(substituted(env, rest) == rest.take(i + 1) + tail);
    assert(rest.take(i + 1) =~= rest.take(i).push('%'));
    assert(out + (rest.take(i + 1) + tail) =~= (out + rest.take(i)).push('%') + tail);
}

/// Expand `%NAME%` tokens from the environment. Tokens whose variable is unset
/// stay literal, so a missing variable can never collapse a path to `\`.
pub fn expand_env(env: &Env, s: &str) -> (r: String)
    ensures
        r@ == substituted(*env, s@),
{
    let cs: Vec<char> = chars_of(s);
    let percent: Vec<char> = vec!['%'];
    assert(percent@ =~= seq!['%']);
    let mut out: String = String::new();
    let mut at: usize = 0;
    let n: usize = cs.len();
    assert(cs@.skip(0) =~= cs@);
    assert(out@ + substituted(*env, s@) =~= substituted(*env, s@));
    loop
        invariant
            cs@ == s@,
            percent@ == seq!['%'],
            at <= cs@.len() == n,
            substituted(*env, s@) == out@ + substituted(*env, cs@.skip(at as int)),
        decreases cs@.len() - at,
    {
        let ghost rest = cs@.skip(at as int);
        let ghost before = out@;
        proof {
            lemma_find_skip(cs@, at as int, 0);
        }
        match find_chars(&cs, &percent, at) {
            None => {
                let tail: String = string_of(&cs, at, n);
                assert(tail@ == rest);
                out.push_str(tail.as_str());
                return out;
            },
            Some(i) => {
                let ghost k = i - at;
                proof {
                    lemma_find_skip(cs@, at as int, k + 1);
                }
                let head: String = string_of(&cs, at, i);
                assert(head@ == rest.take(k));
                out.push_str(head.as_str());
                match find_chars(&cs, &percent, i + 1) {
                    Some(j) if j > i + 1 => {
                        let name: String = string_of(&cs, i + 1, j);
                        proof {
                            lemma_token(*env, before, rest, k, j - at);
                            assert(name@ == rest.subrange(k + 1, j - at));
                            assert(cs@.skip(j + 1) == rest.skip(j - at + 1));
                        }
                        match env.get(name.as_str()) {
                            Some(v) => {
                                out.push_str(v.as_str());
                            },
                            None => {
                                let ghost mid = out@;
                                out.push('%');
                                out.push_str(name.as_str());
                                out.push('%');
                                assert(out@ == mid + (seq!['%'] + name@ + seq!['%']));
                            },
                        }
                        at = j + 1;
                    },
                    _ => {
                        proof {
                            lemma_lone(*env, before, rest, k);
                            assert(cs@.skip(i + 1) == rest.skip(k + 1));
                        }
                        out.push('%');
                        at = i + 1;
                    },
                }
            },
        }
    }
}

// ---------------------------------------------------------------- commands --
/// One process invocation: program + argument vector. No shell, ever.
#[derive(Debug)]
pub struct Cmd {
    pub program: String,
    pub args: Vec<String>,
}

#[verifier::ext_equal]
pub struct CmdView {
    pub program: Seq<char>,
    pub args: Seq<Seq<char>>,
}

impl View for Cmd {
    type V = CmdView;

    open spec fn view(&self) -> CmdView {
        CmdView { program: self.program@, args: views(self.args@) }
    }
}

/// The texts of some literals.
pub open spec fn strs(v: Seq<&str>) -> Seq<Seq<char>> {
    v.map_values(|s: &str| s@)
}

/// The commands of a list.
pub open spec fn cmds(v: Seq<Cmd>) -> Seq<CmdView> {
    v.map_values(|c: Cmd| c@)
}

/// A program with its arguments, placeholders replaced.
pub open spec fn cmd_of(env: Env, program: Seq<char>, args: Seq<Seq<char>>) -> CmdView {
    CmdView {
        program: substituted(env, program),
        args: args.map_values(|a: Seq<char>| substituted(env, a)),
    }
}

/// A word as it is shown: in quotes where it is empty or holds white space.
pub open spec fn quoted(s: Seq<char>) -> Seq<char> {
    if s.len() == 0 || exists|i: int| 0 <= i < s.len() && is_white(#[trigger] s[i]) {
        seq!['"'] + s + seq!['"']
    } else {
        s
    }
}

/// The words of a command line with a space between them.
pub open spec fn shown_line(program: Seq<char>, args: Seq<Seq<char>>) -> Seq<char>
    decreases args.len(),
{
    if args.len() == 0 {
        quoted(program)
    } else {
        shown_line(program, args.drop_last()) + seq![' '] + quoted(args.last())
    }
}

fn quote_if_needed(s: &str) -> (r: String)
    ensures
        r@ == quoted(s@),
{
    let cs: Vec<char> = chars_of(s);
    let n: usize = cs.len();
    let mut white: bool = n == 0;
    let mut i: usize = 0;
    while i < n && !white
        invariant
            i <= n == cs@.len(),
            cs@ == s@,
            white ==> n == 0 || exists|k: int| 0 <= k < s@.len() && is_white(#[trigger] s@[k]),
            !white ==> n > 0 && forall|k: int| 0 <= k < i ==> !is_white(#[trigger] s@[k]),
        decreases n - i,
    {
        if char_is_white(cs[i]) {
            assert(is_white(s@[i as int]));
            white = true;
        }
        i += 1;
    }
    if white {
        let mut out: String = String::new();
        out.push('"');
        out.push_str(s);
        out.push('"');
        assert(out@ =~= quoted(s@));
        out
    } else {
        copy(s)
    }
}

impl Cmd {
    /// `%VAR%` tokens in program and args are expanded from the environment at
    /// construction time (unknown vars are left literal, never emptied).
    pub fn new(env: &Env, program: &str, args: &[&str]) -> (r: Cmd)
        ensures
            r@ == cmd_of(*env, program@, strs(args@)),
    {
        let mut out: Vec<String> = Vec::new();
        let mut i: usize = 0;
        while i < args.len()
            invariant
                i <= args@.len(),
                out@.len() == i,
                forall|k: int|
                    0 <= k < i ==> (#[trigger] out@[k])@ == substituted(*env, args@[k]@),
            decreases args@.len() - i,
        {
            out.push(expand_env(env, args[i]));
            i += 1;
        }
        let r: Cmd = Cmd { program: expand_env(env, program), args: out };
        assert(r@.args =~= cmd_of(*env, program@, strs(args@)).args);
        r
    }

    /// Human-readable command line for confirm dialogs and the console.
    /// Arguments containing whitespace are quoted; nothing is ever executed
    /// from this string.
    pub fn display(&self) -> (r: String)
        ensures
            r@ == shown_line(self@.program, self@.args),
    {
        let mut out: String = quote_if_needed(self.program.as_str());
        let mut i: usize = 0;
        let ghost args = views(self.args@);
        while i < self.args.len()
            invariant
                i <= self.args@.len(),
                args == views(self.args@),
                out@ == shown_line(self.program@, args.take(i as int)),
            decreases self.args@.len() - i,
        {
            out.push(' ');
            out.push_str(quote_if_needed(self.args[i].as_str()).as_str());
            i += 1;
            proof {
                let t = args.take(i as int);
                assert(t.drop_last() =~= args.take(i - 1));
                assert(t.last() == self.args@[i - 1]@);
                assert(out@ =~= shown_line(self.program@, t));
            }
        }
        assert(args.take(i as int) =~= args);
        out
    }

    /// The message for a command that could not be started.
    pub fn start_error(&self, cause: &str) -> (r: String)
        ensures
            r@ == "could not start "@ + self.program@ + ": "@ + cause@,
    {
        let head: String = join3("could not start ", self.program.as_str(), ": ");
        join2(head.as_str(), cause)
    }
}

// ------------------------------------------------------------------- tools --
/// A cheap, read-only size preview shown on the card before anything runs.
#[derive(Debug)]
pub enum Probe {
    /// No preview.
    Nothing,
    /// Size of one file (0 when absent).
    File(String),
    /// Summed size of these directory trees (missing ones count 0).
    Dirs(Vec<String>),
}

#[verifier::ext_equal]
pub enum ProbeView {
    Nothing,
    File(Seq<char>),
    Dirs(Seq<Seq<char>>),
}

impl View for Probe {
    type V = ProbeView;

    open spec fn view(&self) -> ProbeView {
        match self {
            Probe::Nothing => ProbeView::Nothing,
            Probe::File(p) => ProbeView::File(p@),
            Probe::Dirs(v) => ProbeView::Dirs(views(v@)),
        }
    }
}

/// How the tool takes user text, if at all.
#[derive(Debug, Clone, Copy, PartialEq, Eq, Structural)]
pub enum Input {
    /// No text.
    Nothing,
    /// The Software "find & install" tool: check = search by query, action =
    /// install by exact package id.
    WingetTerm,
}

#[derive(Debug)]
pub struct Tool {
    pub id: &'static str,
    pub category: Category,
    pub name: &'static str,
    pub blurb: &'static str,
    /// Every command of this tool needs an elevated process.
    pub needs_admin: bool,
    /// The action asks for / needs a reboot to take full effect.
    pub reboot: bool,
    /// Minutes rather than seconds (sfc, DISM RestoreHealth).
    pub long_running: bool,
    /// Read-only inspection. Empty = no check.
    pub check: Vec<Cmd>,
    pub check_label: &'static str,
    /// The change. Steps run in order and stop at the first failure.
    pub action: Vec<Cmd>,
    pub action_label: &'static str,
    /// Launch-and-forget (Settings page, Disk Cleanup); no output captured.
    pub open: Option<Cmd>,
    pub probe: Probe,
    pub input: Input,
}

#[verifier::ext_equal]
pub struct ToolView {
    pub id: Seq<char>,
    pub category: Category,
    pub name: Seq<char>,
    pub blurb: Seq<char>,
    pub needs_admin: bool,
    pub reboot: bool,
    pub long_running: bool,
    pub check: Seq<CmdView>,
    pub check_label: Seq<char>,
    pub action: Seq<CmdView>,
    pub action_label: Seq<char>,
    pub open: Option<CmdView>,
    pub probe: ProbeView,
    pub input: Input,
}

impl View for Tool {
    type V = ToolView;

    open spec fn view(&self) -> ToolView {
        ToolView {
            id: self.id@,
            category: self.category,
            name: self.name@,
            blurb: self.blurb@,
            needs_admin: self.needs_admin,
            reboot: self.reboot,
            long_running: self.long_running,
            check: cmds(self.check@),
            check_label: self.check_label@,
            action: cmds(self.action@),
            action_label: self.action_label@,
            open: match self.open {
                Some(c) => Some(c@),
                None => None,
            },
            probe: self.probe@,
            input: self.input,
        }
    }
}

pub open spec fn tools_view(v: Seq<Tool>) -> Seq<ToolView> {
    v.map_values(|t: Tool| t@)
}

impl Tool {
    /// A tool that does nothing yet.
    pub open spec fn blank(
        id: Seq<char>,
        category: Category,
        name: Seq<char>,
        blurb: Seq<char>,
    ) -> ToolView {
        ToolView {
            id,
            category,
            name,
            blurb,
            needs_admin: false,
            reboot: false,
            long_running: false,
            check: Seq::empty(),
            check_label: "Check"@,
            action: Seq::empty(),
            action_label: "Run"@,
            open: None,
            probe: ProbeView::Nothing,
            input: Input::Nothing,
        }
    }

    pub fn base(
        id: &'static str,
        category: Category,
        name: &'static str,
        blurb: &'static str,
    ) -> (r: Tool)
        ensures
            r@ == Self::blank(id@, category, name@, blurb@),
    {
        let r: Tool = Tool {
            id,
            category,
            name,
            blurb,
            needs_admin: false,
            reboot: false,
            long_running: false,
            check: Vec::new(),
            check_label: "Check",
            action: Vec::new(),
            action_label: "Run",
            open: None,
            probe: Probe::Nothing,
            input: Input::Nothing,
        };
        assert(r@ =~~= Self::blank(id@, category, name@, blurb@));
        r
    }
}

// -------------------------------------------------------------- user input --
/// Why a search term is refused.
pub open spec fn term_error(term: Seq<char>) -> Option<Seq<char>> {
    if term.len() == 0 {
        Some("Type a package name or id first."@)
    } else if encode_utf8(term).len() > 128 {
        Some("Search term is too long."@)
    } else if term[0] == '-' || term[0] == '/' {
        Some("Search term must not start with '-' or '/'."@)
    } else if exists|i: int| 0 <= i < term.len() && is_control(#[trigger] term[i]) {
        Some("Search term contains control characters."@)
    } else {
        None
    }
}

/// Validate the user-typed winget query / package id. Rejects anything that
/// could read as a flag or carry control characters; spaces are fine (the term
/// travels as ONE argv element).
pub fn validate_winget_term(raw: &str) -> (r: Result<String, String>)
    ensures
        match r {
            Ok(t) => t@ == trimmed(raw@) && term_error(trimmed(raw@)) is None,
            Err(e) => term_error(trimmed(raw@)) == Some(e@),
        },
{
    let term: String = trim(raw);
    let cs: Vec<char> = chars_of(term.as_str());
    let n: usize = cs.len();
    if n == 0 {
        return Err(copy("Type a package name or id first."));
    }
    if term.as_str().as_bytes().len() > 128 {
        return Err(copy("Search term is too long."));
    }
    if cs[0] == '-' || cs[0] == '/' {
        return Err(copy("Search term must not start with '-' or '/'."));
    }
    let mut i: usize = 0;
    while i < n
        invariant
            i <= n == cs@.len(),
            cs@ == term@,
            forall|k: int| 0 <= k < i ==> !is_control(#[trigger] cs@[k]),
            term@ == trimmed(raw@),
            n > 0,
            encode_utf8(term@).len() <= 128,
            term@[0] != '-',
            term@[0] != '/',
        decreases n - i,
    {
        if char_is_control(cs[i]) {
            assert(is_control(term@[i as int]));
            return Err(copy("Search term contains control characters."));
        }
        i += 1;
    }
    Ok(term)
}

#[derive(Debug, Clone, Copy, PartialEq, Eq, Structural)]
pub enum Mode {
    Check,
    Action,
    Open,
}

impl Mode {
    pub fn parse(s: &str) -> (r: Option<Mode>)
        ensures
            r == if s@ == "check"@ {
                Some(Mode::Check)
            } else if s@ == "action"@ {
                Some(Mode::Action)
            } else if s@ == "open"@ {
                Some(Mode::Open)
            } else {
                None
            },
    {
        if same(s, "check") {
            Some(Mode::Check)
        } else if same(s, "action") {
            Some(Mode::Action)
        } else if same(s, "open") {
            Some(Mode::Open)
        } else {
            None
        }
    }
}

// ------------------------------------------------------------------- probe --
/// The sizes that are known, added up.
pub open spec fn known_bytes(v: Seq<Option<u64>>) -> nat
    decreases v.len(),
{
    if v.len() == 0 {
        0
    } else {
        known_bytes(v.drop_last()) + match v.last() {
            Some(n) => n as nat,
            None => 0,
        }
    }
}

/// Bytes behind a probe; None when there is no probe or nothing is there. The
/// sizes are those of the file, or of each directory tree that exists.
pub open spec fn probed(probe: Probe, sizes: Seq<Option<u64>>) -> Option<int> {
    match probe {
        Probe::Nothing => None,
        Probe::File(_) => match sizes[0] {
            Some(n) => Some(n as int),
            None => None,
        },
        Probe::Dirs(_) => if exists|i: int| 0 <= i < sizes.len() && (#[trigger] sizes[i]) is Some {
            Some(known_bytes(sizes) as int)
        } else {
            None
        },
    }
}

pub fn probe_bytes(probe: &Probe, sizes: &Vec<Option<u64>>) -> (r: Option<u64>)
    requires
        probe is File ==> sizes@.len() == 1,
        known_bytes(sizes@) <= u64::MAX,
    ensures
        (match r {
            Some(n) => Some(n as int),
            None => None,
        }) == probed(*probe, sizes@),
{
    match probe {
        Probe::Nothing => None,
        Probe::File(_) => sizes[0],
        Probe::Dirs(_) => {
            let mut total: u64 = 0;
            let mut any: bool = false;
            let mut i: usize = 0;
            let n: usize = sizes.len();
            while i < n
                invariant
                    i <= n == sizes@.len(),
                    known_bytes(sizes@) <= u64::MAX,
                    total == known_bytes(sizes@.take(i as int)),
                    any <==> exists|k: int| 0 <= k < i && (#[trigger] sizes@[k]) is Some,
                decreases n - i,
            {
                proof {
                    assert(sizes@.take(i + 1).drop_last() =~= sizes@.take(i as int));
                    lemma_known_prefix(sizes@, i + 1);
                }
                match sizes[i] {
                    Some(b) => {
                        assert(sizes@[i as int] is Some);
                        any = true;
                        total = total + b;
                    },
                    None => {},
                }
                i += 1;
            }
            assert(sizes@.take(n as int) =~= sizes@);
            if any {
                Some(total)
            } else {
                None
            }
        },
    }
}

proof fn lemma_known_prefix(v: Seq<Option<u64>>, i: int)
    requires
        0 <= i <= v.len(),
    ensures
        known_bytes(v.take(i)) <= known_bytes(v),
    decreases v.len() - i,
{
    if i < v.len() {
        lemma_known_prefix(v, i + 1);
        assert(v.take(i + 1).drop_last() =~= v.take(i));
    } else {
        assert(v.take(i) =~= v);
    }
}

/// One entry of a directory whose size is taken.
pub struct SizedEntry {
    pub kind: EntryKind,
    pub path: String,
    /// The length of a file, where it could be read.
    pub len: Option<u64>,
}

/// The bytes of the files among some entries.
pub open spec fn entry_bytes(v: Seq<SizedEntry>) -> nat
    decreases v.len(),
{
    if v.len() == 0 {
        0
    } else {
        entry_bytes(v.drop_last()) + match (v.last().kind, v.last().len) {
            (EntryKind::File, Some(n)) => n as nat,
            _ => 0,
        }
    }
}

/// The directories among some entries.
pub open spec fn entry_dirs(v: Seq<SizedEntry>) -> Seq<Seq<char>>
    decreases v.len(),
{
    if v.len() == 0 {
        Seq::empty()
    } else if v.last().kind is Directory {
        entry_dirs(v.drop_last()).push(v.last().path@)
    } else {
        entry_dirs(v.drop_last())
    }
}

proof fn lemma_entry_bytes(v: Seq<SizedEntry>, i: int)
    requires
        0 <= i <= v.len(),
    ensures
        entry_bytes(v.take(i)) <= entry_bytes(v),
    decreases v.len() - i,
{
    if i < v.len() {
        lemma_entry_bytes(v, i + 1);
        assert(v.take(i + 1).drop_last() =~= v.take(i));
    } else {
        assert(v.take(i) =~= v);
    }
}

/// Recursive size of a directory tree from the metadata the enumeration returns
/// (no per-file stat). Links are not followed; unreadable subtrees count what
/// was readable.
pub struct SizeWalk {
    pub todo: Vec<String>,
    pub total: u64,
}

impl SizeWalk {
    pub fn new(dir: &str) -> (r: Self)
        ensures
            views(r.todo@) == seq![dir@],
            r.total == 0,
    {
        let mut todo: Vec<String> = Vec::new();
        todo.push(copy(dir));
        assert(views(todo@) =~= seq![dir@]);
        SizeWalk { todo, total: 0 }
    }

    /// The next directory to read.
    pub fn next(&mut self) -> (r: Option<String>)
        ensures
            final(self).total == old(self).total,
            match r {
                Some(p) => old(self).todo@.len() > 0 && p == old(self).todo@.last()
                    && final(self).todo@ == old(self).todo@.drop_last(),
                None => old(self).todo@.len() == 0 && final(self).todo@ == old(self).todo@,
            },
    {
        self.todo.pop()
    }

    /// Takes the entries of a directory: files count, directories are looked
    /// into later, links are passed over.
    pub fn feed(&mut self, entries: &Vec<SizedEntry>)
        requires
            old(self).total + entry_bytes(entries@) <= u64::MAX,
        ensures
            final(self).total == old(self).total + entry_bytes(entries@),
            views(final(self).todo@) == views(old(self).todo@) + entry_dirs(entries@),
    {
        let ghost todo0 = views(self.todo@);
        let ghost total0 = self.total;
        let n: usize = entries.len();
        let mut i: usize = 0;
        assert(entries@.take(0) =~= Seq::empty());
        assert(todo0 + Seq::empty() =~= todo0);
        while i < n
            invariant
                i <= n == entries@.len(),
                total0 + entry_bytes(entries@) <= u64::MAX,
                self.total == total0 + entry_bytes(entries@.take(i as int)),
                views(self.todo@) == todo0 + entry_dirs(entries@.take(i as int)),
            decreases n - i,
        {
            let ghost t = entries@.take(i + 1);
            proof {
                assert(t.drop_last() =~= entries@.take(i as int));
                assert(t.last() == entries@[i as int]);
                lemma_entry_bytes(entries@, i + 1);
            }
            let e: &SizedEntry = &entries[i];
            match e.kind {
                EntryKind::File => match e.len {
                    Some(len) => {
                        self.total = self.total + len;
                    },
                    None => {},
                },
                EntryKind::Directory => {
                    let ghost before = self.todo@;
                    self.todo.push(e.path.clone());
                    assert(views(self.todo@) =~= views(before).push(e.path@));
                    assert(views(before).push(e.path@) =~= todo0 + entry_dirs(t));
                },
                EntryKind::Link => {},
            }
            i += 1;
        }
        assert(entries@.take(n as int) =~= entries@);
    }
}

// --------------------------------------------------------------- elevation --
/// Command-line flag the elevated instance receives so it can wait for the old
/// process to exit before creating its window (WebView2 refuses to share its
/// user-data folder between integrity levels).
pub const WAIT_FOR_PID_FLAG: &'static str = "--wait-for-pid";

/// The parameters of the elevated instance.
pub fn wait_for_pid_params(pid: u32) -> (r: String)
    ensures
        r@ == "--wait-for-pid"@ + seq![' '] + decimal(pid as nat),
{
    let mut out: String = copy(WAIT_FOR_PID_FLAG);
    out.push(' ');
    out.push_str(decimal_of(pid as u64).as_str());
    out
}

/// Starting a second, elevated instance came back with this code: above 32 it
/// was started, 5 means that the user refused.
pub fn relaunch_result(platform: Platform, code: i64) -> (r: Result<(), String>)
    ensures
        match r {
            Ok(_) => platform is Windows && code > 32,
            Err(e) => if !(platform is Windows) {
                e@ == "Elevation is only supported on Windows."@
            } else if code == 5 {
                e@ == "Elevation was cancelled."@
            } else {
                code <= 32 && e@ == "Could not start an elevated instance (code "@
                    + signed_decimal(code as int) + ")."@
            },
        },
{
    match platform {
        Platform::Windows => {},
        _ => {
            return Err(copy("Elevation is only supported on Windows."));
        },
    }
    if code > 32 {
        Ok(())
    } else if code == 5 {
        Err(copy("Elevation was cancelled."))
    } else {
        let n: String = signed_decimal_of(code);
        Err(join3("Could not start an elevated instance (code ", n.as_str(), ")."))
    }
}

/// The first position of a word in a list.
pub open spec fn position(v: Seq<Seq<char>>, word: Seq<char>, from: int) -> Option<int>
    decreases v.len() - from,
{
    if from < 0 || from >= v.len() {
        None
    } else if v[from] == word {
        Some(from)
    } else {
        position(v, word, from + 1)
    }
}

/// The number behind the first flag.
pub open spec fn pid_argument(args: Seq<Seq<char>>) -> Option<u32> {
    match position(args, "--wait-for-pid"@, 0) {
        Some(i) => if i + 1 < args.len() {
            u32_value(args[i + 1])
        } else {
            None
        },
        None => None,
    }
}

/// If `args` carry `--wait-for-pid <pid>`, return the pid.
pub fn wait_for_pid_arg(args: &Vec<String>) -> (r: Option<u32>)
    ensures
        r == pid_argument(views(args@)),
{
    let ghost all = views(args@);
    let n: usize = args.len();
    let mut i: usize = 0;
    while i < n
        invariant
            i <= n == args@.len(),
            all == views(args@),
            position(all, "--wait-for-pid"@, 0) == position(all, "--wait-for-pid"@, i as int),
        decreases n - i,
    {
        assert(all[i as int] == args@[i as int]@);
        if same(args[i].as_str(), WAIT_FOR_PID_FLAG) {
            if n - i > 1 {
                assert(all[i + 1] == args@[i + 1]@);
                return parse_u32(args[i + 1].as_str());
            }
            return None;
        }
        i += 1;
    }
    None
}

/// An elevated instance that is started with the parameters of a process waits
/// for that process.
pub proof fn law_relaunched_instance_waits_for_its_parent(exe: Seq<char>, pid: u32)
    requires
        exe != "--wait-for-pid"@,
    ensures
        pid_argument(seq![exe, "--wait-for-pid"@, decimal(pid as nat)]) == Some(pid),
{
    let args = seq![exe, "--wait-for-pid"@, decimal(pid as nat)];
    assert(position(args, "--wait-for-pid"@, 1) == Some(1int));
    assert(position(args, "--wait-for-pid"@, 0) == Some(1int));
    lemma_decimal_value(pid as nat);
    let d = decimal(pid as nat);
    assert(is_digit(d[0]));
}

} // verus!
