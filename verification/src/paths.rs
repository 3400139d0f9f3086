//! Paths taken apart the way the standard library does it.
//!
//! A path is a string; what it means depends on the platform, so every
//! function takes a `PathStyle`. Paths are compared component by component:
//! repeated separators and inner `.` components do not count, and a Windows
//! drive letter has no case.
use crate::text::{chars_of, same_chars, string_of};
use vstd::prelude::*;

verus! {

/// Whose rules a path follows.
#[derive(Clone, Copy, PartialEq, Eq, Structural, Debug)]
pub enum PathStyle {
    Posix,
    Windows,
}

/// What a Windows path starts with.
#[derive(Clone, Copy, PartialEq, Eq, Structural, Debug)]
pub enum PrefixKind {
    /// `\\?\name`
    Verbatim,
    /// `\\?\UNC\server\share`
    VerbatimUnc,
    /// `\\?\C:`
    VerbatimDisk,
    /// `\\.\device`
    Device,
    /// `\\server\share`
    Unc,
    /// `C:`
    Disk,
}

/// The prefix of a path: its kind, the one or two names in it, and how many
/// characters it takes.
pub struct Prefix {
    pub kind: PrefixKind,
    pub first: Seq<char>,
    pub second: Seq<char>,
    pub len: int,
}

/// One component of a path.
pub enum Component {
    Prefix { kind: PrefixKind, first: Seq<char>, second: Seq<char> },
    RootDir,
    CurDir,
    ParentDir,
    Normal { name: Seq<char> },
}

pub open spec fn is_verbatim(kind: PrefixKind) -> bool {
    kind == PrefixKind::Verbatim || kind == PrefixKind::VerbatimUnc || kind
        == PrefixKind::VerbatimDisk
}

/// A separator. Windows takes both slashes, but a verbatim path only `\`.
pub open spec fn is_sep(style: PathStyle, verbatim: bool, c: char) -> bool {
    match style {
        PathStyle::Posix => c == '/',
        PathStyle::Windows => c == '\\' || (c == '/' && !verbatim),
    }
}

/// The first separator from `from` on, or the end.
pub open spec fn sep_from(style: PathStyle, verbatim: bool, s: Seq<char>, from: int) -> int
    decreases s.len() - from,
{
    if from < 0 || from >= s.len() {
        s.len() as int
    } else if is_sep(style, verbatim, s[from]) {
        from
    } else {
        sep_from(style, verbatim, s, from + 1)
    }
}

pub open spec fn is_letter(c: char) -> bool {
    'a' <= c <= 'z' || 'A' <= c <= 'Z'
}

pub open spec fn upper_letter(c: char) -> char {
    if 'a' <= c <= 'z' {
        (c as int - 32) as char
    } else {
        c
    }
}

/// `s` has a drive letter and a colon at `at`.
pub open spec fn drive_at(s: Seq<char>, at: int) -> bool {
    at + 1 < s.len() && is_letter(s[at]) && s[at + 1] == ':'
}

/// Two names from `from` on, separated by one separator: `server\share`.
pub open spec fn two_names(verbatim: bool, s: Seq<char>, from: int) -> (Seq<char>, Seq<char>) {
    let w = PathStyle::Windows;
    let a = sep_from(w, verbatim, s, from);
    let second = if a < s.len() {
        s.subrange(a + 1, sep_from(w, verbatim, s, a + 1))
    } else {
        Seq::empty()
    };
    (s.subrange(from, a), second)
}

/// The characters that two names and the separator between them take.
pub open spec fn names_len(names: (Seq<char>, Seq<char>)) -> int {
    if names.1.len() > 0 {
        names.0.len() + 1int + names.1.len()
    } else {
        names.0.len() as int
    }
}

pub open spec fn either_slash(c: char) -> bool {
    c == '\\' || c == '/'
}

/// The prefix of a Windows path.
pub open spec fn windows_prefix(s: Seq<char>) -> Option<Prefix> {
    let w = PathStyle::Windows;
    if s.len() >= 2 && either_slash(s[0]) && either_slash(s[1]) {
        if s.len() >= 4 && s[0] == '\\' && s[1] == '\\' && s[2] == '?' && s[3] == '\\' {
            if s.len() >= 8 && s[4] == 'U' && s[5] == 'N' && s[6] == 'C' && either_slash(s[7]) {
                let names = two_names(true, s, 8);
                Some(
                    Prefix {
                        kind: PrefixKind::VerbatimUnc,
                        first: names.0,
                        second: names.1,
                        len: 8 + names_len(names),
                    },
                )
            } else if drive_at(s, 4) && (s.len() == 6 || either_slash(s[6])) {
                Some(
                    Prefix {
                        kind: PrefixKind::VerbatimDisk,
                        first: seq![upper_letter(s[4])],
                        second: Seq::empty(),
                        len: 6,
                    },
                )
            } else {
                let name = s.subrange(4, sep_from(w, true, s, 4));
                Some(
                    Prefix {
                        kind: PrefixKind::Verbatim,
                        first: name,
                        second: Seq::empty(),
                        len: 4int + name.len(),
                    },
                )
            }
        } else if s.len() >= 4 && s[2] == '.' && either_slash(s[3]) {
            let name = s.subrange(4, sep_from(w, false, s, 4));
            Some(
                Prefix {
                    kind: PrefixKind::Device,
                    first: name,
                    second: Seq::empty(),
                    len: 4int + name.len(),
                },
            )
        } else {
            let names = two_names(false, s, 2);
            if names.0.len() > 0 && names.1.len() > 0 {
                Some(
                    Prefix {
                        kind: PrefixKind::Unc,
                        first: names.0,
                        second: names.1,
                        len: 2 + names_len(names),
                    },
                )
            } else {
                None
            }
        }
    } else if drive_at(s, 0) {
        Some(
            Prefix {
                kind: PrefixKind::Disk,
                first: seq![upper_letter(s[0])],
                second: Seq::empty(),
                len: 2,
            },
        )
    } else {
        None
    }
}

pub open spec fn prefix(style: PathStyle, s: Seq<char>) -> Option<Prefix> {
    match style {
        PathStyle::Posix => None,
        PathStyle::Windows => windows_prefix(s),
    }
}

pub open spec fn prefix_len(style: PathStyle, s: Seq<char>) -> int {
    match prefix(style, s) {
        Some(p) => p.len,
        None => 0,
    }
}

pub open spec fn verbatim(style: PathStyle, s: Seq<char>) -> bool {
    match prefix(style, s) {
        Some(p) => is_verbatim(p.kind),
        None => false,
    }
}

/// A separator stands right behind the prefix.
pub open spec fn physical_root(style: PathStyle, s: Seq<char>) -> bool {
    let n = prefix_len(style, s);
    0 <= n < s.len() && is_sep(style, verbatim(style, s), s[n])
}

/// Every prefix but a bare drive stands for a root.
pub open spec fn implicit_root(style: PathStyle, s: Seq<char>) -> bool {
    match prefix(style, s) {
        Some(p) => p.kind != PrefixKind::Disk,
        None => false,
    }
}

/// The path is relative and its first component is `.`.
pub open spec fn leading_dot(style: PathStyle, s: Seq<char>) -> bool {
    let n = prefix_len(style, s);
    &&& !physical_root(style, s)
    &&& !implicit_root(style, s)
    &&& 0 <= n < s.len()
    &&& s[n] == '.'
    &&& (n + 1 == s.len() || is_sep(style, verbatim(style, s), s[n + 1]))
}

/// Where the plain components start: behind the prefix, the root and a
/// leading `.`.
pub open spec fn head_len(style: PathStyle, s: Seq<char>) -> int {
    prefix_len(style, s) + if physical_root(style, s) || leading_dot(style, s) {
        1int
    } else {
        0int
    }
}

/// The prefix, root and leading `.` as components.
pub open spec fn head(style: PathStyle, s: Seq<char>) -> Seq<Component> {
    let start = match prefix(style, s) {
        Some(p) => seq![Component::Prefix { kind: p.kind, first: p.first, second: p.second }],
        None => Seq::empty(),
    };
    if physical_root(style, s) || (implicit_root(style, s) && !verbatim(style, s)) {
        start.push(Component::RootDir)
    } else if prefix(style, s) is None && leading_dot(style, s) {
        start.push(Component::CurDir)
    } else {
        start
    }
}

/// Empty components do not count, nor does `.` outside a verbatim path.
pub open spec fn counts(verbatim: bool, name: Seq<char>) -> bool {
    name.len() > 0 && (name != seq!['.'] || verbatim)
}

/// Start and end of each component that counts, from `at` on.
pub open spec fn segments(
    style: PathStyle,
    verbatim: bool,
    s: Seq<char>,
    at: int,
) -> Seq<(int, int)>
    decreases s.len() + 1 - at,
{
    if at < 0 || at >= s.len() {
        Seq::empty()
    } else {
        let end = sep_from(style, verbatim, s, at);
        let here = if counts(verbatim, s.subrange(at, end)) {
            seq![(at, end)]
        } else {
            Seq::empty()
        };
        proof {
            lemma_sep_from(style, verbatim, s, at);
        }
        here + segments(style, verbatim, s, end + 1)
    }
}

/// Start and end of each plain component of a path.
pub open spec fn body(style: PathStyle, s: Seq<char>) -> Seq<(int, int)> {
    segments(style, verbatim(style, s), s, head_len(style, s))
}

pub open spec fn plain_component(name: Seq<char>) -> Component {
    if name == seq!['.'] {
        Component::CurDir
    } else if name == seq!['.', '.'] {
        Component::ParentDir
    } else {
        Component::Normal { name }
    }
}

/// The components of a path.
pub open spec fn components(style: PathStyle, s: Seq<char>) -> Seq<Component> {
    head(style, s) + body(style, s).map_values(
        |g: (int, int)| plain_component(s.subrange(g.0, g.1)),
    )
}

/// `Path::starts_with`: the components of `base` come first in `s`.
pub open spec fn under(style: PathStyle, s: Seq<char>, base: Seq<char>) -> bool {
    components(style, base).is_prefix_of(components(style, s))
}

/// `Path` equality.
pub open spec fn same_path(style: PathStyle, a: Seq<char>, b: Seq<char>) -> bool {
    components(style, a) == components(style, b)
}

/// `Path::parent`: without the last component; a root, a bare prefix and the
/// empty path have none.
pub open spec fn parent(style: PathStyle, s: Seq<char>) -> Option<Seq<char>> {
    let g = body(style, s);
    if g.len() >= 2 {
        Some(s.take(g[g.len() - 2].1))
    } else if g.len() == 1 {
        Some(s.take(head_len(style, s)))
    } else if prefix(style, s) is None && leading_dot(style, s) {
        Some(Seq::empty())
    } else {
        None
    }
}

/// A directory the way `Path::parent` spells it for its entries: nothing stands
/// behind the last component, and a root that the prefix implies is written
/// out.
pub open spec fn as_parent(style: PathStyle, s: Seq<char>) -> Seq<char> {
    let g = body(style, s);
    if g.len() > 0 {
        s.take(g.last().1)
    } else if implicit_root(style, s) && !physical_root(style, s) {
        s.take(head_len(style, s)).push('\\')
    } else {
        s.take(head_len(style, s))
    }
}

/// `Path::file_name`: the last component where it is a name.
pub open spec fn file_name(style: PathStyle, s: Seq<char>) -> Option<Seq<char>> {
    let g = body(style, s);
    if g.len() == 0 {
        None
    } else {
        match plain_component(s.subrange(g.last().0, g.last().1)) {
            Component::Normal { name } => Some(name),
            _ => None,
        }
    }
}

/// The last dot of `s`, if any.
pub open spec fn last_dot(s: Seq<char>) -> Option<int>
    decreases s.len(),
{
    if s.len() == 0 {
        None
    } else if s.last() == '.' {
        Some(s.len() - 1)
    } else {
        last_dot(s.drop_last())
    }
}

/// What follows the last dot of a file name; a leading dot does not count.
pub open spec fn name_extension(name: Seq<char>) -> Option<Seq<char>> {
    match last_dot(name) {
        Some(i) => if i > 0 {
            Some(name.skip(i + 1))
        } else {
            None
        },
        None => None,
    }
}

/// `Path::extension`.
pub open spec fn extension(style: PathStyle, s: Seq<char>) -> Option<Seq<char>> {
    match file_name(style, s) {
        Some(name) => name_extension(name),
        None => None,
    }
}

/// `Path::strip_prefix`: what is left of `s` behind `base`, and `None` where
/// `s` is not under `base`.
pub open spec fn relative(style: PathStyle, s: Seq<char>, base: Seq<char>) -> Option<Seq<char>> {
    let g = body(style, s);
    let heads = head(style, s).len() as int;
    let taken = components(style, base).len() as int;
    let end = if g.len() > 0 {
        g.last().1
    } else {
        head_len(style, s)
    };
    if !under(style, s, base) {
        None
    } else if taken == 0 {
        Some(s.take(end))
    } else if taken == 1 && prefix(style, s) is Some {
        Some(s.subrange(prefix_len(style, s), end))
    } else if taken - heads < g.len() {
        Some(s.subrange(g[taken - heads].0, end))
    } else {
        Some(Seq::empty())
    }
}

// ------------------------------------------------------------------ facts --
/// `sep_from` gives the nearest separator, or the end where there is none.
pub proof fn lemma_sep_from(style: PathStyle, verbatim: bool, s: Seq<char>, from: int)
    requires
        0 <= from <= s.len(),
    ensures
        from <= sep_from(style, verbatim, s, from) <= s.len(),
        sep_from(style, verbatim, s, from) < s.len() ==> is_sep(
            style,
            verbatim,
            s[sep_from(style, verbatim, s, from)],
        ),
        forall|i: int|
            from <= i < sep_from(style, verbatim, s, from) ==> !is_sep(
                style,
                verbatim,
                #[trigger] s[i],
            ),
    decreases s.len() - from,
{
    if from < s.len() && !is_sep(style, verbatim, s[from]) {
        lemma_sep_from(style, verbatim, s, from + 1);
    }
}

/// A prefix is no longer than its path.
pub proof fn lemma_prefix_len(style: PathStyle, s: Seq<char>)
    ensures
        0 <= prefix_len(style, s) <= head_len(style, s) <= s.len(),
{
    if style == PathStyle::Windows {
        if s.len() >= 8 {
            lemma_two_names(true, s, 8);
        }
        if s.len() >= 4 {
            lemma_sep_from(style, true, s, 4);
            lemma_sep_from(style, false, s, 4);
        }
        if s.len() >= 2 {
            lemma_two_names(false, s, 2);
        }
    }
}

proof fn lemma_two_names(verbatim: bool, s: Seq<char>, from: int)
    requires
        0 <= from <= s.len(),
    ensures
        from + names_len(two_names(verbatim, s, from)) <= s.len(),
{
    let w = PathStyle::Windows;
    lemma_sep_from(w, verbatim, s, from);
    let a = sep_from(w, verbatim, s, from);
    if a < s.len() {
        lemma_sep_from(w, verbatim, s, a + 1);
    }
}

/// Segments are not empty, lie behind `at` and follow one another.
pub proof fn lemma_segments(style: PathStyle, verbatim: bool, s: Seq<char>, at: int)
    requires
        0 <= at,
    ensures
        forall|i: int|
            0 <= i < segments(style, verbatim, s, at).len() ==> at <= (#[trigger] segments(
                style,
                verbatim,
                s,
                at,
            )[i]).0 < segments(style, verbatim, s, at)[i].1 <= s.len(),
        forall|i: int, j: int|
            0 <= i < j < segments(style, verbatim, s, at).len() ==> (#[trigger] segments(
                style,
                verbatim,
                s,
                at,
            )[i]).1 < (#[trigger] segments(style, verbatim, s, at)[j]).0,
    decreases s.len() + 1 - at,
{
    if at < s.len() {
        let end = sep_from(style, verbatim, s, at);
        lemma_sep_from(style, verbatim, s, at);
        lemma_segments(style, verbatim, s, end + 1);
        let rest = segments(style, verbatim, s, end + 1);
        let here = if counts(verbatim, s.subrange(at, end)) {
            seq![(at, end)]
        } else {
            Seq::empty()
        };
        assert(segments(style, verbatim, s, at) == here + rest);
        assert forall|i: int, j: int| 0 <= i < j < (here + rest).len() implies (#[trigger] (here
            + rest)[i]).1 < (#[trigger] (here + rest)[j]).0 by {
            if i >= here.len() {
                assert(rest[i - here.len()].1 < rest[j - here.len()].0);
            } else {
                assert(rest[j - here.len()].0 >= end + 1);
            }
        }
        assert forall|i: int| 0 <= i < (here + rest).len() implies at <= (#[trigger] (here
            + rest)[i]).0 < (here + rest)[i].1 <= s.len() by {
            if i >= here.len() {
                assert(rest[i - here.len()].0 >= end + 1);
            }
        }
    }
}

// ---------------------------------------------------------------- parsing --
/// A prefix with the names it holds.
pub struct PrefixInfo {
    pub kind: PrefixKind,
    pub first: Vec<char>,
    pub second: Vec<char>,
    pub len: usize,
}

impl View for PrefixInfo {
    type V = Prefix;

    open spec fn view(&self) -> Prefix {
        Prefix {
            kind: self.kind,
            first: self.first@,
            second: self.second@,
            len: self.len as int,
        }
    }
}

/// The view of an optional prefix.
pub open spec fn prefix_view(p: Option<PrefixInfo>) -> Option<Prefix> {
    match p {
        Some(i) => Some(i@),
        None => None,
    }
}

/// A path and where its parts are.
pub struct PathInfo {
    pub style: PathStyle,
    pub chars: Vec<char>,
    pub prefix: Option<PrefixInfo>,
    pub head_len: usize,
    pub segs: Vec<(usize, usize)>,
}

/// The positions of a list of segments.
pub open spec fn seg_views(v: Seq<(usize, usize)>) -> Seq<(int, int)> {
    v.map_values(|g: (usize, usize)| (g.0 as int, g.1 as int))
}

impl PathInfo {
    /// The parts are those of the path.
    pub open spec fn wf(&self) -> bool {
        &&& prefix_view(self.prefix) == prefix(self.style, self.chars@)
        &&& self.head_len == head_len(self.style, self.chars@)
        &&& seg_views(self.segs@) == body(self.style, self.chars@)
    }
}

fn seg(cs: &[char], from: usize, to: usize) -> (r: Vec<char>)
    requires
        from <= to <= cs@.len(),
    ensures
        r@ == cs@.subrange(from as int, to as int),
{
    let mut out: Vec<char> = Vec::new();
    let mut i: usize = from;
    while i < to
        invariant
            from <= i <= to <= cs@.len(),
            out@ == cs@.subrange(from as int, i as int),
        decreases to - i,
    {
        out.push(cs[i]);
        i += 1;
        assert(cs@.subrange(from as int, i as int) =~= cs@.subrange(from as int, i - 1).push(
            cs@[i - 1],
        ));
    }
    out
}

fn char_is_sep(style: PathStyle, verbatim: bool, c: char) -> (r: bool)
    ensures
        r == is_sep(style, verbatim, c),
{
    match style {
        PathStyle::Posix => c == '/',
        PathStyle::Windows => c == '\\' || (c == '/' && !verbatim),
    }
}

fn find_sep(style: PathStyle, verbatim: bool, cs: &[char], from: usize) -> (r: usize)
    requires
        from <= cs@.len(),
    ensures
        r == sep_from(style, verbatim, cs@, from as int),
        from <= r <= cs@.len(),
{
    let mut i: usize = from;
    while i < cs.len() && !char_is_sep(style, verbatim, cs[i])
        invariant
            from <= i <= cs@.len(),
            sep_from(style, verbatim, cs@, from as int) == sep_from(
                style,
                verbatim,
                cs@,
                i as int,
            ),
        decreases cs@.len() - i,
    {
        i += 1;
    }
    i
}

fn slash(c: char) -> (r: bool)
    ensures
        r == either_slash(c),
{
    c == '\\' || c == '/'
}

fn has_drive(cs: &[char], at: usize) -> (r: bool)
    requires
        at <= cs@.len(),
    ensures
        r == drive_at(cs@, at as int),
{
    cs.len() - at >= 2 && (('a' <= cs[at] && cs[at] <= 'z') || ('A' <= cs[at] && cs[at] <= 'Z'))
        && cs[at + 1] == ':'
}

fn drive_name(c: char) -> (r: Vec<char>)
    ensures
        r@ == seq![upper_letter(c)],
{
    let mut out: Vec<char> = Vec::new();
    if 'a' <= c && c <= 'z' {
        match char::from_u32(c as u32 - 32) {
            Some(u) => {
                out.push(u);
            },
            None => {
                out.push(c);
            },
        }
    } else {
        out.push(c);
    }
    assert(out@ =~= seq![upper_letter(c)]);
    out
}

fn read_two_names(verbatim: bool, cs: &[char], from: usize) -> (r: (Vec<char>, Vec<char>))
    requires
        from <= cs@.len(),
    ensures
        (r.0@, r.1@) == two_names(verbatim, cs@, from as int),
        from + names_len((r.0@, r.1@)) <= cs@.len(),
{
    proof {
        lemma_two_names(verbatim, cs@, from as int);
    }
    let w: PathStyle = PathStyle::Windows;
    let a: usize = find_sep(w, verbatim, cs, from);
    let first: Vec<char> = seg(cs, from, a);
    let second: Vec<char> = if a < cs.len() {
        let b: usize = find_sep(w, verbatim, cs, a + 1);
        seg(cs, a + 1, b)
    } else {
        Vec::new()
    };
    (first, second)
}

fn both_len(a: &Vec<char>, b: &Vec<char>, start: usize, cs: &[char]) -> (r: usize)
    requires
        start + names_len((a@, b@)) <= cs@.len(),
    ensures
        r == start + names_len((a@, b@)),
{
    let total: usize = cs.len();
    if b.len() > 0 {
        start + a.len() + 1 + b.len()
    } else {
        start + a.len()
    }
}

fn read_windows_prefix(cs: &[char]) -> (r: Option<PrefixInfo>)
    ensures
        prefix_view(r) == windows_prefix(cs@),
{
    let w: PathStyle = PathStyle::Windows;
    let n: usize = cs.len();
    if n >= 2 && slash(cs[0]) && slash(cs[1]) {
        if n >= 4 && cs[0] == '\\' && cs[1] == '\\' && cs[2] == '?' && cs[3] == '\\' {
            if n >= 8 && cs[4] == 'U' && cs[5] == 'N' && cs[6] == 'C' && slash(cs[7]) {
                let (first, second) = read_two_names(true, cs, 8);
                let len: usize = both_len(&first, &second, 8, cs);
                Some(PrefixInfo { kind: PrefixKind::VerbatimUnc, first, second, len })
            } else if has_drive(cs, 4) && (n == 6 || slash(cs[6])) {
                let second: Vec<char> = Vec::new();
                Some(
                    PrefixInfo {
                        kind: PrefixKind::VerbatimDisk,
                        first: drive_name(cs[4]),
                        second,
                        len: 6,
                    },
                )
            } else {
                let end: usize = find_sep(w, true, cs, 4);
                let second: Vec<char> = Vec::new();
                Some(
                    PrefixInfo {
                        kind: PrefixKind::Verbatim,
                        first: seg(cs, 4, end),
                        second,
                        len: end,
                    },
                )
            }
        } else if n >= 4 && cs[2] == '.' && slash(cs[3]) {
            let end: usize = find_sep(w, false, cs, 4);
            let second: Vec<char> = Vec::new();
            Some(
                PrefixInfo { kind: PrefixKind::Device, first: seg(cs, 4, end), second, len: end },
            )
        } else {
            let (first, second) = read_two_names(false, cs, 2);
            if first.len() > 0 && second.len() > 0 {
                let len: usize = both_len(&first, &second, 2, cs);
                Some(PrefixInfo { kind: PrefixKind::Unc, first, second, len })
            } else {
                None
            }
        }
    } else if has_drive(cs, 0) {
        let second: Vec<char> = Vec::new();
        Some(PrefixInfo { kind: PrefixKind::Disk, first: drive_name(cs[0]), second, len: 2 })
    } else {
        None
    }
}

fn counts_as(verbatim: bool, cs: &[char], from: usize, to: usize) -> (r: bool)
    requires
        from <= to <= cs@.len(),
    ensures
        r == counts(verbatim, cs@.subrange(from as int, to as int)),
{
    let ghost name = cs@.subrange(from as int, to as int);
    if from == to {
        return false;
    }
    if to - from == 1 && cs[from] == '.' {
        assert(name =~= seq!['.']);
        verbatim
    } else {
        assert(name.len() == to - from);
        assert(name[0] == cs@[from as int]);
        true
    }
}

fn read_segments(style: PathStyle, verbatim: bool, cs: &[char], at: usize) -> (r: Vec<
    (usize, usize),
>)
    requires
        at <= cs@.len(),
    ensures
        seg_views(r@) == segments(style, verbatim, cs@, at as int),
{
    let mut out: Vec<(usize, usize)> = Vec::new();
    let mut i: usize = at;
    while i < cs.len()
        invariant
            at <= i <= cs@.len(),
            segments(style, verbatim, cs@, at as int) == seg_views(out@) + segments(
                style,
                verbatim,
                cs@,
                i as int,
            ),
        decreases cs@.len() - i,
    {
        let end: usize = find_sep(style, verbatim, cs, i);
        let ghost rest = segments(style, verbatim, cs@, end + 1);
        let ghost so_far = seg_views(out@);
        if counts_as(verbatim, cs, i, end) {
            out.push((i, end));
            assert(seg_views(out@) =~= so_far.push((i as int, end as int)));
            assert(so_far + (seq![(i as int, end as int)] + rest) =~= so_far.push(
                (i as int, end as int),
            ) + rest);
        } else {
            assert(Seq::<(int, int)>::empty() + rest =~= rest);
        }
        if end == cs.len() {
            assert(rest =~= Seq::empty());
            assert(segments(style, verbatim, cs@, at as int) =~= seg_views(out@));
            return out;
        }
        i = end + 1;
    }
    assert(seg_views(out@) + segments(style, verbatim, cs@, i as int) =~= seg_views(out@));
    out
}

/// Takes a path apart.
pub fn parse(style: PathStyle, s: &str) -> (r: PathInfo)
    ensures
        r.wf(),
        r.style == style,
        r.chars@ == s@,
{
    let cs: Vec<char> = chars_of(s);
    let prefix: Option<PrefixInfo> = match style {
        PathStyle::Posix => None,
        PathStyle::Windows => read_windows_prefix(&cs),
    };
    proof {
        lemma_prefix_len(style, cs@);
    }
    let (plen, verb, implied): (usize, bool, bool) = match &prefix {
        Some(p) => (
            p.len,
            match p.kind {
                PrefixKind::Verbatim | PrefixKind::VerbatimUnc | PrefixKind::VerbatimDisk => true,
                _ => false,
            },
            match p.kind {
                PrefixKind::Disk => false,
                _ => true,
            },
        ),
        None => (0, false, false),
    };
    let rooted: bool = plen < cs.len() && char_is_sep(style, verb, cs[plen]);
    let dotted: bool = !rooted && !implied && plen < cs.len() && cs[plen] == '.' && (plen + 1
        == cs.len() || char_is_sep(style, verb, cs[plen + 1]));
    let head_len: usize = if rooted || dotted {
        plen + 1
    } else {
        plen
    };
    let segs: Vec<(usize, usize)> = read_segments(style, verb, &cs, head_len);
    PathInfo { style, chars: cs, prefix, head_len, segs }
}

// ------------------------------------------------------------- components --
/// One component with the names it holds.
pub enum ComponentInfo {
    Prefix { kind: PrefixKind, first: Vec<char>, second: Vec<char> },
    RootDir,
    CurDir,
    ParentDir,
    Normal { name: Vec<char> },
}

impl View for ComponentInfo {
    type V = Component;

    open spec fn view(&self) -> Component {
        match self {
            ComponentInfo::Prefix { kind, first, second } => Component::Prefix {
                kind: *kind,
                first: first@,
                second: second@,
            },
            ComponentInfo::RootDir => Component::RootDir,
            ComponentInfo::CurDir => Component::CurDir,
            ComponentInfo::ParentDir => Component::ParentDir,
            ComponentInfo::Normal { name } => Component::Normal { name: name@ },
        }
    }
}

/// The views of a list of components.
pub open spec fn component_views(v: Seq<ComponentInfo>) -> Seq<Component> {
    v.map_values(|c: ComponentInfo| c@)
}

fn same_component(a: &ComponentInfo, b: &ComponentInfo) -> (r: bool)
    ensures
        r == (a@ == b@),
{
    match (a, b) {
        (
            ComponentInfo::Prefix { kind: k, first: f, second: s },
            ComponentInfo::Prefix { kind: l, first: g, second: t },
        ) => *k == *l && same_chars(f, g) && same_chars(s, t),
        (ComponentInfo::RootDir, ComponentInfo::RootDir) => true,
        (ComponentInfo::CurDir, ComponentInfo::CurDir) => true,
        (ComponentInfo::ParentDir, ComponentInfo::ParentDir) => true,
        (ComponentInfo::Normal { name: n }, ComponentInfo::Normal { name: m }) => same_chars(n, m),
        _ => false,
    }
}

fn read_component(cs: &[char], from: usize, to: usize) -> (r: ComponentInfo)
    requires
        from <= to <= cs@.len(),
    ensures
        r@ == plain_component(cs@.subrange(from as int, to as int)),
{
    let name: Vec<char> = seg(cs, from, to);
    if name.len() == 1 && name[0] == '.' {
        assert(name@ =~= seq!['.']);
        ComponentInfo::CurDir
    } else if name.len() == 2 && name[0] == '.' && name[1] == '.' {
        assert(name@ =~= seq!['.', '.']);
        ComponentInfo::ParentDir
    } else {
        assert(name@ != seq!['.']);
        assert(name@ != seq!['.', '.']) by {
            if name@ == seq!['.', '.'] {
                assert(name@[0] == '.' && name@[1] == '.' && name@.len() == 2);
            }
        }
        ComponentInfo::Normal { name }
    }
}

impl PathInfo {
    /// Every segment lies in the path.
    pub proof fn lemma_in_range(&self)
        requires
            self.wf(),
        ensures
            forall|i: int|
                0 <= i < self.segs@.len() ==> self.head_len <= (#[trigger] self.segs@[i]).0
                    < self.segs@[i].1 <= self.chars@.len(),
            self.head_len <= self.chars@.len(),
            prefix_len(self.style, self.chars@) <= self.head_len,
            0 <= prefix_len(self.style, self.chars@),
    {
        let st = self.style;
        let s = self.chars@;
        lemma_prefix_len(st, s);
        lemma_segments(st, verbatim(st, s), s, head_len(st, s));
        assert forall|i: int| 0 <= i < self.segs@.len() implies self.head_len <= (
        #[trigger] self.segs@[i]).0 < self.segs@[i].1 <= self.chars@.len() by {
            assert(seg_views(self.segs@)[i] == (self.segs@[i].0 as int, self.segs@[i].1 as int));
            assert(body(st, s)[i] == seg_views(self.segs@)[i]);
        }
    }

    /// The components in front of the plain ones.
    fn head_components(&self) -> (r: Vec<ComponentInfo>)
        requires
            self.wf(),
        ensures
            component_views(r@) == head(self.style, self.chars@),
    {
        proof {
            self.lemma_in_range();
        }
        let mut out: Vec<ComponentInfo> = Vec::new();
        let (plen, verb, implied): (usize, bool, bool) = match &self.prefix {
            Some(p) => {
                out.push(
                    ComponentInfo::Prefix {
                        kind: p.kind,
                        first: seg(&p.first, 0, p.first.len()),
                        second: seg(&p.second, 0, p.second.len()),
                    },
                );
                assert(p.first@.subrange(0, p.first@.len() as int) =~= p.first@);
                assert(p.second@.subrange(0, p.second@.len() as int) =~= p.second@);
                let v: bool = match p.kind {
                    PrefixKind::Verbatim | PrefixKind::VerbatimUnc | PrefixKind::VerbatimDisk => {
                        true
                    },
                    _ => false,
                };
                let im: bool = match p.kind {
                    PrefixKind::Disk => false,
                    _ => true,
                };
                (p.len, v, im)
            },
            None => (0, false, false),
        };
        let ghost start = match prefix(self.style, self.chars@) {
            Some(p) => seq![Component::Prefix { kind: p.kind, first: p.first, second: p.second }],
            None => Seq::empty(),
        };
        assert(component_views(out@) =~= start);
        let rooted: bool = plen < self.chars.len() && char_is_sep(
            self.style,
            verb,
            self.chars[plen],
        );
        if rooted || (implied && !verb) {
            out.push(ComponentInfo::RootDir);
            assert(component_views(out@) =~= start.push(Component::RootDir));
        } else if self.prefix.is_none() && self.head_len == 1 {
            out.push(ComponentInfo::CurDir);
            assert(component_views(out@) =~= start.push(Component::CurDir));
        }
        out
    }

    /// All components.
    pub fn components(&self) -> (r: Vec<ComponentInfo>)
        requires
            self.wf(),
        ensures
            component_views(r@) == components(self.style, self.chars@),
    {
        proof {
            self.lemma_in_range();
        }
        let mut out: Vec<ComponentInfo> = self.head_components();
        let ghost s = self.chars@;
        let ghost heads = head(self.style, s);
        let ghost plain = body(self.style, s).map_values(
            |g: (int, int)| plain_component(s.subrange(g.0, g.1)),
        );
        let mut i: usize = 0;
        while i < self.segs.len()
            invariant
                self.wf(),
                s == self.chars@,
                i <= self.segs@.len() == plain.len(),
                forall|k: int|
                    0 <= k < self.segs@.len() ==> self.head_len <= (#[trigger] self.segs@[k]).0
                        < self.segs@[k].1 <= s.len(),
                forall|k: int|
                    0 <= k < plain.len() ==> #[trigger] plain[k] == plain_component(
                        s.subrange(self.segs@[k].0 as int, self.segs@[k].1 as int),
                    ),
                component_views(out@) == heads + plain.take(i as int),
            decreases self.segs@.len() - i,
        {
            let (a, b) = self.segs[i];
            let ghost so_far = component_views(out@);
            out.push(read_component(&self.chars, a, b));
            assert(component_views(out@) =~= so_far.push(plain[i as int]));
            assert(plain.take(i + 1) =~= plain.take(i as int).push(plain[i as int]));
            assert(so_far.push(plain[i as int]) =~= heads + plain.take(i + 1));
            i += 1;
        }
        assert(plain.take(i as int) =~= plain);
        out
    }
}

fn components_start_with(a: &Vec<ComponentInfo>, b: &Vec<ComponentInfo>) -> (r: bool)
    ensures
        r == component_views(b@).is_prefix_of(component_views(a@)),
{
    if b.len() > a.len() {
        return false;
    }
    let ghost av = component_views(a@);
    let ghost bv = component_views(b@);
    let mut i: usize = 0;
    while i < b.len()
        invariant
            i <= b@.len() <= a@.len(),
            av == component_views(a@),
            bv == component_views(b@),
            forall|k: int| 0 <= k < i ==> av[k] == bv[k],
        decreases b@.len() - i,
    {
        if !same_component(&a[i], &b[i]) {
            assert(av[i as int] != bv[i as int]);
            assert(!bv.is_prefix_of(av)) by {
                if bv.is_prefix_of(av) {
                    assert(av.subrange(0, bv.len() as int)[i as int] == av[i as int]);
                }
            }
            return false;
        }
        i += 1;
    }
    assert(av.subrange(0, bv.len() as int) =~= bv);
    true
}

// --------------------------------------------------------------- questions --
/// `Path::starts_with`.
pub fn is_under(style: PathStyle, path: &str, base: &str) -> (r: bool)
    ensures
        r == under(style, path@, base@),
{
    let a: Vec<ComponentInfo> = parse(style, path).components();
    let b: Vec<ComponentInfo> = parse(style, base).components();
    components_start_with(&a, &b)
}

/// `Path` equality.
pub fn is_same(style: PathStyle, a: &str, b: &str) -> (r: bool)
    ensures
        r == same_path(style, a@, b@),
{
    let x: Vec<ComponentInfo> = parse(style, a).components();
    let y: Vec<ComponentInfo> = parse(style, b).components();
    let same: bool = x.len() == y.len() && components_start_with(&x, &y);
    proof {
        let xv = component_views(x@);
        let yv = component_views(y@);
        if same {
            assert(xv.subrange(0, yv.len() as int) =~= xv);
        } else if xv == yv {
            assert(xv.subrange(0, yv.len() as int) =~= yv);
        }
    }
    same
}

/// The views of an optional string.
pub open spec fn opt_view(s: Option<String>) -> Option<Seq<char>> {
    match s {
        Some(t) => Some(t@),
        None => None,
    }
}

/// `Path::parent`.
pub fn parent_of(style: PathStyle, path: &str) -> (r: Option<String>)
    ensures
        opt_view(r) == parent(style, path@),
{
    let p: PathInfo = parse(style, path);
    proof {
        p.lemma_in_range();
    }
    let n: usize = p.segs.len();
    assert(seg_views(p.segs@).len() == n);
    if n >= 2 {
        let end: usize = p.segs[n - 2].1;
        assert(seg_views(p.segs@)[n - 2].1 == end);
        assert(path@.take(end as int) =~= path@.subrange(0, end as int));
        Some(string_of(&p.chars, 0, end))
    } else if n == 1 {
        assert(path@.take(p.head_len as int) =~= path@.subrange(0, p.head_len as int));
        Some(string_of(&p.chars, 0, p.head_len))
    } else if p.prefix.is_none() && p.head_len == 1 && p.chars[0] == '.' {
        let empty: String = String::new();
        assert(empty@ =~= Seq::empty());
        Some(empty)
    } else {
        None
    }
}

/// The directory the way its entries' parent is spelled.
pub fn as_parent_of(style: PathStyle, path: &str) -> (r: String)
    ensures
        r@ == as_parent(style, path@),
{
    let p: PathInfo = parse(style, path);
    proof {
        p.lemma_in_range();
    }
    let n: usize = p.segs.len();
    assert(seg_views(p.segs@).len() == n);
    if n > 0 {
        let end: usize = p.segs[n - 1].1;
        assert(seg_views(p.segs@)[n - 1].1 == end);
        assert(path@.take(end as int) =~= path@.subrange(0, end as int));
        return string_of(&p.chars, 0, end);
    }
    assert(path@.take(p.head_len as int) =~= path@.subrange(0, p.head_len as int));
    let mut out: String = string_of(&p.chars, 0, p.head_len);
    let bare_root: bool = match &p.prefix {
        Some(x) => match x.kind {
            PrefixKind::Disk => false,
            _ => x.len == p.head_len,
        },
        None => false,
    };
    if bare_root {
        out.push('\\');
    }
    out
}

/// `Path::file_name`.
pub fn file_name_of(style: PathStyle, path: &str) -> (r: Option<String>)
    ensures
        opt_view(r) == file_name(style, path@),
{
    let p: PathInfo = parse(style, path);
    proof {
        p.lemma_in_range();
    }
    let n: usize = p.segs.len();
    assert(seg_views(p.segs@).len() == n);
    if n == 0 {
        return None;
    }
    let (a, b) = p.segs[n - 1];
    assert(seg_views(p.segs@)[n - 1] == (a as int, b as int));
    match read_component(&p.chars, a, b) {
        ComponentInfo::Normal { name } => Some(string_of(&name, 0, name.len())),
        _ => None,
    }
}

proof fn lemma_last_dot(s: Seq<char>, end: int)
    requires
        0 <= end <= s.len(),
        forall|k: int| end <= k < s.len() ==> s[k] != '.',
    ensures
        last_dot(s) == last_dot(s.take(end)),
    decreases s.len() - end,
{
    if end < s.len() {
        lemma_last_dot(s, end + 1);
        assert(s.take(end + 1).drop_last() =~= s.take(end));
    } else {
        assert(s.take(end) =~= s);
    }
}

/// The extension of a file name.
pub fn name_extension_of(name: &str) -> (r: Option<String>)
    ensures
        opt_view(r) == name_extension(name@),
{
    let cs: Vec<char> = chars_of(name);
    let mut i: usize = cs.len();
    while i > 0
        invariant
            i <= cs@.len(),
            cs@ == name@,
            forall|k: int| i <= k < cs@.len() ==> cs@[k] != '.',
        decreases i,
    {
        i -= 1;
        if cs[i] == '.' {
            proof {
                lemma_last_dot(cs@, i + 1);
                assert(cs@.take(i + 1).last() == '.');
            }
            if i == 0 {
                return None;
            }
            assert(cs@.skip(i + 1) =~= cs@.subrange(i + 1, cs@.len() as int));
            return Some(string_of(&cs, i + 1, cs.len()));
        }
    }
    proof {
        lemma_last_dot(cs@, 0);
    }
    None
}

/// `Path::extension`.
pub fn extension_of(style: PathStyle, path: &str) -> (r: Option<String>)
    ensures
        opt_view(r) == extension(style, path@),
{
    match file_name_of(style, path) {
        Some(name) => name_extension_of(name.as_str()),
        None => None,
    }
}

/// `Path::strip_prefix`.
pub fn relative_to(style: PathStyle, path: &str, base: &str) -> (r: Option<String>)
    ensures
        opt_view(r) == relative(style, path@, base@),
{
    let p: PathInfo = parse(style, path);
    let a: Vec<ComponentInfo> = p.components();
    let b: Vec<ComponentInfo> = parse(style, base).components();
    if !components_start_with(&a, &b) {
        return None;
    }
    proof {
        p.lemma_in_range();
        assert(component_views(b@).len() == b@.len());
        assert(component_views(a@).len() == a@.len());
        assert(seg_views(p.segs@).len() == p.segs@.len());
        assert(a@.len() == head(style, path@).len() + p.segs@.len());
        lemma_segments(style, verbatim(style, path@), path@, head_len(style, path@));
    }
    let n: usize = p.segs.len();
    let heads: usize = a.len() - n;
    let taken: usize = b.len();
    let end: usize = if n > 0 {
        assert(seg_views(p.segs@)[n - 1].1 == p.segs@[n - 1].1);
        p.segs[n - 1].1
    } else {
        p.head_len
    };
    if taken == 0 {
        assert(path@.take(end as int) =~= path@.subrange(0, end as int));
        return Some(string_of(&p.chars, 0, end));
    }
    match &p.prefix {
        Some(x) => {
            if taken == 1 {
                return Some(string_of(&p.chars, x.len, end));
            }
        },
        None => {},
    }
    if taken - heads < n {
        let at: usize = p.segs[taken - heads].0;
        assert(seg_views(p.segs@)[taken - heads].0 == at);
        assert(at <= end) by {
            if taken - heads < n - 1 {
                assert(seg_views(p.segs@)[taken - heads].1 < seg_views(p.segs@)[n - 1].0);
            }
        }
        Some(string_of(&p.chars, at, end))
    } else {
        let empty: String = String::new();
        assert(empty@ =~= Seq::empty());
        Some(empty)
    }
}

/// A parent is shorter than its path.
pub proof fn lemma_parent_shorter(style: PathStyle, s: Seq<char>)
    ensures
        parent(style, s) matches Some(p) ==> p.len() < s.len(),
{
    lemma_prefix_len(style, s);
    lemma_segments(style, verbatim(style, s), s, head_len(style, s));
    let g = body(style, s);
    if g.len() >= 2 {
        assert(g[g.len() - 2].1 < g[g.len() - 1].0);
    }
}

// -------------------------------------------------------------------- laws --
/// Every path is under itself, and what is under a path under `base` is under
/// `base`.
pub proof fn law_under_is_a_preorder(style: PathStyle, a: Seq<char>, b: Seq<char>, c: Seq<char>)
    ensures
        under(style, a, a),
        under(style, a, b) && under(style, b, c) ==> under(style, a, c),
{
    let x = components(style, a);
    let y = components(style, b);
    let z = components(style, c);
    assert(x.subrange(0, x.len() as int) =~= x);
    if y.is_prefix_of(x) && z.is_prefix_of(y) {
        assert(x.subrange(0, z.len() as int) =~= y.subrange(0, z.len() as int));
    }
}

/// A drive without a root: a name follows its colon without a separator.
pub open spec fn bare_drive(style: PathStyle, s: Seq<char>) -> bool {
    prefix(style, s) matches Some(p) && p.kind == PrefixKind::Disk && p.len == s.len()
}

/// A directory with a separator behind it, where it takes one.
pub open spec fn with_sep(style: PathStyle, dir: Seq<char>) -> Seq<char> {
    if dir.len() == 0 || is_sep(style, verbatim(style, dir), dir.last()) || bare_drive(style, dir) {
        dir
    } else {
        dir.push(
            match style {
                PathStyle::Posix => '/',
                PathStyle::Windows => '\\',
            },
        )
    }
}

/// The path of the entry with this name in a directory.
pub open spec fn entry_path(style: PathStyle, dir: Seq<char>, name: Seq<char>) -> Seq<char> {
    with_sep(style, dir) + name
}

/// A trailing separator adds no segment.
proof fn lemma_segments_closed(style: PathStyle, verbatim: bool, d: Seq<char>, c: char, at: int)
    requires
        0 <= at <= d.len(),
        is_sep(style, verbatim, c),
    ensures
        segments(style, verbatim, d.push(c), at) == segments(style, verbatim, d, at),
    decreases d.len() - at,
{
    let s = d.push(c);
    reveal_with_fuel(segments, 2);
    if at < d.len() {
        lemma_sep_from(style, verbatim, d, at);
        lemma_sep_from(style, verbatim, s, at);
        assert(d =~= s.take(d.len() as int));
        lemma_same_sep(style, verbatim, d, s, at);
        let end = sep_from(style, verbatim, d, at);
        assert(s.subrange(at, end) =~= d.subrange(at, end));
        if end < d.len() {
            lemma_segments_closed(style, verbatim, d, c, end + 1);
        } else {
            assert(segments(style, verbatim, s, end + 1) =~= segments(style, verbatim, d, end + 1));
        }
    } else {
        assert(sep_from(style, verbatim, s, at) == at);
        assert(s.subrange(at, at).len() == 0);
        assert(segments(style, verbatim, s, at + 1) =~= Seq::empty());
        assert(segments(style, verbatim, s, at) =~= Seq::empty());
        assert(segments(style, verbatim, d, at) =~= Seq::empty());
    }
}

/// A longer text has the same separators as far as the shorter one reaches; the
/// end of the shorter one counts as one where a separator follows.
proof fn lemma_same_sep(style: PathStyle, verbatim: bool, d: Seq<char>, s: Seq<char>, at: int)
    requires
        0 <= at <= d.len() < s.len(),
        d == s.take(d.len() as int),
        is_sep(style, verbatim, s[d.len() as int]) || exists|k: int|
            at <= k < d.len() && is_sep(style, verbatim, #[trigger] d[k]),
    ensures
        sep_from(style, verbatim, s, at) == sep_from(style, verbatim, d, at),
    decreases d.len() - at,
{
    reveal_with_fuel(sep_from, 2);
    if at < d.len() {
        assert(s[at] == d[at]);
        if !is_sep(style, verbatim, d[at]) {
            lemma_same_sep(style, verbatim, d, s, at + 1);
        }
    }
}

/// Behind a separator more segments follow those that are there.
proof fn lemma_segments_more(
    style: PathStyle,
    verbatim: bool,
    d: Seq<char>,
    tail: Seq<char>,
    at: int,
)
    requires
        0 <= at <= d.len(),
        at == d.len() || is_sep(style, verbatim, d.last()),
        tail.len() > 0,
    ensures
        segments(style, verbatim, d + tail, at) == segments(style, verbatim, d, at) + segments(
            style,
            verbatim,
            d + tail,
            d.len() as int,
        ),
    decreases d.len() - at,
{
    let s = d + tail;
    let rest = segments(style, verbatim, s, d.len() as int);
    if at < d.len() {
        assert(d =~= s.take(d.len() as int));
        lemma_sep_from(style, verbatim, d, at);
        assert(is_sep(style, verbatim, d[d.len() - 1]));
        lemma_same_sep(style, verbatim, d, s, at);
        let end = sep_from(style, verbatim, d, at);
        assert(end < d.len());
        assert(s.subrange(at, end) =~= d.subrange(at, end));
        lemma_segments_more(style, verbatim, d, tail, end + 1);
        let here = if counts(verbatim, d.subrange(at, end)) {
            seq![(at, end)]
        } else {
            Seq::empty()
        };
        assert(here + (segments(style, verbatim, d, end + 1) + rest) =~= (here + segments(
            style,
            verbatim,
            d,
            end + 1,
        )) + rest);
    } else {
        assert(segments(style, verbatim, d, at) + rest =~= rest);
    }
}

/// The name of an entry: one component, and not one that stands for the
/// directory itself.
pub open spec fn is_entry_name(style: PathStyle, dir: Seq<char>, name: Seq<char>) -> bool {
    &&& name.len() > 0
    &&& name != seq!['.']
    &&& forall|i: int|
        0 <= i < name.len() ==> !is_sep(style, verbatim(style, dir), #[trigger] name[i])
}

/// The prefix of the directory is complete: what follows does not belong to it.
pub open spec fn prefix_is_complete(style: PathStyle, dir: Seq<char>, name: Seq<char>) -> bool {
    &&& prefix(style, entry_path(style, dir, name)) == prefix(style, dir)
    &&& implicit_root(style, dir) && prefix_len(style, dir) == dir.len() ==> !is_sep(
        style,
        verbatim(style, dir),
        dir.last(),
    )
}

/// Where the name stands in the path of an entry.
proof fn lemma_entry_segment(style: PathStyle, dir: Seq<char>, name: Seq<char>)
    requires
        is_entry_name(style, dir, name),
    ensures
        segments(
            style,
            verbatim(style, dir),
            entry_path(style, dir, name),
            with_sep(style, dir).len() as int,
        ) == seq![
            (with_sep(style, dir).len() as int, entry_path(style, dir, name).len() as int),
        ],
{
    let s = entry_path(style, dir, name);
    let b = with_sep(style, dir);
    let v = verbatim(style, dir);
    let at = b.len() as int;
    assert(s.subrange(at, s.len() as int) =~= name);
    assert forall|i: int| at <= i < s.len() implies !is_sep(style, v, #[trigger] s[i]) by {
        assert(s[i] == name[i - at]);
    }
    lemma_no_sep(style, v, s, at);
    assert(segments(style, v, s, (s.len() + 1) as int) =~= Seq::empty());
    assert(segments(style, v, s, at) =~= seq![(at, s.len() as int)]);
}

/// The path of an entry starts like that of its directory; only behind a prefix
/// alone the separator becomes the root.
proof fn lemma_entry_head(style: PathStyle, dir: Seq<char>, name: Seq<char>)
    requires
        is_entry_name(style, dir, name),
        prefix_is_complete(style, dir, name),
    ensures
        head_len(style, entry_path(style, dir, name)) == if prefix_len(style, dir) == dir.len()
            && with_sep(style, dir).len() > dir.len() {
            with_sep(style, dir).len() as int
        } else {
            head_len(style, dir)
        },
        prefix_len(style, dir) == dir.len() && with_sep(style, dir).len() > dir.len()
            ==> physical_root(style, entry_path(style, dir, name)),
        !(prefix_len(style, dir) == dir.len() && with_sep(style, dir).len() > dir.len()) ==> {
            &&& physical_root(style, entry_path(style, dir, name)) == physical_root(style, dir)
            &&& leading_dot(style, entry_path(style, dir, name)) == leading_dot(style, dir)
        },
{
    let s = entry_path(style, dir, name);
    let b = with_sep(style, dir);
    let v = verbatim(style, dir);
    let n = prefix_len(style, dir);
    lemma_prefix_len(style, dir);
    assert forall|i: int| 0 <= i < dir.len() implies s[i] == dir[i] by {}
    if n == dir.len() && b.len() > dir.len() {
        assert(s[n] == b[n]);
        assert(physical_root(style, s));
    } else if n == dir.len() {
        assert(s[n] == name[0]);
        assert(!physical_root(style, s));
        if name.len() > 1 {
            assert(s[n + 1] == name[1]);
        } else {
            assert(name =~= seq![name[0]]);
        }
        assert(!leading_dot(style, s));
    } else {
        assert(physical_root(style, s) == physical_root(style, dir));
        if n + 1 == dir.len() {
            if b.len() == dir.len() {
                assert(is_sep(style, v, dir[n]));
            } else {
                assert(s[n + 1] == b[n + 1]);
            }
        }
        assert(leading_dot(style, s) == leading_dot(style, dir));
    }
}

/// Where a prefix implies a root that is not written, something that counts
/// follows the prefix, or nothing does.
proof fn lemma_implied_root(s: Seq<char>)
    requires
        implicit_root(PathStyle::Windows, s),
        !physical_root(PathStyle::Windows, s),
        prefix_len(PathStyle::Windows, s) < s.len(),
    ensures
        body(PathStyle::Windows, s).len() > 0,
{
    let w = PathStyle::Windows;
    let n = prefix_len(w, s);
    let v = verbatim(w, s);
    lemma_prefix_len(w, s);
    if !v {
        if s.len() >= 4 {
            lemma_sep_from(w, false, s, 4);
        }
        lemma_sep_from(w, false, s, 2);
        let a = sep_from(w, false, s, 2);
        if a < s.len() {
            lemma_sep_from(w, false, s, a + 1);
        }
        assert(false);
    } else {
        assert(!is_sep(w, v, s[n]));
        let end = sep_from(w, v, s, n);
        lemma_sep_from(w, v, s, n);
        assert(end > n);
        assert(s.subrange(n, end).len() > 0);
        assert(segments(w, v, s, n).len() > 0);
    }
}

/// Where the components of an entry's path stand.
proof fn lemma_entry_body(style: PathStyle, dir: Seq<char>, name: Seq<char>)
    requires
        is_entry_name(style, dir, name),
        prefix_is_complete(style, dir, name),
    ensures
        body(style, entry_path(style, dir, name)) == body(style, dir).push(
            (with_sep(style, dir).len() as int, entry_path(style, dir, name).len() as int),
        ),
{
    let s = entry_path(style, dir, name);
    let b = with_sep(style, dir);
    let v = verbatim(style, dir);
    let n = prefix_len(style, dir);
    let h = head_len(style, dir);
    let g = body(style, dir);
    let end = (b.len() as int, s.len() as int);
    lemma_prefix_len(style, dir);
    lemma_entry_segment(style, dir, name);
    lemma_entry_head(style, dir, name);
    if n == dir.len() && b.len() > dir.len() {
        assert(g =~= Seq::empty());
        assert(g.push(end) =~= seq![end]);
    } else {
        if b.len() > dir.len() {
            lemma_segments_closed(style, v, dir, b.last(), h);
        }
        lemma_segments_more(style, v, b, name, h);
        assert(g + seq![end] =~= g.push(end));
    }
}

/// The components of an entry's path are those of its directory and its name.
/// (A verbatim prefix without a root has no root component of its own.)
pub proof fn law_components_of_an_entry(style: PathStyle, dir: Seq<char>, name: Seq<char>)
    requires
        is_entry_name(style, dir, name),
        name != seq!['.', '.'],
        prefix_is_complete(style, dir, name),
        verbatim(style, dir) ==> prefix_len(style, dir) < dir.len(),
    ensures
        components(style, entry_path(style, dir, name)) == components(style, dir).push(
            Component::Normal { name },
        ),
{
    let s = entry_path(style, dir, name);
    let b = with_sep(style, dir);
    let g = body(style, dir);
    let fs = |x: (int, int)| plain_component(s.subrange(x.0, x.1));
    let fd = |x: (int, int)| plain_component(dir.subrange(x.0, x.1));
    let end = (b.len() as int, s.len() as int);
    lemma_prefix_len(style, dir);
    lemma_entry_body(style, dir, name);
    lemma_entry_head(style, dir, name);
    lemma_segments(style, verbatim(style, dir), dir, head_len(style, dir));
    assert(s.subrange(end.0, end.1) =~= name);
    assert(g.push(end).map_values(fs) =~= g.map_values(fd).push(Component::Normal { name })) by {
        assert forall|i: int| 0 <= i < g.len() implies fs(g[i]) == fd(g[i]) by {
            assert(s.subrange(g[i].0, g[i].1) =~= dir.subrange(g[i].0, g[i].1));
        }
    }
    assert(head(style, s) == head(style, dir));
    assert(head(style, dir) + g.map_values(fd).push(Component::Normal { name }) =~= (head(
        style,
        dir,
    ) + g.map_values(fd)).push(Component::Normal { name }));
}

/// The parent of an entry's path is its directory, the way `as_parent` spells
/// it, however many separators stand behind the directory's own path.
pub proof fn law_parent_of_an_entry(style: PathStyle, dir: Seq<char>, name: Seq<char>)
    requires
        is_entry_name(style, dir, name),
        prefix_is_complete(style, dir, name),
    ensures
        parent(style, entry_path(style, dir, name)) == Some(as_parent(style, dir)),
{
    let s = entry_path(style, dir, name);
    let b = with_sep(style, dir);
    let n = prefix_len(style, dir);
    let h = head_len(style, dir);
    let g = body(style, dir);
    let end = (b.len() as int, s.len() as int);
    lemma_prefix_len(style, dir);
    lemma_entry_body(style, dir, name);
    lemma_entry_head(style, dir, name);
    lemma_segments(style, verbatim(style, dir), dir, h);
    if g.len() > 0 {
        assert(g.push(end)[g.len() - 1] == g.last());
        assert(s.take(g.last().1) =~= dir.take(g.last().1));
    } else if n == dir.len() && b.len() > dir.len() {
        assert(dir.take(h) =~= dir);
        assert(s.take(b.len() as int) =~= b);
        assert(implicit_root(style, dir));
    } else {
        assert(s.take(h) =~= dir.take(h));
        if implicit_root(style, dir) && !physical_root(style, dir) && n < dir.len() {
            lemma_implied_root(dir);
        }
    }
}

/// A text without separators reaches to its end.
proof fn lemma_no_sep(style: PathStyle, verbatim: bool, s: Seq<char>, at: int)
    requires
        0 <= at <= s.len(),
        forall|i: int| at <= i < s.len() ==> !is_sep(style, verbatim, #[trigger] s[i]),
    ensures
        sep_from(style, verbatim, s, at) == s.len(),
    decreases s.len() - at,
{
    reveal_with_fuel(sep_from, 2);
    if at < s.len() {
        lemma_no_sep(style, verbatim, s, at + 1);
    }
}

/// An entry lies under its directory and the directory not under it; its file name
/// is its own name, and the trees of two entries with different names are apart:
/// a name that only starts like another does not put one under the other.
pub proof fn law_entries_have_trees_of_their_own(
    style: PathStyle,
    dir: Seq<char>,
    name: Seq<char>,
    other: Seq<char>,
    s: Seq<char>,
)
    requires
        is_entry_name(style, dir, name),
        is_entry_name(style, dir, other),
        name != seq!['.', '.'],
        other != seq!['.', '.'],
        prefix_is_complete(style, dir, name),
        prefix_is_complete(style, dir, other),
        verbatim(style, dir) ==> prefix_len(style, dir) < dir.len(),
    ensures
        under(style, entry_path(style, dir, name), dir),
        !under(style, dir, entry_path(style, dir, name)),
        file_name(style, entry_path(style, dir, name)) == Some(name),
        name != other ==> !(under(style, s, entry_path(style, dir, name)) && under(
            style,
            s,
            entry_path(style, dir, other),
        )),
{
    law_components_of_an_entry(style, dir, name);
    law_components_of_an_entry(style, dir, other);
    lemma_entry_body(style, dir, name);
    let p = entry_path(style, dir, name);
    assert(p.subrange(with_sep(style, dir).len() as int, p.len() as int) =~= name);
    let d = components(style, dir);
    let a = components(style, p);
    let b = components(style, entry_path(style, dir, other));
    let c = components(style, s);
    let n = d.len() as int;
    assert(a.subrange(0, n) =~= d);
    if name != other && a.is_prefix_of(c) && b.is_prefix_of(c) {
        assert(a[n] == c.subrange(0, n + 1)[n]);
        assert(b[n] == c.subrange(0, n + 1)[n]);
        assert(a[n] == Component::Normal { name });
        assert(b[n] == Component::Normal { name: other });
    }
}

/// Seen from its directory, an entry is its name.
pub proof fn law_entry_is_its_name_from_its_directory(
    style: PathStyle,
    dir: Seq<char>,
    name: Seq<char>,
)
    requires
        is_entry_name(style, dir, name),
        name != seq!['.', '.'],
        prefix_is_complete(style, dir, name),
        verbatim(style, dir) ==> prefix_len(style, dir) < dir.len(),
        body(style, dir).len() > 0,
    ensures
        relative(style, entry_path(style, dir, name), dir) == Some(name),
        relative(style, dir, dir) == Some(Seq::<char>::empty()),
{
    let s = entry_path(style, dir, name);
    let b = with_sep(style, dir);
    law_components_of_an_entry(style, dir, name);
    lemma_entry_body(style, dir, name);
    let d = components(style, dir);
    assert(components(style, s).subrange(0, d.len() as int) =~= d);
    assert(d.subrange(0, d.len() as int) =~= d);
    let fd = |x: (int, int)| plain_component(dir.subrange(x.0, x.1));
    assert(d.len() == head(style, dir).len() + body(style, dir).len());
    assert(components(style, s).len() == head(style, s).len() + body(style, s).len());
    assert(s.subrange(b.len() as int, s.len() as int) =~= name);
}

/// What follows the last dot of a name is its extension; a dot in front does not
/// count, and a name without a dot has none.
pub proof fn law_extension_follows_the_last_dot(stem: Seq<char>, ext: Seq<char>)
    requires
        forall|i: int| 0 <= i < ext.len() ==> #[trigger] ext[i] != '.',
    ensures
        stem.len() > 0 ==> name_extension(stem + seq!['.'] + ext) == Some(ext),
        stem.len() == 0 ==> name_extension(stem + seq!['.'] + ext) is None,
        name_extension(ext) is None,
{
    let s = stem + seq!['.'] + ext;
    let end = stem.len() as int + 1;
    assert forall|k: int| end <= k < s.len() implies s[k] != '.' by {
        assert(s[k] == ext[k - end]);
    }
    lemma_last_dot(s, end);
    assert(s.take(end).last() == '.');
    assert(s.skip(end) =~= ext);
    lemma_last_dot(ext, 0);
    assert(ext.take(0) =~= Seq::empty());
}

/// Away from Windows only the slash separates. On Windows the backslash does, and
/// the slash does outside verbatim paths.
pub proof fn law_separators(style: PathStyle, is_verbatim: bool, c: char)
    ensures
        style == PathStyle::Posix ==> (is_sep(style, is_verbatim, c) <==> c == '/'),
        style == PathStyle::Windows && is_verbatim ==> (is_sep(style, is_verbatim, c) <==> c
            == '\\'),
        style == PathStyle::Windows && !is_verbatim ==> (is_sep(style, is_verbatim, c) <==> c
            == '\\' || c == '/'),
{
}

/// On Windows a letter and a colon name a drive, in either case the same one; away
/// from Windows nothing does.
pub proof fn law_a_letter_and_a_colon_name_a_drive(c: char, rest: Seq<char>)
    requires
        'a' <= c <= 'z' || 'A' <= c <= 'Z',
    ensures
        prefix(PathStyle::Posix, seq![c, ':'] + rest) is None,
        prefix(PathStyle::Windows, seq![c, ':'] + rest) matches Some(p) && p.kind
            == PrefixKind::Disk && p.len == 2 && p.first.len() == 1 && (c <= 'Z' ==> p.first[0]
            == c) && (c >= 'a' ==> p.first[0] as u32 == c as u32 - 32),
{
    let s = seq![c, ':'] + rest;
    assert(s[0] == c && s[1] == ':');
}

/// Two backslashes, a server and a share name a share of the network, however the
/// path goes on.
pub proof fn law_two_names_name_a_share(server: Seq<char>, share: Seq<char>, rest: Seq<char>)
    requires
        server.len() > 1,
        share.len() > 0,
        forall|i: int| 0 <= i < server.len() ==> #[trigger] server[i] != '\\' && server[i] != '/',
        forall|i: int| 0 <= i < share.len() ==> #[trigger] share[i] != '\\' && share[i] != '/',
    ensures
        prefix(
            PathStyle::Windows,
            seq!['\\', '\\'] + server + seq!['\\'] + share + seq!['\\'] + rest,
        ) matches Some(p) && p.kind == PrefixKind::Unc && p.first == server && p.second == share,
{
    let w = PathStyle::Windows;
    let s = seq!['\\', '\\'] + server + seq!['\\'] + share + seq!['\\'] + rest;
    let a = 2 + server.len() as int;
    let b = a + 1 + share.len() as int;
    assert(s[0] == '\\' && s[1] == '\\' && s[2] == server[0] && s[3] == server[1]);
    assert(s[a] == '\\' && s[b] == '\\');
    assert forall|i: int| 2 <= i < a implies !is_sep(w, false, #[trigger] s[i]) by {
        assert(s[i] == server[i - 2]);
    }
    assert forall|i: int| a + 1 <= i < b implies !is_sep(w, false, #[trigger] s[i]) by {
        assert(s[i] == share[i - a - 1]);
    }
    lemma_sep_from(w, false, s, 2);
    let x = sep_from(w, false, s, 2);
    if x < a {
        assert(is_sep(w, false, s[x]));
    }
    if x > a {
        assert(!is_sep(w, false, s[a]));
    }
    lemma_sep_from(w, false, s, a + 1);
    let y = sep_from(w, false, s, a + 1);
    if y < b {
        assert(is_sep(w, false, s[y]));
    }
    if y > b {
        assert(!is_sep(w, false, s[b]));
    }
    assert(s.subrange(2, a) =~= server);
    assert(s.subrange(a + 1, b) =~= share);
}

/// Two dots mean the directory above and one dot means the same one; every other
/// name is just a name.
pub proof fn law_only_dots_are_special(name: Seq<char>)
    ensures
        plain_component(seq!['.', '.']) == Component::ParentDir,
        plain_component(seq!['.']) == Component::CurDir,
        name != seq!['.'] && name != seq!['.', '.'] ==> plain_component(name) == (
        Component::Normal { name }),
        !counts(false, Seq::empty()),
        !counts(true, Seq::empty()),
        !counts(false, seq!['.']),
        name.len() > 0 && name != seq!['.'] ==> counts(false, name) && counts(true, name),
{
    assert(seq!['.', '.'].len() == 2 && seq!['.'].len() == 1);
}

/// Away from Windows a path starts at the root exactly if a slash stands in front.
pub proof fn law_a_slash_in_front_is_the_root(rest: Seq<char>)
    ensures
        components(PathStyle::Posix, seq!['/'] + rest).len() > 0,
        components(PathStyle::Posix, seq!['/'] + rest)[0] == Component::RootDir,
        rest.len() > 0 && rest[0] != '/' ==> head(PathStyle::Posix, rest).len() == 0 || head(
            PathStyle::Posix,
            rest,
        )[0] == Component::CurDir,
{
    let s = seq!['/'] + rest;
    assert(s[0] == '/');
    assert(physical_root(PathStyle::Posix, s));
    assert(head(PathStyle::Posix, s)[0] == Component::RootDir);
}

/// Behind the verbatim marker a letter and a colon name a drive as they do without
/// it, in upper case.
pub proof fn law_a_verbatim_drive_is_a_drive(c: char, rest: Seq<char>)
    requires
        'a' <= c <= 'z' || 'A' <= c <= 'Z',
    ensures
        prefix(
            PathStyle::Windows,
            seq!['\\', '\\', '?', '\\', c, ':', '\\'] + rest,
        ) matches Some(p) && p.kind == PrefixKind::VerbatimDisk && p.len == 6 && p.first.len() == 1
            && (c <= 'Z' ==> p.first[0] == c) && (c >= 'a' ==> p.first[0] as u32 == c as u32 - 32),
{
    let s = seq!['\\', '\\', '?', '\\', c, ':', '\\'] + rest;
    assert(s[0] == '\\' && s[1] == '\\' && s[2] == '?' && s[3] == '\\' && s[4] == c && s[5] == ':'
        && s[6] == '\\');
}

/// Two paths are the same exactly if each is under the other.
pub proof fn law_same_paths_are_under_each_other(style: PathStyle, a: Seq<char>, b: Seq<char>)
    ensures
        same_path(style, a, b) <==> under(style, a, b) && under(style, b, a),
{
    let x = components(style, a);
    let y = components(style, b);
    assert(x.subrange(0, x.len() as int) =~= x);
    assert(y.subrange(0, y.len() as int) =~= y);
}

} // verus!
