//! Developer artifact discovery: find large, fully regenerable dependency and
//! build directories (node_modules, Rust/Maven `target`, Gradle output, Python
//! virtualenvs, .NET bin/obj) grouped by project, so a user can reclaim them
//! per project while keeping source code.
//!
//! Safety by construction: an artifact directory is only ever reported when a
//! **project marker** proves it is regenerable - `node_modules` beside a
//! `package.json`, `target` beside `Cargo.toml`/`pom.xml`, a virtualenv that
//! contains `pyvenv.cfg`, etc. Source files, `.git`, and unmarked directories
//! are never matched. Nothing here deletes; callers decide (opt-in per
//! project).
use crate::index::{as_ints, distinct_keys, lemma_positions, positions, Index};
use crate::lists::{
    lemma_filter_ends, lemma_filter_sum_prefix, lemma_filter_take, lemma_sum_push, lemma_sum_take, sum,
};
use crate::order::{
    descending, is_sorted_copy, key_views, rank_descending, sort_by_keys, SortKey,
};
use crate::paths::{file_name, file_name_of, parent, parent_of, PathStyle};
use crate::report::{file_bytes, files, is_file, record_size};
use crate::text::{
    chars_of, copy, eq_ignore_ascii_case, same, same_ascii, string_of, views,
};
use crate::toolbox::strs;
use crate::types::{records, FileRecord, Record};
use vstd::prelude::*;
use vstd::utf8::encode_utf8;

verus! {

// ----------------------------------------------------------------- catalog --
/// How an artifact directory is recognized.
#[derive(Debug, Clone, Copy, PartialEq, Eq, Structural)]
pub enum Detect {
    /// The directory name matches, AND one of `markers` exists in its PARENT
    /// (the project root). Example: `node_modules` + parent has `package.json`.
    SiblingMarker,
    /// The directory itself CONTAINS the marker file. Example: a Python
    /// virtualenv always contains `pyvenv.cfg`, regardless of its name.
    SelfMarker,
}

#[derive(Debug)]
pub struct ArtifactKind {
    pub id: &'static str,
    pub label: &'static str,
    /// Directory name to match (case-insensitive). Ignored for `SelfMarker`.
    pub dir_name: &'static str,
    pub detect: Detect,
    /// Marker file names that decide the match (see `Detect`).
    pub markers: Vec<&'static str>,
    /// How the user regenerates it after deletion.
    pub restore_hint: &'static str,
}

#[verifier::ext_equal]
pub struct KindView {
    pub id: Seq<char>,
    pub label: Seq<char>,
    pub dir_name: Seq<char>,
    pub detect: Detect,
    pub markers: Seq<Seq<char>>,
    pub restore_hint: Seq<char>,
}

impl View for ArtifactKind {
    type V = KindView;

    open spec fn view(&self) -> KindView {
        KindView {
            id: self.id@,
            label: self.label@,
            dir_name: self.dir_name@,
            detect: self.detect,
            markers: strs(self.markers@),
            restore_hint: self.restore_hint@,
        }
    }
}

pub open spec fn kind_views(v: Seq<ArtifactKind>) -> Seq<KindView> {
    v.map_values(|k: ArtifactKind| k@)
}

/// The catalog. Conservative on purpose: only unambiguous, high-value,
/// clearly-regenerable directories tied to a strong project manifest.
pub open spec fn kinds() -> Seq<KindView> {
    seq![
        KindView {
            id: "node_modules"@,
            label: "Node.js dependencies"@,
            dir_name: "node_modules"@,
            detect: Detect::SiblingMarker,
            markers: seq!["package.json"@],
            restore_hint: "npm/pnpm/yarn install"@,
        },
        KindView {
            id: "rust_target"@,
            label: "Rust build output"@,
            dir_name: "target"@,
            detect: Detect::SiblingMarker,
            markers: seq!["Cargo.toml"@],
            restore_hint: "cargo build"@,
        },
        KindView {
            id: "maven_target"@,
            label: "Maven build output"@,
            dir_name: "target"@,
            detect: Detect::SiblingMarker,
            markers: seq!["pom.xml"@],
            restore_hint: "mvn package"@,
        },
        KindView {
            id: "gradle_build"@,
            label: "Gradle build output"@,
            dir_name: "build"@,
            detect: Detect::SiblingMarker,
            markers: seq!["build.gradle"@, "build.gradle.kts"@, "settings.gradle"@, "settings.gradle.kts"@],
            restore_hint: "gradle build"@,
        },
        KindView {
            id: "gradle_cache"@,
            label: "Gradle local cache"@,
            dir_name: ".gradle"@,
            detect: Detect::SiblingMarker,
            markers: seq!["build.gradle"@, "build.gradle.kts"@, "settings.gradle"@, "settings.gradle.kts"@],
            restore_hint: "gradle build"@,
        },
        KindView {
            id: "python_venv"@,
            label: "Python virtualenv"@,
            dir_name: ""@,
            detect: Detect::SelfMarker,
            markers: seq!["pyvenv.cfg"@],
            restore_hint: "recreate the virtualenv"@,
        },
        KindView {
            id: "dotnet_obj"@,
            label: ".NET intermediate (obj)"@,
            dir_name: "obj"@,
            detect: Detect::SiblingMarker,
            markers: seq![".csproj"@, ".vbproj"@, ".fsproj"@],
            restore_hint: "dotnet build"@,
        },
        KindView {
            id: "dotnet_bin"@,
            label: ".NET build output (bin)"@,
            dir_name: "bin"@,
            detect: Detect::SiblingMarker,
            markers: seq![".csproj"@, ".vbproj"@, ".fsproj"@],
            restore_hint: "dotnet build"@,
        },
    ]
}

fn kind(
    id: &'static str,
    label: &'static str,
    dir_name: &'static str,
    detect: Detect,
    markers: Vec<&'static str>,
    restore_hint: &'static str,
) -> (r: ArtifactKind)
    ensures
        r@ == (KindView {
            id: id@,
            label: label@,
            dir_name: dir_name@,
            detect,
            markers: strs(markers@),
            restore_hint: restore_hint@,
        }),
{
    ArtifactKind { id, label, dir_name, detect, markers, restore_hint }
}

pub fn catalog() -> (r: Vec<ArtifactKind>)
    ensures
        kind_views(r@) == kinds(),
{
    let r: Vec<ArtifactKind> = vec![
        kind(
            "node_modules",
            "Node.js dependencies",
            "node_modules",
            Detect::SiblingMarker,
            vec!["package.json"],
            "npm/pnpm/yarn install",
        ),
        kind(
            "rust_target",
            "Rust build output",
            "target",
            Detect::SiblingMarker,
            vec!["Cargo.toml"],
            "cargo build",
        ),
        kind(
            "maven_target",
            "Maven build output",
            "target",
            Detect::SiblingMarker,
            vec!["pom.xml"],
            "mvn package",
        ),
        kind(
            "gradle_build",
            "Gradle build output",
            "build",
            Detect::SiblingMarker,
            vec!["build.gradle", "build.gradle.kts", "settings.gradle", "settings.gradle.kts"],
            "gradle build",
        ),
        kind(
            "gradle_cache",
            "Gradle local cache",
            ".gradle",
            Detect::SiblingMarker,
            vec!["build.gradle", "build.gradle.kts", "settings.gradle", "settings.gradle.kts"],
            "gradle build",
        ),
        kind(
            "python_venv",
            "Python virtualenv",
            "",
            Detect::SelfMarker,
            vec!["pyvenv.cfg"],
            "recreate the virtualenv",
        ),
        kind(
            "dotnet_obj",
            ".NET intermediate (obj)",
            "obj",
            Detect::SiblingMarker,
            vec![".csproj", ".vbproj", ".fsproj"],
            "dotnet build",
        ),
        kind(
            "dotnet_bin",
            ".NET build output (bin)",
            "bin",
            Detect::SiblingMarker,
            vec![".csproj", ".vbproj", ".fsproj"],
            "dotnet build",
        ),
    ];
    assert(kind_views(r@) =~~= kinds());
    r
}

// ------------------------------------------------------------- recognition --
/// Directories we never descend into: source-history / VCS dirs that must never
/// be touched or spidered.
pub open spec fn is_vcs(name: Seq<char>) -> bool {
    name == ".git"@ || name == ".hg"@ || name == ".svn"@
}

pub fn is_vcs_or_meta(name: &str) -> (r: bool)
    ensures
        r == is_vcs(name@),
{
    same(name, ".git") || same(name, ".hg") || same(name, ".svn")
}

/// What stands behind the last dot; the whole name where there is none.
pub open spec fn after_dot(name: Seq<char>) -> Seq<char>
    decreases name.len(),
{
    if name.len() == 0 || name.last() == '.' {
        Seq::empty()
    } else {
        after_dot(name.drop_last()).push(name.last())
    }
}

/// A file name shows a marker. A marker that begins with a dot is an extension,
/// any other a whole name; case makes no difference.
pub open spec fn shows_marker(name: Seq<char>, marker: Seq<char>) -> bool {
    if marker.len() > 0 && marker[0] == '.' {
        same_ascii(after_dot(name), marker.skip(1)) && encode_utf8(name).len() > encode_utf8(
            marker.skip(1),
        ).len() + 1
    } else {
        same_ascii(name, marker)
    }
}

fn is_marker(name: &str, marker: &str) -> (r: bool)
    ensures
        r == shows_marker(name@, marker@),
{
    let ms: Vec<char> = chars_of(marker);
    if ms.len() > 0 && ms[0] == '.' {
        let ext: String = string_of(&ms, 1, ms.len());
        assert(ext@ =~= marker@.skip(1));
        let cs: Vec<char> = chars_of(name);
        let n: usize = cs.len();
        let mut from: usize = n;
        assert(cs@.take(n as int) =~= cs@);
        assert(after_dot(cs@) + cs@.subrange(n as int, n as int) =~= after_dot(cs@));
        while from > 0 && cs[from - 1] != '.'
            invariant
                from <= n == cs@.len(),
                after_dot(cs@) == after_dot(cs@.take(from as int)) + cs@.subrange(
                    from as int,
                    n as int,
                ),
            decreases from,
        {
            proof {
                let t = cs@.take(from as int);
                assert(t.drop_last() =~= cs@.take(from - 1));
                assert(after_dot(t.drop_last()).push(t.last()) + cs@.subrange(
                    from as int,
                    n as int,
                ) =~= after_dot(t.drop_last()) + cs@.subrange(from - 1, n as int));
            }
            from -= 1;
        }
        assert(after_dot(cs@.take(from as int)) =~= Seq::empty());
        let last: String = string_of(&cs, from, n);
        assert(last@ =~= after_dot(cs@));
        let longer: bool = name.as_bytes().len() as u128 > ext.as_str().as_bytes().len() as u128
            + 1;
        eq_ignore_ascii_case(last.as_str(), ext.as_str()) && longer
    } else {
        eq_ignore_ascii_case(name, marker)
    }
}

/// One of the names shows one of the markers.
pub open spec fn marked(names: Seq<Seq<char>>, markers: Seq<Seq<char>>) -> bool {
    exists|i: int, j: int|
        0 <= i < names.len() && 0 <= j < markers.len() && shows_marker(
            #[trigger] names[i],
            #[trigger] markers[j],
        )
}

/// The names in a directory show a marker; those of a directory that cannot be
/// read show none.
pub open spec fn dir_marked(names: Option<Vec<String>>, markers: Seq<Seq<char>>) -> bool {
    match names {
        Some(v) => marked(views(v@), markers),
        None => false,
    }
}

fn marker_present_in(names: &Option<Vec<String>>, markers: &Vec<&'static str>) -> (r: bool)
    ensures
        r == dir_marked(*names, strs(markers@)),
{
    let v: &Vec<String> = match names {
        Some(v) => v,
        None => {
            return false;
        },
    };
    let ghost all = views(v@);
    let ghost ms = strs(markers@);
    let mut i: usize = 0;
    while i < v.len()
        invariant
            i <= v@.len(),
            *names == Some(*v),
            all == views(v@),
            ms == strs(markers@),
            forall|a: int, b: int|
                0 <= a < i && 0 <= b < ms.len() ==> !shows_marker(
                    #[trigger] all[a],
                    #[trigger] ms[b],
                ),
        decreases v@.len() - i,
    {
        let mut j: usize = 0;
        assert(all[i as int] == v@[i as int]@);
        while j < markers.len()
            invariant
                j <= markers@.len(),
                i < v@.len(),
                *names == Some(*v),
                all == views(v@),
                ms == strs(markers@),
                all[i as int] == v@[i as int]@,
                forall|b: int|
                    0 <= b < j ==> !shows_marker(all[i as int], #[trigger] ms[b]),
            decreases markers@.len() - j,
        {
            assert(ms[j as int] == markers@[j as int]@);
            if is_marker(v[i].as_str(), markers[j]) {
                assert(shows_marker(all[i as int], ms[j as int]));
                return true;
            }
            j += 1;
        }
        i += 1;
    }
    false
}

/// A directory called `name`, with what is in it and beside it, is an artifact
/// of this kind.
pub open spec fn is_kind(
    k: KindView,
    name: Seq<char>,
    own: Option<Vec<String>>,
    beside: Option<Vec<String>>,
) -> bool {
    match k.detect {
        Detect::SelfMarker => dir_marked(own, k.markers),
        Detect::SiblingMarker => same_ascii(name, k.dir_name) && dir_marked(beside, k.markers),
    }
}

/// The first kind of a list, from `from` on, that fits.
pub open spec fn first_kind(
    ks: Seq<KindView>,
    from: int,
    name: Seq<char>,
    own: Option<Vec<String>>,
    beside: Option<Vec<String>>,
) -> Option<int>
    decreases ks.len() - from,
{
    if from < 0 || from >= ks.len() {
        None
    } else if is_kind(ks[from], name, own, beside) {
        Some(from)
    } else {
        first_kind(ks, from + 1, name, own, beside)
    }
}

/// Match a directory against the catalog: `own` are the names in it, `beside`
/// those in its parent. Gives the number of the matching kind, if any.
pub fn match_kind(name: &str, own: &Option<Vec<String>>, beside: &Option<Vec<String>>) -> (r:
    Option<usize>)
    ensures
        match r {
            Some(i) => first_kind(kinds(), 0, name@, *own, *beside) == Some(i as int) && i
                < kinds().len(),
            None => first_kind(kinds(), 0, name@, *own, *beside) is None,
        },
{
    let all: Vec<ArtifactKind> = catalog();
    let ghost ks = kinds();
    let mut i: usize = 0;
    assert(kind_views(all@).len() == all@.len());
    while i < all.len()
        invariant
            i <= all@.len() == ks.len(),
            ks == kinds(),
            kind_views(all@) == ks,
            first_kind(ks, 0, name@, *own, *beside) == first_kind(
                ks,
                i as int,
                name@,
                *own,
                *beside,
            ),
        decreases all@.len() - i,
    {
        assert(ks[i as int] == all@[i as int]@);
        let k: &ArtifactKind = &all[i];
        let fits: bool = match k.detect {
            Detect::SelfMarker => marker_present_in(own, &k.markers),
            Detect::SiblingMarker => eq_ignore_ascii_case(name, k.dir_name) && marker_present_in(
                beside,
                &k.markers,
            ),
        };
        if fits {
            return Some(i);
        }
        i += 1;
    }
    None
}

// --------------------------------------------------------------- discovery --
/// One entry of a directory. `names` are the names in it, where it is a
/// directory that can be read.
pub struct DevChild {
    pub name: String,
    pub path: String,
    pub is_dir: bool,
    pub is_symlink: bool,
    pub names: Option<Vec<String>>,
}

/// A raw hit found during discovery, before sizing.
pub struct Hit {
    /// The number of the kind in the catalog.
    pub kind: usize,
    pub path: String,
    pub project_root: String,
}

/// What becomes of one entry.
pub enum Fate {
    /// Not a directory, or one that is never looked into.
    Skip,
    /// An artifact of this kind: recorded, and not descended into.
    Artifact { kind: int },
    /// A directory to look into.
    Descend,
}

pub open spec fn is_real_dir(c: DevChild) -> bool {
    c.is_dir && !c.is_symlink
}

pub open spec fn fate(c: DevChild, beside: Option<Vec<String>>) -> Fate {
    if !is_real_dir(c) || is_vcs(c.name@) {
        Fate::Skip
    } else {
        match first_kind(kinds(), 0, c.name@, c.names, beside) {
            Some(k) => Fate::Artifact { kind: k },
            None => Fate::Descend,
        }
    }
}

/// The project of an artifact: the directory it is in.
pub open spec fn project_of(style: PathStyle, path: Seq<char>) -> Seq<char> {
    match parent(style, path) {
        Some(p) => p,
        None => path,
    }
}

#[verifier::ext_equal]
pub struct HitView {
    pub kind: int,
    pub path: Seq<char>,
    pub project_root: Seq<char>,
}

impl View for Hit {
    type V = HitView;

    open spec fn view(&self) -> HitView {
        HitView {
            kind: self.kind as int,
            path: self.path@,
            project_root: self.project_root@,
        }
    }
}

pub open spec fn hit_views(v: Seq<Hit>) -> Seq<HitView> {
    v.map_values(|h: Hit| h@)
}

/// The artifacts among some entries.
pub open spec fn hits_in(
    style: PathStyle,
    children: Seq<DevChild>,
    beside: Option<Vec<String>>,
) -> Seq<HitView>
    decreases children.len(),
{
    if children.len() == 0 {
        Seq::empty()
    } else {
        let before = hits_in(style, children.drop_last(), beside);
        let c = children.last();
        match fate(c, beside) {
            Fate::Artifact { kind } => before.push(
                HitView { kind, path: c.path@, project_root: project_of(style, c.path@) },
            ),
            _ => before,
        }
    }
}

/// The directories to look into among some entries.
pub open spec fn descents(children: Seq<DevChild>, beside: Option<Vec<String>>) -> Seq<Seq<char>>
    decreases children.len(),
{
    if children.len() == 0 {
        Seq::empty()
    } else {
        let before = descents(children.drop_last(), beside);
        if fate(children.last(), beside) is Descend {
            before.push(children.last().path@)
        } else {
            before
        }
    }
}

/// How many of the entries are directories.
pub open spec fn real_dirs(children: Seq<DevChild>) -> nat
    decreases children.len(),
{
    if children.len() == 0 {
        0
    } else {
        real_dirs(children.drop_last()) + if is_real_dir(children.last()) {
            1nat
        } else {
            0nat
        }
    }
}

/// Discovery with pruning: when a directory is recognized as an artifact it is
/// recorded and NOT descended into (so a project's node_modules is one hit, not
/// thousands). VCS dirs are skipped entirely.
pub struct Discovery {
    pub todo: Vec<String>,
    pub hits: Vec<Hit>,
    /// Directories examined so far.
    pub seen: u64,
}

impl Discovery {
    pub fn new(root: &str) -> (r: Self)
        ensures
            views(r.todo@) == seq![root@],
            r.hits@.len() == 0,
            r.seen == 0,
    {
        let mut todo: Vec<String> = Vec::new();
        todo.push(copy(root));
        assert(views(todo@) =~= seq![root@]);
        Discovery { todo, hits: Vec::new(), seen: 0 }
    }

    /// The directory that is read next, where one is left.
    pub open spec fn upcoming(&self) -> Seq<char> {
        self.todo@.last()@
    }

    /// `after` is this discovery with its next directory taken off the list.
    pub open spec fn taken(&self, after: Self) -> bool {
        &&& self.todo@.len() > 0
        &&& after.todo@ == self.todo@.drop_last()
        &&& after.hits == self.hits
        &&& after.seen == self.seen
    }

    /// `after` is this discovery with the entries of a directory taken in.
    pub open spec fn fed(
        &self,
        style: PathStyle,
        names: Option<Vec<String>>,
        children: Seq<DevChild>,
        after: Self,
    ) -> bool {
        &&& views(after.todo@) == views(self.todo@) + descents(children, names)
        &&& hit_views(after.hits@) == hit_views(self.hits@) + hits_in(style, children, names)
        &&& after.seen == self.seen + real_dirs(children)
    }

    /// The next directory to read.
    pub fn next(&mut self) -> (r: Option<String>)
        ensures
            final(self).hits == old(self).hits,
            final(self).seen == old(self).seen,
            match r {
                Some(p) => p@ == old(self).upcoming() && old(self).taken(*final(self)),
                None => old(self).todo@.len() == 0 && final(self).todo@ == old(self).todo@,
            },
    {
        self.todo.pop()
    }

    /// Takes the entries of a directory that was read; `names` are their names.
    pub fn feed(
        &mut self,
        style: PathStyle,
        names: &Option<Vec<String>>,
        children: &Vec<DevChild>,
    )
        requires
            old(self).seen + children@.len() <= u64::MAX,
        ensures
            old(self).fed(style, *names, children@, *final(self)),
    {
        let ghost todo0 = views(self.todo@);
        let ghost hits0 = hit_views(self.hits@);
        let ghost seen0 = self.seen;
        let n: usize = children.len();
        let mut i: usize = 0;
        assert(todo0 + Seq::empty() =~= todo0);
        assert(hits0 + Seq::empty() =~= hits0);
        assert(children@.take(0) =~= Seq::empty());
        while i < n
            invariant
                i <= n == children@.len(),
                seen0 + n <= u64::MAX,
                views(self.todo@) == todo0 + descents(children@.take(i as int), *names),
                hit_views(self.hits@) == hits0 + hits_in(
                    style,
                    children@.take(i as int),
                    *names,
                ),
                self.seen == seen0 + real_dirs(children@.take(i as int)),
                real_dirs(children@.take(i as int)) <= i,
            decreases n - i,
        {
            let ghost t = children@.take(i + 1);
            assert(t.drop_last() =~= children@.take(i as int));
            assert(t.last() == children@[i as int]);
            let c: &DevChild = &children[i];
            let ghost todo1 = self.todo@;
            let ghost hits1 = self.hits@;
            if c.is_dir && !c.is_symlink {
                self.seen = self.seen + 1;
                if !is_vcs_or_meta(c.name.as_str()) {
                    match match_kind(c.name.as_str(), &c.names, names) {
                        Some(k) => {
                            let project_root: String = match parent_of(style, c.path.as_str()) {
                                Some(p) => p,
                                None => c.path.clone(),
                            };
                            let hit: Hit = Hit { kind: k, path: c.path.clone(), project_root };
                            self.hits.push(hit);
                            assert(hit_views(self.hits@) =~= hit_views(hits1).push(hit@));
                            assert(hit_views(hits1).push(hit@) =~= hits0 + hits_in(
                                style,
                                t,
                                *names,
                            ));
                        },
                        None => {
                            self.todo.push(c.path.clone());
                            assert(views(self.todo@) =~= views(todo1).push(c.path@));
                            assert(views(todo1).push(c.path@) =~= todo0 + descents(t, *names));
                        },
                    }
                }
            }
            i += 1;
        }
        assert(children@.take(n as int) =~= children@);
    }
}

/// Discovery looks into plain directories only: no artifact, no version control
/// directory, no link and no file is ever descended into.
pub proof fn law_artifacts_are_not_descended_into(
    children: Seq<DevChild>,
    beside: Option<Vec<String>>,
    i: int,
)
    requires
        0 <= i < descents(children, beside).len(),
    ensures
        exists|k: int|
            0 <= k < children.len() && (#[trigger] children[k]).path@ == descents(
                children,
                beside,
            )[i] && children[k].is_dir && !children[k].is_symlink && !is_vcs(children[k].name@)
                && first_kind(kinds(), 0, children[k].name@, children[k].names, beside) is None,
    decreases children.len(),
{
    let short = children.drop_last();
    let before = descents(short, beside);
    if i < before.len() {
        law_artifacts_are_not_descended_into(short, beside, i);
        let k = choose|k: int|
            0 <= k < short.len() && (#[trigger] short[k]).path@ == before[i] && short[k].is_dir
                && !short[k].is_symlink && !is_vcs(short[k].name@) && first_kind(
                kinds(),
                0,
                short[k].name@,
                short[k].names,
                beside,
            ) is None;
        assert(children[k] == short[k]);
    } else {
        assert(children[children.len() - 1].path@ == descents(children, beside)[i]);
    }
}

/// An artifact is only ever reported when a project marker proves that it is
/// one: the marker of its kind is in it, or beside it.
pub proof fn law_artifacts_have_a_marker(c: DevChild, beside: Option<Vec<String>>)
    requires
        fate(c, beside) is Artifact,
    ensures
        ({
            let k = kinds()[fate(c, beside)->kind];
            &&& 0 <= fate(c, beside)->kind < kinds().len()
            &&& k.detect is SelfMarker ==> dir_marked(c.names, k.markers)
            &&& k.detect is SiblingMarker ==> same_ascii(c.name@, k.dir_name) && dir_marked(
                beside,
                k.markers,
            )
        }),
{
    lemma_first_kind(kinds(), 0, c.name@, c.names, beside);
}

pub proof fn lemma_first_kind(
    ks: Seq<KindView>,
    from: int,
    name: Seq<char>,
    own: Option<Vec<String>>,
    beside: Option<Vec<String>>,
)
    requires
        0 <= from,
    ensures
        first_kind(ks, from, name, own, beside) matches Some(i) ==> from <= i < ks.len()
            && is_kind(ks[i], name, own, beside),
    decreases ks.len() - from,
{
    if from < ks.len() && !is_kind(ks[from], name, own, beside) {
        lemma_first_kind(ks, from + 1, name, own, beside);
    }
}

// ------------------------------------------------------------------ sizing --
/// The latest modification of a list of files, 0 where there is none after the
/// epoch.
pub open spec fn latest_change(v: Seq<Record>) -> i64
    decreases v.len(),
{
    if v.len() == 0 {
        0
    } else {
        let before = latest_change(v.drop_last());
        if v.last().modified > before {
            v.last().modified
        } else {
            before
        }
    }
}

/// Total size, file count and newest file mtime of the files of a directory
/// tree. `None` stands for a tree that could not be walked.
pub fn size_of(tree: &Option<Vec<FileRecord>>) -> (r: (u64, u64, i64))
    requires
        *tree matches Some(v) ==> file_bytes(records(v@)) <= u64::MAX,
    ensures
        match *tree {
            Some(v) => {
                &&& r.0 == file_bytes(records(v@))
                &&& r.1 == files(records(v@)).len()
                &&& r.2 == latest_change(files(records(v@)))
            },
            None => r == (0u64, 0u64, 0i64),
        },
{
    let v: &Vec<FileRecord> = match tree {
        Some(v) => v,
        None => {
            return (0, 0, 0);
        },
    };
    let ghost recs = records(v@);
    let ghost p = is_file();
    let mut count: u64 = 0;
    let mut bytes: u64 = 0;
    let mut newest: i64 = 0;
    let n: usize = v.len();
    let mut i: usize = 0;
    proof {
        lemma_filter_ends(recs, p);
    }
    while i < n
        invariant
            i <= n == v@.len(),
            recs == records(v@),
            p == is_file(),
            file_bytes(recs) <= u64::MAX,
            count == recs.take(i as int).filter(p).len(),
            count <= i,
            bytes == sum(recs.take(i as int).filter(p), record_size()),
            newest == latest_change(recs.take(i as int).filter(p)),
        decreases n - i,
    {
        let ghost before = recs.take(i as int).filter(p);
        proof {
            lemma_filter_take(recs, p, i as int);
            lemma_filter_sum_prefix(recs, p, record_size(), i + 1);
            assert(recs[i as int] == v@[i as int]@);
        }
        let r: &FileRecord = &v[i];
        if !r.is_dir {
            proof {
                let now = before.push(recs[i as int]);
                lemma_sum_push(before, record_size(), recs[i as int]);
                assert(now.drop_last() =~= before);
            }
            count += 1;
            bytes += r.size;
            if r.modified > newest {
                newest = r.modified;
            }
        }
        i += 1;
    }
    proof {
        lemma_filter_ends(recs, p);
    }
    (bytes, count, newest)
}

// ---------------------------------------------------------------- projects --
/// One reclaimable artifact directory belonging to a project.
#[derive(Debug)]
pub struct DevArtifact {
    pub kind_id: String,
    pub kind_label: String,
    pub dir_name: String,
    pub path: String,
    pub bytes: u64,
    pub files: u64,
    pub restore_hint: String,
    /// Newest modified time (unix seconds) of any file inside the artifact - a
    /// free by-product of the sizing walk. Approximates the last build /
    /// install; 0 when unknown.
    pub last_used_unix: i64,
}

#[verifier::ext_equal]
pub struct ArtifactView {
    pub kind_id: Seq<char>,
    pub kind_label: Seq<char>,
    pub dir_name: Seq<char>,
    pub path: Seq<char>,
    pub bytes: u64,
    pub files: u64,
    pub restore_hint: Seq<char>,
    pub last_used_unix: i64,
}

impl View for DevArtifact {
    type V = ArtifactView;

    open spec fn view(&self) -> ArtifactView {
        ArtifactView {
            kind_id: self.kind_id@,
            kind_label: self.kind_label@,
            dir_name: self.dir_name@,
            path: self.path@,
            bytes: self.bytes,
            files: self.files,
            restore_hint: self.restore_hint@,
            last_used_unix: self.last_used_unix,
        }
    }
}

pub open spec fn artifact_views(v: Seq<DevArtifact>) -> Seq<ArtifactView> {
    v.map_values(|a: DevArtifact| a@)
}

/// An artifact untouched for this long is recommended for cleanup: the project
/// is not being actively built, so reclaiming costs nothing until the next
/// (re)build regenerates it.
pub const DEV_STALE_DAYS: i64 = 30;

/// Not used for more than 30 days; what was never seen in use is not stale.
pub open spec fn is_stale(now: i64, used: i64) -> bool {
    used > 0 && now - used > 30 * 86_400
}

/// Pure recommendation heuristic. Unknown activity (0) is never recommended: a
/// recommendation must rest on evidence, same rule the App Manager flags
/// follow. Deleting is safe either way (artifacts are regenerable by
/// construction); this only ranks convenience.
pub fn is_recommended(now_unix: i64, last_used_unix: i64) -> (r: bool)
    requires
        last_used_unix > 0 ==> now_unix - last_used_unix >= i64::MIN,
    ensures
        r == is_stale(now_unix, last_used_unix),
        r == (last_used_unix > 0 && now_unix - last_used_unix > 30 * 86_400),
{
    last_used_unix > 0 && now_unix - last_used_unix > DEV_STALE_DAYS * 86_400
}

/// A project (a directory holding a recognized manifest) and its artifacts.
#[derive(Debug)]
pub struct DevProject {
    pub root: String,
    pub name: String,
    pub artifacts: Vec<DevArtifact>,
    pub total_bytes: u64,
}

/// A hit with what sizing found.
pub struct SizedHit {
    pub hit: Hit,
    pub bytes: u64,
    pub files: u64,
    pub newest: i64,
}

/// The name of a directory; empty where its path has none.
pub open spec fn name_of(style: PathStyle, path: Seq<char>) -> Seq<char> {
    match file_name(style, path) {
        Some(n) => n,
        None => Seq::empty(),
    }
}

pub open spec fn artifact_of(style: PathStyle, h: SizedHit) -> ArtifactView {
    let k = kinds()[h.hit.kind as int];
    ArtifactView {
        kind_id: k.id,
        kind_label: k.label,
        dir_name: name_of(style, h.hit.path@),
        path: h.hit.path@,
        bytes: h.bytes,
        files: h.files,
        restore_hint: k.restore_hint,
        last_used_unix: h.newest,
    }
}

/// The project of each hit.
pub open spec fn hit_projects(v: Seq<SizedHit>) -> Seq<Option<Seq<char>>> {
    v.map_values(|h: SizedHit| Some(h.hit.project_root@))
}

/// Bigger artifacts come first, then by path.
pub open spec fn artifact_keys(v: Seq<DevArtifact>) -> Seq<(u64, Seq<char>)> {
    v.map_values(|a: DevArtifact| (descending(a.bytes), a.path@))
}

pub open spec fn hit_bytes() -> spec_fn(SizedHit) -> nat {
    |h: SizedHit| h.bytes as nat
}

/// The hits at the given positions.
pub open spec fn hits_at(v: Seq<SizedHit>, pos: Seq<int>) -> Seq<SizedHit> {
    pos.map_values(|i: int| v[i])
}

/// `p` is the project at `root` with the given hits.
pub open spec fn is_project(
    style: PathStyle,
    root: Seq<char>,
    hits: Seq<SizedHit>,
    p: DevProject,
) -> bool {
    &&& p.root@ == root
    &&& p.name@ == match file_name(style, root) {
        Some(n) => n,
        None => root,
    }
    &&& p.total_bytes == sum(hits, hit_bytes())
    &&& exists|raw: Seq<DevArtifact>|
        artifact_views(raw) == hits.map_values(|h: SizedHit| artifact_of(style, h))
            && #[trigger] is_sorted_copy(raw, artifact_keys(raw), p.artifacts@)
}

/// One project for each root, in the order in which the roots come first.
pub open spec fn are_projects(
    style: PathStyle,
    sized: Seq<SizedHit>,
    raw: Seq<DevProject>,
) -> bool {
    let keys = hit_projects(sized);
    &&& raw.len() == distinct_keys(keys).len()
    &&& forall|j: int|
        0 <= j < raw.len() ==> is_project(
            style,
            distinct_keys(keys)[j],
            hits_at(sized, positions(keys, distinct_keys(keys)[j])),
            #[trigger] raw[j],
        )
}

/// Biggest projects first; ties broken by path for determinism.
pub open spec fn project_keys(v: Seq<DevProject>) -> Seq<(u64, Seq<char>)> {
    v.map_values(|p: DevProject| (descending(p.total_bytes), p.root@))
}

fn build_artifact(style: PathStyle, all: &Vec<ArtifactKind>, h: &SizedHit) -> (r: DevArtifact)
    requires
        kind_views(all@) == kinds(),
        h.hit.kind < kinds().len(),
    ensures
        r@ == artifact_of(style, *h),
{
    assert(kind_views(all@).len() == all@.len());
    assert(kind_views(all@)[h.hit.kind as int] == all@[h.hit.kind as int]@);
    let k: &ArtifactKind = &all[h.hit.kind];
    let dir_name: String = match file_name_of(style, h.hit.path.as_str()) {
        Some(n) => n,
        None => String::new(),
    };
    DevArtifact {
        kind_id: copy(k.id),
        kind_label: copy(k.label),
        dir_name,
        path: h.hit.path.clone(),
        bytes: h.bytes,
        files: h.files,
        restore_hint: copy(k.restore_hint),
        last_used_unix: h.newest,
    }
}

/// The bytes of the hits at some positions are no more than those of all.
proof fn lemma_part_of_total(v: Seq<SizedHit>, k: Seq<char>)
    ensures
        sum(hits_at(v, positions(hit_projects(v), k)), hit_bytes()) <= sum(v, hit_bytes()),
    decreases v.len(),
{
    let keys = hit_projects(v);
    if v.len() > 0 {
        let short = v.drop_last();
        lemma_part_of_total(short, k);
        assert(hit_projects(short) =~= keys.drop_last());
        let before = positions(keys.drop_last(), k);
        lemma_positions(keys.drop_last(), k);
        assert(hits_at(short, before) =~= hits_at(v, before));
        let now = positions(keys, k);
        if keys.last() == Some(k) {
            assert(hits_at(v, now) =~= hits_at(v, before).push(v.last()));
            lemma_sum_push(hits_at(v, before), hit_bytes(), v.last());
        }
        lemma_sum_push(short, hit_bytes(), v.last());
        assert(short.push(v.last()) =~= v);
    } else {
        assert(hits_at(v, positions(keys, k)) =~= Seq::empty());
    }
}

fn build_project(
    style: PathStyle,
    root: String,
    sized: &Vec<SizedHit>,
    at: &Vec<usize>,
) -> (r: DevProject)
    requires
        forall|i: int|
            0 <= i < sized@.len() ==> (#[trigger] sized@[i]).hit.kind < kinds().len(),
        forall|k: int| 0 <= k < at@.len() ==> (#[trigger] at@[k]) < sized@.len(),
        sum(hits_at(sized@, as_ints(at@)), hit_bytes()) <= u64::MAX,
    ensures
        is_project(style, root@, hits_at(sized@, as_ints(at@)), r),
{
    let all: Vec<ArtifactKind> = catalog();
    let ghost hits = hits_at(sized@, as_ints(at@));
    let ghost goal = hits.map_values(|h: SizedHit| artifact_of(style, h));
    let mut list: Vec<DevArtifact> = Vec::new();
    let mut keys: Vec<SortKey> = Vec::new();
    let mut total: u64 = 0;
    let n: usize = at.len();
    let mut i: usize = 0;
    assert(hits.take(0) =~= Seq::empty());
    while i < n
        invariant
            i <= n == at@.len(),
            hits == hits_at(sized@, as_ints(at@)),
            goal == hits.map_values(|h: SizedHit| artifact_of(style, h)),
            kind_views(all@) == kinds(),
            forall|k: int|
                0 <= k < sized@.len() ==> (#[trigger] sized@[k]).hit.kind < kinds().len(),
            forall|k: int| 0 <= k < at@.len() ==> (#[trigger] at@[k]) < sized@.len(),
            sum(hits, hit_bytes()) <= u64::MAX,
            list@.len() == i,
            keys@.len() == i,
            forall|k: int| 0 <= k < i ==> (#[trigger] list@[k])@ == goal[k],
            forall|k: int|
                0 <= k < i ==> (#[trigger] keys@[k])@ == (
                    descending(list@[k].bytes),
                    list@[k].path@,
                ),
            total == sum(hits.take(i as int), hit_bytes()),
        decreases n - i,
    {
        let h: &SizedHit = &sized[at[i]];
        proof {
            assert(as_ints(at@)[i as int] == at@[i as int]);
            assert(hits[i as int] == *h);
            lemma_sum_take(hits, hit_bytes(), i as int);
        }
        let a: DevArtifact = build_artifact(style, &all, h);
        keys.push(
            SortKey { rank: rank_descending(a.bytes), name: chars_of(a.path.as_str()) },
        );
        total = total + h.bytes;
        list.push(a);
        i += 1;
    }
    assert(hits.take(n as int) =~= hits);
    assert(artifact_views(list@) =~= goal);
    assert(key_views(keys@) =~= artifact_keys(list@));
    let ghost raw = list@;
    let artifacts: Vec<DevArtifact> = sort_by_keys(list, &keys);
    assert(is_sorted_copy(raw, artifact_keys(raw), artifacts@));
    let name: String = match file_name_of(style, root.as_str()) {
        Some(m) => m,
        None => root.clone(),
    };
    let r: DevProject = DevProject { root, name, artifacts, total_bytes: total };
    assert(artifact_views(raw) == goal && is_sorted_copy(
        raw,
        artifact_keys(raw),
        r.artifacts@,
    ));
    r
}

/// Reclaimable developer artifacts grouped by project, biggest project first.
/// Never deletes anything.
pub fn scan_projects(style: PathStyle, sized: &Vec<SizedHit>) -> (r: Vec<DevProject>)
    requires
        sized@.len() < usize::MAX,
        forall|i: int|
            0 <= i < sized@.len() ==> (#[trigger] sized@[i]).hit.kind < kinds().len(),
        sum(sized@, hit_bytes()) <= u64::MAX,
    ensures
        exists|raw: Seq<DevProject>|
            are_projects(style, sized@, raw) && #[trigger] is_sorted_copy(
                raw,
                project_keys(raw),
                r@,
            ),
{
    let ghost goal = hit_projects(sized@);
    let mut index: Index = Index::new();
    let mut i: usize = 0;
    assert(goal.take(0) =~= Seq::empty());
    while i < sized.len()
        invariant
            i <= sized@.len() < usize::MAX,
            goal == hit_projects(sized@),
            index.wf(),
            index.keys() == goal.take(i as int),
        decreases sized@.len() - i,
    {
        index.add(Some(sized[i].hit.project_root.as_str()));
        i += 1;
        assert(goal.take(i as int) =~= goal.take(i - 1).push(goal[i - 1]));
    }
    assert(goal.take(i as int) =~= goal);
    let ghost roots = distinct_keys(goal);
    let n: usize = index.len();
    let mut list: Vec<DevProject> = Vec::new();
    let mut keys: Vec<SortKey> = Vec::new();
    let mut s: usize = 0;
    while s < n
        invariant
            s <= n == roots.len(),
            goal == hit_projects(sized@),
            roots == distinct_keys(goal),
            index.wf(),
            index.keys() == goal,
            sum(sized@, hit_bytes()) <= u64::MAX,
            forall|k: int|
                0 <= k < sized@.len() ==> (#[trigger] sized@[k]).hit.kind < kinds().len(),
            list@.len() == s,
            keys@.len() == s,
            forall|j: int|
                0 <= j < s ==> is_project(
                    style,
                    roots[j],
                    hits_at(sized@, positions(goal, roots[j])),
                    #[trigger] list@[j],
                ),
            forall|k: int|
                0 <= k < s ==> (#[trigger] keys@[k])@ == (
                    descending(list@[k].total_bytes),
                    list@[k].root@,
                ),
        decreases n - s,
    {
        let root: String = index.name(s);
        let at: Vec<usize> = index.group(s);
        proof {
            lemma_positions(goal, roots[s as int]);
            lemma_part_of_total(sized@, roots[s as int]);
            assert forall|k: int| 0 <= k < at@.len() implies (#[trigger] at@[k]) < sized@.len() by {
                assert(as_ints(at@)[k] == at@[k]);
                assert(positions(goal, roots[s as int])[k] == at@[k]);
            }
        }
        let p: DevProject = build_project(style, root, sized, &at);
        keys.push(
            SortKey { rank: rank_descending(p.total_bytes), name: chars_of(p.root.as_str()) },
        );
        list.push(p);
        s += 1;
    }
    assert(key_views(keys@) =~= project_keys(list@));
    let ghost raw = list@;
    assert(are_projects(style, sized@, raw));
    sort_by_keys(list, &keys)
}

} // verus!
