//! Which directories are build artifacts, said by the names of the directories and
//! of the files that prove it, and what is reported of them.
use crate::devscan::{
    after_dot, artifact_keys, artifact_of, artifact_views, dir_marked, fate, first_kind, hit_bytes,
    is_kind, is_project, is_stale, kinds, latest_change, lemma_first_kind, marked, project_keys,
    project_of, shows_marker, DevArtifact, DevChild, DevProject, SizedHit,
};
use crate::lists::sum;
use crate::order::{descending, is_sorted_copy, law_sorted_copy_is_ascending};
use crate::paths::{file_name, parent, PathStyle};
use crate::text::{same_ascii, views};
use crate::types::Record;
use vstd::prelude::*;
use vstd::utf8::encode_utf8;

verus! {

// ------------------------------------------------------------------ markers --
/// One of the names is this one, but for the case of letters; a directory that
/// could not be read holds none.
pub open spec fn holds(names: Option<Vec<String>>, name: Seq<char>) -> bool {
    names matches Some(v) && exists|i: int|
        0 <= i < v@.len() && same_ascii((#[trigger] v@[i])@, name)
}

/// One of the names has this extension, but for the case of letters, and something
/// in front of it.
pub open spec fn holds_file_with(names: Option<Vec<String>>, ext: Seq<char>) -> bool {
    names matches Some(v) && exists|i: int|
        0 <= i < v@.len() && has_extension((#[trigger] v@[i])@, ext)
}

/// The name has this extension, and more than the extension and its dot.
pub open spec fn has_extension(name: Seq<char>, ext: Seq<char>) -> bool {
    same_ascii(after_dot(name), ext) && encode_utf8(name).len() > encode_utf8(ext).len() + 1
}

/// What follows the last dot of a name.
pub proof fn law_extension_is_behind_the_last_dot(stem: Seq<char>, ext: Seq<char>)
    requires
        forall|i: int| 0 <= i < ext.len() ==> #[trigger] ext[i] != '.',
    ensures
        after_dot(stem + seq!['.'] + ext) == ext,
        after_dot(ext) == ext,
    decreases ext.len(),
{
    let s = stem + seq!['.'] + ext;
    if ext.len() == 0 {
        assert(s.last() == '.');
        assert(ext =~= Seq::empty());
    } else {
        let front = ext.drop_last();
        assert forall|i: int| 0 <= i < front.len() implies #[trigger] front[i] != '.' by {
            assert(front[i] == ext[i]);
        }
        law_extension_is_behind_the_last_dot(stem, front);
        assert(s.drop_last() =~= stem + seq!['.'] + front);
        assert(s.last() == ext.last());
        assert(ext.last() == ext[ext.len() - 1]);
        assert(front.push(ext.last()) =~= ext);
    }
}

proof fn lemma_named(names: Option<Vec<String>>, marker: Seq<char>)
    requires
        marker.len() > 0,
        marker[0] != '.',
    ensures
        dir_marked(names, seq![marker]) <==> holds(names, marker),
{
    let m = seq![marker];
    match names {
        Some(v) => {
            let n = views(v@);
            if marked(n, m) {
                let (i, j) = choose|i: int, j: int|
                    0 <= i < n.len() && 0 <= j < m.len() && shows_marker(
                        #[trigger] n[i],
                        #[trigger] m[j],
                    );
                assert(j == 0 && n[i] == v@[i]@);
                assert(same_ascii(v@[i]@, marker));
            }
            if holds(names, marker) {
                let i = choose|i: int| 0 <= i < v@.len() && same_ascii((#[trigger] v@[i])@, marker);
                assert(n[i] == v@[i]@ && m[0] == marker);
                assert(shows_marker(n[i], m[0]));
            }
        },
        None => {},
    }
}

proof fn lemma_named_any(
    names: Option<Vec<String>>,
    a: Seq<char>,
    b: Seq<char>,
    c: Seq<char>,
    d: Seq<char>,
)
    requires
        a.len() > 0 && a[0] != '.',
        b.len() > 0 && b[0] != '.',
        c.len() > 0 && c[0] != '.',
        d.len() > 0 && d[0] != '.',
    ensures
        dir_marked(names, seq![a, b, c, d]) <==> holds(names, a) || holds(names, b) || holds(
            names,
            c,
        ) || holds(names, d),
{
    let m = seq![a, b, c, d];
    match names {
        Some(v) => {
            let n = views(v@);
            if marked(n, m) {
                let (i, j) = choose|i: int, j: int|
                    0 <= i < n.len() && 0 <= j < m.len() && shows_marker(
                        #[trigger] n[i],
                        #[trigger] m[j],
                    );
                assert(n[i] == v@[i]@);
                assert(same_ascii(v@[i]@, m[j]));
                assert(j == 0 || j == 1 || j == 2 || j == 3);
            }
            assert forall|j: int| 0 <= j < 4 && holds(names, #[trigger] m[j]) implies marked(
                n,
                m,
            ) by {
                let i = choose|i: int| 0 <= i < v@.len() && same_ascii((#[trigger] v@[i])@, m[j]);
                assert(n[i] == v@[i]@);
                assert(shows_marker(n[i], m[j]));
            }
            assert(m[0] == a && m[1] == b && m[2] == c && m[3] == d);
        },
        None => {},
    }
}

proof fn lemma_shown(v: Vec<String>, m: Seq<Seq<char>>, j: int)
    requires
        0 <= j < m.len(),
        m[j].len() > 0,
        m[j][0] == '.',
        holds_file_with(Some(v), m[j].skip(1)),
    ensures
        marked(views(v@), m),
{
    let e = m[j].skip(1);
    let i = choose|i: int| 0 <= i < v@.len() && has_extension((#[trigger] v@[i])@, e);
    assert(views(v@)[i] == v@[i]@);
    assert(shows_marker(views(v@)[i], m[j]));
}

proof fn lemma_with_extension(
    names: Option<Vec<String>>,
    m: Seq<Seq<char>>,
    a: Seq<char>,
    b: Seq<char>,
    c: Seq<char>,
)
    requires
        m.len() == 3,
        m[0] == seq!['.'] + a,
        m[1] == seq!['.'] + b,
        m[2] == seq!['.'] + c,
    ensures
        dir_marked(names, m) <==> holds_file_with(names, a) || holds_file_with(names, b)
            || holds_file_with(names, c),
{
    assert(m[0].skip(1) =~= a);
    assert(m[1].skip(1) =~= b);
    assert(m[2].skip(1) =~= c);
    assert(m[0][0] == '.' && m[1][0] == '.' && m[2][0] == '.');
    match names {
        Some(v) => {
            let n = views(v@);
            if marked(n, m) {
                let (i, j) = choose|i: int, j: int|
                    0 <= i < n.len() && 0 <= j < m.len() && shows_marker(
                        #[trigger] n[i],
                        #[trigger] m[j],
                    );
                assert(n[i] == v@[i]@);
                assert(j == 0 || j == 1 || j == 2);
                assert(has_extension(v@[i]@, m[j].skip(1)));
            }
            if holds_file_with(names, a) {
                lemma_shown(v, m, 0);
            }
            if holds_file_with(names, b) {
                lemma_shown(v, m, 1);
            }
            if holds_file_with(names, c) {
                lemma_shown(v, m, 2);
            }
        },
        None => {},
    }
}

// -------------------------------------------------------------------- kinds --
/// A directory that can be built again, by its name and what is in it or beside it:
/// the packages of Node beside its manifest, the output of Cargo, Maven, Gradle
/// and .NET beside their project files, and a Python environment by the file in
/// it.
pub open spec fn can_be_rebuilt(
    name: Seq<char>,
    own: Option<Vec<String>>,
    beside: Option<Vec<String>>,
) -> bool {
    let gradle = holds(beside, "build.gradle"@) || holds(beside, "build.gradle.kts"@) || holds(
        beside,
        "settings.gradle"@,
    ) || holds(beside, "settings.gradle.kts"@);
    let dotnet = holds_file_with(beside, "csproj"@) || holds_file_with(beside, "vbproj"@)
        || holds_file_with(beside, "fsproj"@);
    ||| same_ascii(name, "node_modules"@) && holds(beside, "package.json"@)
    ||| same_ascii(name, "target"@) && (holds(beside, "Cargo.toml"@) || holds(beside, "pom.xml"@))
    ||| same_ascii(name, "build"@) && gradle
    ||| same_ascii(name, ".gradle"@) && gradle
    ||| holds(own, "pyvenv.cfg"@)
    ||| same_ascii(name, "obj"@) && dotnet
    ||| same_ascii(name, "bin"@) && dotnet
}

proof fn lemma_some_kind(name: Seq<char>, own: Option<Vec<String>>, beside: Option<Vec<String>>)
    ensures
        (exists|k: int| 0 <= k < kinds().len() && is_kind(#[trigger] kinds()[k], name, own, beside))
            <==> can_be_rebuilt(name, own, beside),
{
    reveal_strlit("package.json");
    reveal_strlit("Cargo.toml");
    reveal_strlit("pom.xml");
    reveal_strlit("build.gradle");
    reveal_strlit("build.gradle.kts");
    reveal_strlit("settings.gradle");
    reveal_strlit("settings.gradle.kts");
    reveal_strlit("pyvenv.cfg");
    lemma_named(beside, "package.json"@);
    lemma_named(beside, "Cargo.toml"@);
    lemma_named(beside, "pom.xml"@);
    lemma_named_any(
        beside,
        "build.gradle"@,
        "build.gradle.kts"@,
        "settings.gradle"@,
        "settings.gradle.kts"@,
    );
    lemma_named(own, "pyvenv.cfg"@);
    lemma_dotnet(beside);
    let ks = kinds();
    assert(ks.len() == 8);
    assert(is_kind(ks[0], name, own, beside) == (same_ascii(name, "node_modules"@) && holds(
        beside,
        "package.json"@,
    )));
    assert(is_kind(ks[1], name, own, beside) == (same_ascii(name, "target"@) && holds(
        beside,
        "Cargo.toml"@,
    )));
    assert(is_kind(ks[2], name, own, beside) == (same_ascii(name, "target"@) && holds(
        beside,
        "pom.xml"@,
    )));
    assert(is_kind(ks[5], name, own, beside) == holds(own, "pyvenv.cfg"@));
    if exists|k: int| 0 <= k < ks.len() && is_kind(#[trigger] ks[k], name, own, beside) {
        let k = choose|k: int| 0 <= k < ks.len() && is_kind(#[trigger] ks[k], name, own, beside);
        assert(k == 0 || k == 1 || k == 2 || k == 3 || k == 4 || k == 5 || k == 6 || k == 7);
    }
    if can_be_rebuilt(name, own, beside) {
        assert(is_kind(ks[0], name, own, beside) || is_kind(ks[1], name, own, beside) || is_kind(
            ks[2],
            name,
            own,
            beside,
        ) || is_kind(ks[3], name, own, beside) || is_kind(ks[4], name, own, beside) || is_kind(
            ks[5],
            name,
            own,
            beside,
        ) || is_kind(ks[6], name, own, beside) || is_kind(ks[7], name, own, beside));
    }
}

proof fn lemma_dotnet(names: Option<Vec<String>>)
    ensures
        dir_marked(names, seq![".csproj"@, ".vbproj"@, ".fsproj"@]) <==> holds_file_with(
            names,
            "csproj"@,
        ) || holds_file_with(names, "vbproj"@) || holds_file_with(names, "fsproj"@),
{
    reveal_strlit(".csproj");
    reveal_strlit(".vbproj");
    reveal_strlit(".fsproj");
    reveal_strlit("csproj");
    reveal_strlit("vbproj");
    reveal_strlit("fsproj");
    let m = seq![".csproj"@, ".vbproj"@, ".fsproj"@];
    assert(".csproj"@ =~= seq!['.'] + "csproj"@);
    assert(".vbproj"@ =~= seq!['.'] + "vbproj"@);
    assert(".fsproj"@ =~= seq!['.'] + "fsproj"@);
    lemma_with_extension(names, m, "csproj"@, "vbproj"@, "fsproj"@);
}

/// A directory is reported as an artifact exactly if it is a real one, not that of
/// a version control system, and can be rebuilt; every other real directory is
/// looked into, and nothing else is.
pub proof fn law_which_directories_are_artifacts(c: DevChild, beside: Option<Vec<String>>)
    ensures
        ({
            let looked_at = c.is_dir && !c.is_symlink && c.name@ != ".git"@ && c.name@ != ".hg"@
                && c.name@ != ".svn"@;
            &&& fate(c, beside) is Artifact <==> looked_at && can_be_rebuilt(c.name@, c.names, beside)
            &&& fate(c, beside) is Descend <==> looked_at && !can_be_rebuilt(c.name@, c.names, beside)
        }),
{
    lemma_some_kind(c.name@, c.names, beside);
    lemma_first_kind(kinds(), 0, c.name@, c.names, beside);
    lemma_no_kind(c.name@, c.names, beside, 0);
}

proof fn lemma_no_kind(
    name: Seq<char>,
    own: Option<Vec<String>>,
    beside: Option<Vec<String>>,
    from: int,
)
    requires
        0 <= from,
    ensures
        first_kind(kinds(), from, name, own, beside) is None ==> forall|k: int|
            from <= k < kinds().len() ==> !is_kind(#[trigger] kinds()[k], name, own, beside),
    decreases kinds().len() - from,
{
    if from < kinds().len() && !is_kind(kinds()[from], name, own, beside) {
        lemma_no_kind(name, own, beside, from + 1);
    }
}

/// Each kind tells how it comes back.
pub proof fn law_each_kind_tells_how_it_comes_back(k: int)
    requires
        0 <= k < kinds().len(),
    ensures
        kinds()[k].id == "node_modules"@ || kinds()[k].id == "rust_target"@ || kinds()[k].id
            == "maven_target"@ || kinds()[k].id == "gradle_build"@ || kinds()[k].id
            == "gradle_cache"@ || kinds()[k].id == "python_venv"@ || kinds()[k].id
            == "dotnet_obj"@ || kinds()[k].id == "dotnet_bin"@,
        same_ascii(kinds()[k].dir_name, "node_modules"@) ==> kinds()[k].restore_hint
            == "npm/pnpm/yarn install"@,
        kinds()[k].markers == seq!["Cargo.toml"@] ==> kinds()[k].restore_hint == "cargo build"@
            && kinds()[k].id == "rust_target"@,
        kinds()[k].markers == seq!["pom.xml"@] ==> kinds()[k].restore_hint == "mvn package"@
            && kinds()[k].id == "maven_target"@,
{
    reveal_strlit("node_modules");
    reveal_strlit("target");
    reveal_strlit("build");
    reveal_strlit(".gradle");
    reveal_strlit("");
    reveal_strlit("obj");
    reveal_strlit("bin");
    reveal_strlit("package.json");
    reveal_strlit("Cargo.toml");
    reveal_strlit("pom.xml");
    reveal_strlit("pyvenv.cfg");
    assert("node_modules"@.len() == 12 && "target"@.len() == 6 && "build"@.len() == 5
        && ".gradle"@.len() == 7 && ""@.len() == 0 && "obj"@.len() == 3 && "bin"@.len() == 3);
    assert("package.json"@.len() == 12 && "Cargo.toml"@.len() == 10 && "pom.xml"@.len() == 7
        && "pyvenv.cfg"@.len() == 10);
    assert("pyvenv.cfg"@[0] != "Cargo.toml"@[0]);
    let m = kinds()[k].markers;
    if m == seq!["Cargo.toml"@] {
        assert(m.len() == 1 && m[0] == "Cargo.toml"@);
    }
    if m == seq!["pom.xml"@] {
        assert(m.len() == 1 && m[0] == "pom.xml"@);
    }
    assert(k == 0 || k == 1 || k == 2 || k == 3 || k == 4 || k == 5 || k == 6 || k == 7);
}

// ------------------------------------------------------------------ reports --
/// The newest change is that of a file, and no file changed later; without any it
/// is 0.
pub proof fn law_the_newest_change_is_the_newest(v: Seq<Record>)
    ensures
        forall|i: int| 0 <= i < v.len() ==> (#[trigger] v[i]).modified <= latest_change(v),
        latest_change(v) >= 0,
        latest_change(v) > 0 ==> exists|i: int|
            0 <= i < v.len() && (#[trigger] v[i]).modified == latest_change(v),
    decreases v.len(),
{
    if v.len() > 0 {
        let front = v.drop_last();
        law_the_newest_change_is_the_newest(front);
        assert forall|i: int| 0 <= i < v.len() implies (#[trigger] v[i]).modified <= latest_change(
            v,
        ) by {
            if i < front.len() {
                assert(front[i].modified <= latest_change(front));
            }
        }
        if latest_change(v) > 0 {
            if v.last().modified > latest_change(front) {
                assert(v[v.len() - 1].modified == latest_change(v));
            } else {
                let i = choose|i: int|
                    0 <= i < front.len() && (#[trigger] front[i]).modified == latest_change(front);
                assert(v[i].modified == latest_change(v));
            }
        }
    }
}

/// An artifact is reported with its own path, size, number of files and newest
/// change; the project it belongs to is the directory that holds it.
pub proof fn law_artifact_is_reported_as_measured(style: PathStyle, h: SizedHit)
    ensures
        ({
            let a = artifact_of(style, h);
            &&& a.path == h.hit.path@
            &&& a.bytes == h.bytes
            &&& a.files == h.files
            &&& a.last_used_unix == h.newest
            &&& file_name(style, h.hit.path@) matches Some(n) ==> a.dir_name == n
            &&& 0 <= h.hit.kind < kinds().len() ==> a.kind_id == kinds()[h.hit.kind as int].id
                && a.restore_hint == kinds()[h.hit.kind as int].restore_hint
        }),
        parent(style, h.hit.path@) matches Some(p) ==> project_of(style, h.hit.path@) == p,
{
}

/// The bytes of a project are those of its artifacts, the biggest of which comes
/// first.
pub proof fn law_project_adds_up_its_artifacts(
    style: PathStyle,
    root: Seq<char>,
    hits: Seq<SizedHit>,
    p: DevProject,
)
    requires
        is_project(style, root, hits, p),
    ensures
        p.root@ == root,
        p.total_bytes == sum(hits, |h: SizedHit| h.bytes as nat),
        p.artifacts@.len() == hits.len(),
        forall|i: int, j: int|
            0 <= i < j < p.artifacts@.len() ==> (#[trigger] p.artifacts@[i]).bytes >= (
            #[trigger] p.artifacts@[j]).bytes,
{
    let raw = choose|raw: Seq<DevArtifact>|
        artifact_views(raw) == hits.map_values(|h: SizedHit| artifact_of(style, h))
            && #[trigger] is_sorted_copy(raw, artifact_keys(raw), p.artifacts@);
    law_sorted_copy_is_ascending(
        raw,
        |a: DevArtifact| (descending(a.bytes), a.path@),
        artifact_keys(raw),
        p.artifacts@,
    );
    assert(artifact_views(raw).len() == raw.len());
    assert(hit_bytes() =~= |h: SizedHit| h.bytes as nat);
}

/// The project with the most to gain comes first.
pub proof fn law_projects_come_by_size(raw: Seq<DevProject>, out: Seq<DevProject>, i: int, j: int)
    requires
        is_sorted_copy(raw, project_keys(raw), out),
        0 <= i < j < out.len(),
    ensures
        out[i].total_bytes >= out[j].total_bytes,
{
    law_sorted_copy_is_ascending(
        raw,
        |p: DevProject| (descending(p.total_bytes), p.root@),
        project_keys(raw),
        out,
    );
}

/// An artifact is recommended for deletion where its last use is known and more
/// than 30 days ago: what is recommended stays so, and what was used later is
/// recommended no sooner.
pub proof fn law_what_is_recommended(now: i64, later: i64, used: i64, newer: i64)
    requires
        now <= later,
        used <= newer,
    ensures
        is_stale(now, used) <==> used > 0 && now - used > 2_592_000,
        is_stale(now, used) ==> is_stale(later, used),
        is_stale(now, newer) && used > 0 ==> is_stale(now, used),
{
}

} // verus!
