//! Whole discoveries: what a run from its start to its end finds.
use crate::devscan::{
    descents, dir_marked, fate, hit_views, hits_in, is_vcs, kinds, law_artifacts_have_a_marker,
    project_of, DevChild, Discovery, HitView,
};
use crate::paths::{
    components, entry_path, is_entry_name, law_components_of_an_entry, prefix_is_complete,
    prefix_len, under, verbatim, Component, PathStyle,
};
use crate::text::{same_ascii, views};
use vstd::prelude::*;

verus! {

/// What is found in a directory: the names in it, and its entries.
pub struct Contents {
    pub names: Option<Vec<String>>,
    pub children: Seq<DevChild>,
}

/// A discovery took its next directory and was fed what is in it, as `tree`
/// gives it.
pub open spec fn discovery_step(
    style: PathStyle,
    tree: spec_fn(Seq<char>) -> Contents,
    states: Seq<Discovery>,
    taken: Seq<Discovery>,
    i: int,
) -> bool {
    let found = tree(states[i].upcoming());
    &&& states[i].taken(taken[i])
    &&& taken[i].fed(style, found.names, found.children, states[i + 1])
}

/// The states of a discovery from its start to its end; `taken` holds the states
/// between taking a directory and feeding it.
pub open spec fn is_discovery(
    style: PathStyle,
    root: Seq<char>,
    tree: spec_fn(Seq<char>) -> Contents,
    states: Seq<Discovery>,
    taken: Seq<Discovery>,
) -> bool {
    &&& states.len() == taken.len() + 1
    &&& views(states[0].todo@) == seq![root]
    &&& states[0].hits@.len() == 0
    &&& forall|i: int|
        0 <= i < taken.len() ==> #[trigger] discovery_step(style, tree, states, taken, i)
    &&& states.last().todo@.len() == 0
}

/// The first `n` directories that were read, in order.
pub open spec fn read_dirs(states: Seq<Discovery>, n: int) -> Seq<Seq<char>> {
    Seq::new(n as nat, |i: int| states[i].upcoming())
}

/// The path of each entry is that of its directory and its name, and no name
/// stands in a directory twice.
pub open spec fn well_listed(
    style: PathStyle,
    tree: spec_fn(Seq<char>) -> Contents,
    d: Seq<char>,
) -> bool {
    let v = tree(d).children;
    &&& forall|k: int|
        0 <= k < v.len() ==> components(style, (#[trigger] v[k]).path@) == components(
            style,
            d,
        ).push(Component::Normal { name: v[k].name@ })
    &&& forall|k: int, l: int|
        0 <= k < l < v.len() ==> (#[trigger] v[k]).name@ != (#[trigger] v[l]).name@
}

/// Everything that is read is well listed.
pub open spec fn well_listed_all(
    style: PathStyle,
    tree: spec_fn(Seq<char>) -> Contents,
    dirs: Seq<Seq<char>>,
) -> bool {
    forall|i: int| 0 <= i < dirs.len() ==> well_listed(style, tree, #[trigger] dirs[i])
}

/// Entries whose paths are made of the directory and their names are well
/// listed, however the directory is spelled.
pub proof fn law_entries_are_well_listed(
    style: PathStyle,
    tree: spec_fn(Seq<char>) -> Contents,
    d: Seq<char>,
)
    requires
        verbatim(style, d) ==> prefix_len(style, d) < d.len(),
        forall|k: int|
            0 <= k < tree(d).children.len() ==> {
                let c = #[trigger] tree(d).children[k];
                &&& c.path@ == entry_path(style, d, c.name@)
                &&& is_entry_name(style, d, c.name@)
                &&& c.name@ != seq!['.', '.']
                &&& prefix_is_complete(style, d, c.name@)
            },
        forall|k: int, l: int|
            0 <= k < l < tree(d).children.len() ==> (#[trigger] tree(d).children[k]).name@ != (
            #[trigger] tree(d).children[l]).name@,
    ensures
        well_listed(style, tree, d),
{
    let v = tree(d).children;
    assert forall|k: int| 0 <= k < v.len() implies components(style, (#[trigger] v[k]).path@)
        == components(style, d).push(Component::Normal { name: v[k].name@ }) by {
        assert(tree(d).children[k] == v[k]);
        law_components_of_an_entry(style, d, v[k].name@);
    }
}

// ---------------------------------------------------- places in a listing --
/// The entries to descend into, or those that are artifacts, by their places.
spec fn places(children: Seq<DevChild>, beside: Option<Vec<String>>, descend: bool) -> Seq<int>
    decreases children.len(),
{
    if children.len() == 0 {
        Seq::empty()
    } else {
        let before = places(children.drop_last(), beside, descend);
        let wanted = if descend {
            fate(children.last(), beside) is Descend
        } else {
            fate(children.last(), beside) is Artifact
        };
        if wanted {
            before.push(children.len() - 1)
        } else {
            before
        }
    }
}

/// Places ascend, and lead to entries with the fate asked for.
proof fn lemma_places(children: Seq<DevChild>, beside: Option<Vec<String>>, descend: bool)
    ensures
        forall|x: int|
            0 <= x < places(children, beside, descend).len() ==> 0 <= (#[trigger] places(
                children,
                beside,
                descend,
            )[x]) < children.len() && if descend {
                fate(children[places(children, beside, descend)[x]], beside) is Descend
            } else {
                fate(children[places(children, beside, descend)[x]], beside) is Artifact
            },
        forall|x: int, y: int|
            0 <= x < y < places(children, beside, descend).len() ==> (#[trigger] places(
                children,
                beside,
                descend,
            )[x]) < (#[trigger] places(children, beside, descend)[y]),
    decreases children.len(),
{
    if children.len() > 0 {
        let short = children.drop_last();
        lemma_places(short, beside, descend);
        let before = places(short, beside, descend);
        let now = places(children, beside, descend);
        assert forall|x: int| 0 <= x < now.len() implies 0 <= (#[trigger] now[x]) < children.len()
            && if descend {
            fate(children[now[x]], beside) is Descend
        } else {
            fate(children[now[x]], beside) is Artifact
        } by {
            if x < before.len() {
                assert(now[x] == before[x]);
                assert(children[now[x]] == short[before[x]]);
            }
        }
        assert forall|x: int, y: int| 0 <= x < y < now.len() implies (#[trigger] now[x]) < (
        #[trigger] now[y]) by {
            assert(now[x] == before[x]);
            if y < before.len() {
                assert(now[y] == before[y]);
            }
        }
    }
}

/// Every entry with the fate asked for has its place.
proof fn lemma_placed(
    children: Seq<DevChild>,
    beside: Option<Vec<String>>,
    descend: bool,
    k: int,
)
    requires
        0 <= k < children.len(),
        if descend {
            fate(children[k], beside) is Descend
        } else {
            fate(children[k], beside) is Artifact
        },
    ensures
        places(children, beside, descend).contains(k),
    decreases children.len(),
{
    let short = children.drop_last();
    let before = places(short, beside, descend);
    let now = places(children, beside, descend);
    if k == children.len() - 1 {
        assert(now[before.len() as int] == k);
    } else {
        assert(short[k] == children[k]);
        lemma_placed(short, beside, descend, k);
        let x = choose|x: int| 0 <= x < before.len() && before[x] == k;
        assert(now[x] == k);
    }
}

/// What is descended into, and what is hit, by places.
proof fn lemma_by_places(style: PathStyle, children: Seq<DevChild>, beside: Option<Vec<String>>)
    ensures
        descents(children, beside) == places(children, beside, true).map_values(
            |k: int| children[k].path@,
        ),
        hits_in(style, children, beside) == places(children, beside, false).map_values(
            |k: int| hit_of(style, children[k], beside),
        ),
    decreases children.len(),
{
    let f = |k: int| children[k].path@;
    let g = |k: int| hit_of(style, children[k], beside);
    if children.len() == 0 {
        assert(descents(children, beside) =~= places(children, beside, true).map_values(f));
        assert(hits_in(style, children, beside) =~= places(children, beside, false).map_values(g));
    } else {
        let short = children.drop_last();
        lemma_by_places(style, short, beside);
        lemma_places(short, beside, true);
        lemma_places(short, beside, false);
        let pd = places(short, beside, true);
        let ph = places(short, beside, false);
        assert forall|x: int| 0 <= x < pd.len() implies short[#[trigger] pd[x]].path@ == f(pd[x]) by {}
        assert forall|x: int| 0 <= x < ph.len() implies hit_of(style, short[#[trigger] ph[x]], beside)
            == g(ph[x]) by {}
        assert(descents(short, beside) =~= pd.map_values(f));
        assert(hits_in(style, short, beside) =~= ph.map_values(g));
        assert(descents(children, beside) =~= places(children, beside, true).map_values(f));
        assert(hits_in(style, children, beside) =~= places(children, beside, false).map_values(g));
    }
}

/// The hit that an artifact gives.
pub open spec fn hit_of(style: PathStyle, c: DevChild, beside: Option<Vec<String>>) -> HitView {
    HitView { kind: fate(c, beside)->kind, path: c.path@, project_root: project_of(style, c.path@) }
}

// -------------------------------------------------------------- invariant --
/// A path is that of an entry to descend into, in one of the directories.
pub open spec fn is_descent(
    tree: spec_fn(Seq<char>) -> Contents,
    dirs: Seq<Seq<char>>,
    path: Seq<char>,
) -> bool {
    exists|q: int, k: int|
        0 <= q < dirs.len() && 0 <= k < tree(dirs[q]).children.len() && (
        #[trigger] tree(dirs[q]).children[k]).path@ == path && fate(
            tree(dirs[q]).children[k],
            tree(dirs[q]).names,
        ) is Descend
}

/// A hit is that of an artifact in one of the directories.
pub open spec fn is_found(
    style: PathStyle,
    tree: spec_fn(Seq<char>) -> Contents,
    dirs: Seq<Seq<char>>,
    hit: HitView,
) -> bool {
    exists|q: int, k: int|
        0 <= q < dirs.len() && 0 <= k < tree(dirs[q]).children.len() && fate(
            #[trigger] tree(dirs[q]).children[k],
            tree(dirs[q]).names,
        ) is Artifact && hit == hit_of(style, tree(dirs[q]).children[k], tree(dirs[q]).names)
}

/// What holds after some directories were read: no path is on the lists twice,
/// everything came from a directory that was read, and nothing of it is missing.
spec fn inv(
    style: PathStyle,
    root: Seq<char>,
    tree: spec_fn(Seq<char>) -> Contents,
    done: Seq<Seq<char>>,
    todo: Seq<Seq<char>>,
    hits: Seq<HitView>,
) -> bool {
    let dirs = done + todo;
    &&& dirs.contains(root)
    &&& forall|a: int, b: int|
        0 <= a < b < dirs.len() ==> components(style, #[trigger] dirs[a]) != components(
            style,
            #[trigger] dirs[b],
        )
    &&& forall|a: int|
        0 <= a < dirs.len() ==> (#[trigger] dirs[a]) == root || is_descent(tree, done, dirs[a])
    &&& forall|a: int| 0 <= a < dirs.len() ==> under(style, #[trigger] dirs[a], root)
    &&& forall|h: int| 0 <= h < hits.len() ==> is_found(style, tree, done, #[trigger] hits[h])
    &&& forall|h: int, g: int|
        0 <= h < g < hits.len() ==> components(style, (#[trigger] hits[h]).path) != components(
            style,
            (#[trigger] hits[g]).path,
        )
    &&& forall|h: int, a: int|
        0 <= h < hits.len() && 0 <= a < dirs.len() ==> components(
            style,
            (#[trigger] hits[h]).path,
        ) != components(style, #[trigger] dirs[a])
    &&& forall|q: int, k: int|
        0 <= q < done.len() && 0 <= k < tree(done[q]).children.len() ==> nothing_lost(
            style,
            tree(done[q]).names,
            #[trigger] tree(done[q]).children[k],
            dirs,
            hits,
        )
}

/// An entry to descend into is among the directories, an artifact among the hits.
pub open spec fn nothing_lost(
    style: PathStyle,
    beside: Option<Vec<String>>,
    c: DevChild,
    dirs: Seq<Seq<char>>,
    hits: Seq<HitView>,
) -> bool {
    &&& fate(c, beside) is Descend ==> dirs.contains(c.path@)
    &&& fate(c, beside) is Artifact ==> hits.contains(hit_of(style, c, beside))
}

/// An entry of the next directory is on none of the lists yet.
proof fn lemma_entry_is_new(
    style: PathStyle,
    root: Seq<char>,
    tree: spec_fn(Seq<char>) -> Contents,
    done: Seq<Seq<char>>,
    todo: Seq<Seq<char>>,
    hits: Seq<HitView>,
    k: int,
)
    requires
        inv(style, root, tree, done, todo, hits),
        todo.len() > 0,
        well_listed_all(style, tree, done),
        well_listed(style, tree, todo.last()),
        0 <= k < tree(todo.last()).children.len(),
    ensures
        forall|a: int|
            0 <= a < (done + todo).len() ==> components(style, #[trigger] (done + todo)[a])
                != components(style, tree(todo.last()).children[k].path@),
        forall|h: int|
            0 <= h < hits.len() ==> components(style, (#[trigger] hits[h]).path) != components(
                style,
                tree(todo.last()).children[k].path@,
            ),
        under(style, tree(todo.last()).children[k].path@, root),
{
    let dirs = done + todo;
    let p = todo.last();
    let n = dirs.len() - 1;
    let c = tree(p).children[k];
    let e = components(style, c.path@);
    let cp = components(style, p);
    let cr = components(style, root);
    assert(dirs[n] == p);
    assert(under(style, dirs[n], root));
    assert(e == cp.push(Component::Normal { name: c.name@ }));
    assert(e.drop_last() =~= cp);
    assert(e.subrange(0, cr.len() as int) =~= cp.subrange(0, cr.len() as int));
    assert forall|a: int| 0 <= a < dirs.len() implies components(style, #[trigger] dirs[a]) != e by {
        if dirs[a] != root {
            assert(is_descent(tree, done, dirs[a]));
            let (q, l) = choose|q: int, l: int|
                0 <= q < done.len() && 0 <= l < tree(done[q]).children.len() && (
                #[trigger] tree(done[q]).children[l]).path@ == dirs[a] && fate(
                    tree(done[q]).children[l],
                    tree(done[q]).names,
                ) is Descend;
            lemma_other_parent(style, root, tree, done, todo, hits, q, l, e);
        }
    }
    assert forall|h: int| 0 <= h < hits.len() implies components(style, (#[trigger] hits[h]).path)
        != e by {
        assert(is_found(style, tree, done, hits[h]));
        let (q, l) = choose|q: int, l: int|
            0 <= q < done.len() && 0 <= l < tree(done[q]).children.len() && fate(
                #[trigger] tree(done[q]).children[l],
                tree(done[q]).names,
            ) is Artifact && hits[h] == hit_of(
                style,
                tree(done[q]).children[l],
                tree(done[q]).names,
            );
        lemma_other_parent(style, root, tree, done, todo, hits, q, l, e);
    }
}

/// An entry of a directory that was read is none of the next directory.
proof fn lemma_other_parent(
    style: PathStyle,
    root: Seq<char>,
    tree: spec_fn(Seq<char>) -> Contents,
    done: Seq<Seq<char>>,
    todo: Seq<Seq<char>>,
    hits: Seq<HitView>,
    q: int,
    l: int,
    e: Seq<Component>,
)
    requires
        inv(style, root, tree, done, todo, hits),
        todo.len() > 0,
        well_listed_all(style, tree, done),
        0 <= q < done.len(),
        0 <= l < tree(done[q]).children.len(),
        e.len() > 0,
        e.drop_last() == components(style, todo.last()),
    ensures
        components(style, tree(done[q]).children[l].path@) != e,
{
    let dirs = done + todo;
    let n = dirs.len() - 1;
    let c = tree(done[q]).children[l];
    assert(well_listed(style, tree, done[q]));
    let ce = components(style, c.path@);
    assert(ce == components(style, done[q]).push(Component::Normal { name: c.name@ }));
    assert(ce.drop_last() =~= components(style, done[q]));
    assert(dirs[q] == done[q]);
    assert(dirs[n] == todo.last());
    assert(components(style, dirs[q]) != components(style, dirs[n]));
}

/// A directory moves from one list to the other.
proof fn lemma_taken(
    style: PathStyle,
    root: Seq<char>,
    tree: spec_fn(Seq<char>) -> Contents,
    done: Seq<Seq<char>>,
    todo: Seq<Seq<char>>,
    hits: Seq<HitView>,
)
    requires
        inv(style, root, tree, done, todo, hits),
        todo.len() > 0,
    ensures
        ({
            let now = done.push(todo.last()) + todo.drop_last();
            &&& now.contains(root)
            &&& forall|a: int| 0 <= a < now.len() ==> (done + todo).contains(#[trigger] now[a])
            &&& forall|d: Seq<char>| (done + todo).contains(d) ==> #[trigger] now.contains(d)
            &&& forall|a: int, b: int|
                0 <= a < b < now.len() ==> components(style, #[trigger] now[a]) != components(
                    style,
                    #[trigger] now[b],
                )
        }),
{
    let dirs = done + todo;
    let now = done.push(todo.last()) + todo.drop_last();
    let v = done.len() as int;
    let n = dirs.len() - 1;
    assert forall|a: int| 0 <= a < now.len() implies dirs.contains(#[trigger] now[a]) by {
        if a < v {
            assert(dirs[a] == now[a]);
        } else if a == v {
            assert(dirs[n] == now[a]);
        } else {
            assert(dirs[a - 1] == now[a]);
        }
    }
    assert forall|d: Seq<char>| dirs.contains(d) implies #[trigger] now.contains(d) by {
        let a = choose|a: int| 0 <= a < dirs.len() && dirs[a] == d;
        if a < v {
            assert(now[a] == d);
        } else if a == n {
            assert(now[v] == d);
        } else {
            assert(now[a + 1] == d);
        }
    }
    assert forall|a: int, b: int| 0 <= a < b < now.len() implies components(style, #[trigger] now[a])
        != components(style, #[trigger] now[b]) by {
        let x = if a < v {
            a
        } else if a == v {
            n
        } else {
            a - 1
        };
        let y = if b < v {
            b
        } else if b == v {
            n
        } else {
            b - 1
        };
        assert(dirs[x] == now[a] && dirs[y] == now[b]);
        if x < y {
            assert(components(style, dirs[x]) != components(style, dirs[y]));
        } else {
            assert(components(style, dirs[y]) != components(style, dirs[x]));
        }
    }
}

/// One step keeps what holds.
proof fn lemma_step(
    style: PathStyle,
    root: Seq<char>,
    tree: spec_fn(Seq<char>) -> Contents,
    done: Seq<Seq<char>>,
    todo: Seq<Seq<char>>,
    hits: Seq<HitView>,
)
    requires
        inv(style, root, tree, done, todo, hits),
        todo.len() > 0,
        well_listed_all(style, tree, done),
        well_listed(style, tree, todo.last()),
    ensures
        ({
            let found = tree(todo.last());
            inv(
                style,
                root,
                tree,
                done.push(todo.last()),
                todo.drop_last() + descents(found.children, found.names),
                hits + hits_in(style, found.children, found.names),
            )
        }),
{
    let p = todo.last();
    let v = tree(p).children;
    let names = tree(p).names;
    let dirs = done + todo;
    let done2 = done.push(p);
    let base = done2 + todo.drop_last();
    let new_dirs = descents(v, names);
    let new_hits = hits_in(style, v, names);
    let todo2 = todo.drop_last() + new_dirs;
    let hits2 = hits + new_hits;
    let dirs2 = done2 + todo2;
    let pd = places(v, names, true);
    let ph = places(v, names, false);
    lemma_by_places(style, v, names);
    lemma_places(v, names, true);
    lemma_places(v, names, false);
    lemma_taken(style, root, tree, done, todo, hits);
    assert(dirs2 =~= base + new_dirs);
    let nb = base.len() as int;
    let nh = hits.len() as int;
    assert(done2[done.len() as int] == p);
    // Where everything came from.
    assert forall|q: int| 0 <= q < done.len() implies done2[q] == #[trigger] done[q] by {}
    assert forall|d: Seq<char>| is_descent(tree, done, d) implies is_descent(tree, done2, d) by {
        let (q, l) = choose|q: int, l: int|
            0 <= q < done.len() && 0 <= l < tree(done[q]).children.len() && (
            #[trigger] tree(done[q]).children[l]).path@ == d && fate(
                tree(done[q]).children[l],
                tree(done[q]).names,
            ) is Descend;
        assert(tree(done2[q]).children[l].path@ == d);
    }
    assert forall|x: int| 0 <= x < pd.len() implies is_descent(
        tree,
        done2,
        v[#[trigger] pd[x]].path@,
    ) by {
        assert(tree(done2[done.len() as int]).children[pd[x]].path@ == v[pd[x]].path@);
    }
    assert forall|a: int| 0 <= a < dirs2.len() implies ((#[trigger] dirs2[a]) == root
        || is_descent(tree, done2, dirs2[a])) && under(style, dirs2[a], root) by {
        if a < nb {
            assert(dirs2[a] == base[a]);
            assert(dirs.contains(base[a]));
            let b = choose|b: int| 0 <= b < dirs.len() && dirs[b] == base[a];
            assert(dirs[b] == root || is_descent(tree, done, dirs[b]));
            assert(under(style, dirs[b], root));
        } else {
            let x = a - nb;
            assert(dirs2[a] == v[pd[x]].path@);
            lemma_entry_is_new(style, root, tree, done, todo, hits, pd[x]);
        }
    }
    assert forall|h: int| 0 <= h < hits2.len() implies is_found(
        style,
        tree,
        done2,
        #[trigger] hits2[h],
    ) by {
        if h < nh {
            assert(hits2[h] == hits[h]);
            assert(is_found(style, tree, done, hits[h]));
            let (q, l) = choose|q: int, l: int|
                0 <= q < done.len() && 0 <= l < tree(done[q]).children.len() && fate(
                    #[trigger] tree(done[q]).children[l],
                    tree(done[q]).names,
                ) is Artifact && hits[h] == hit_of(
                    style,
                    tree(done[q]).children[l],
                    tree(done[q]).names,
                );
            assert(fate(tree(done2[q]).children[l], tree(done2[q]).names) is Artifact);
        } else {
            let x = h - nh;
            assert(hits2[h] == hit_of(style, v[ph[x]], names));
            assert(fate(
                tree(done2[done.len() as int]).children[ph[x]],
                tree(done2[done.len() as int]).names,
            ) is Artifact);
        }
    }
    // Nothing stands twice.
    assert forall|a: int, b: int| 0 <= a < b < dirs2.len() implies components(
        style,
        #[trigger] dirs2[a],
    ) != components(style, #[trigger] dirs2[b]) by {
        if b < nb {
            assert(dirs2[a] == base[a] && dirs2[b] == base[b]);
        } else {
            let y = b - nb;
            assert(dirs2[b] == v[pd[y]].path@);
            lemma_entry_is_new(style, root, tree, done, todo, hits, pd[y]);
            if a < nb {
                assert(dirs2[a] == base[a]);
                let c = choose|c: int| 0 <= c < dirs.len() && dirs[c] == base[a];
                assert(components(style, dirs[c]) != components(style, v[pd[y]].path@));
            } else {
                let x = a - nb;
                assert(dirs2[a] == v[pd[x]].path@);
                lemma_siblings(style, tree, p, pd[x], pd[y]);
            }
        }
    }
    assert forall|h: int, g: int| 0 <= h < g < hits2.len() implies components(
        style,
        (#[trigger] hits2[h]).path,
    ) != components(style, (#[trigger] hits2[g]).path) by {
        if g < nh {
            assert(hits2[h] == hits[h] && hits2[g] == hits[g]);
        } else {
            let y = g - nh;
            assert(hits2[g].path == v[ph[y]].path@);
            lemma_entry_is_new(style, root, tree, done, todo, hits, ph[y]);
            if h < nh {
                assert(hits2[h] == hits[h]);
            } else {
                let x = h - nh;
                assert(hits2[h].path == v[ph[x]].path@);
                lemma_siblings(style, tree, p, ph[x], ph[y]);
            }
        }
    }
    assert forall|h: int, a: int| 0 <= h < hits2.len() && 0 <= a < dirs2.len() implies components(
        style,
        (#[trigger] hits2[h]).path,
    ) != components(style, #[trigger] dirs2[a]) by {
        if h < nh {
            assert(hits2[h] == hits[h]);
            if a < nb {
                assert(dirs2[a] == base[a]);
                let c = choose|c: int| 0 <= c < dirs.len() && dirs[c] == base[a];
                assert(components(style, hits[h].path) != components(style, dirs[c]));
            } else {
                let y = a - nb;
                assert(dirs2[a] == v[pd[y]].path@);
                lemma_entry_is_new(style, root, tree, done, todo, hits, pd[y]);
            }
        } else {
            let x = h - nh;
            assert(hits2[h].path == v[ph[x]].path@);
            lemma_entry_is_new(style, root, tree, done, todo, hits, ph[x]);
            if a < nb {
                assert(dirs2[a] == base[a]);
                let c = choose|c: int| 0 <= c < dirs.len() && dirs[c] == base[a];
                assert(components(style, dirs[c]) != components(style, v[ph[x]].path@));
            } else {
                let y = a - nb;
                assert(dirs2[a] == v[pd[y]].path@);
                lemma_siblings(style, tree, p, ph[x], pd[y]);
            }
        }
    }
    // Nothing is lost.
    assert(dirs2.contains(root)) by {
        let a = choose|a: int| 0 <= a < base.len() && base[a] == root;
        assert(dirs2[a] == root);
    }
    assert forall|q: int, k: int|
        0 <= q < done2.len() && 0 <= k < tree(done2[q]).children.len() implies nothing_lost(
        style,
        tree(done2[q]).names,
        #[trigger] tree(done2[q]).children[k],
        dirs2,
        hits2,
    ) by {
        let c = tree(done2[q]).children[k];
        let beside = tree(done2[q]).names;
        if q < done.len() {
            assert(nothing_lost(style, tree(done[q]).names, tree(done[q]).children[k], dirs, hits));
            if fate(c, beside) is Descend {
                assert(base.contains(c.path@));
                let a = choose|a: int| 0 <= a < base.len() && base[a] == c.path@;
                assert(dirs2[a] == c.path@);
            }
            if fate(c, beside) is Artifact {
                let h = choose|h: int| 0 <= h < hits.len() && hits[h] == hit_of(style, c, beside);
                assert(hits2[h] == hits[h]);
            }
        } else {
            if fate(c, beside) is Descend {
                lemma_placed(v, names, true, k);
                let x = choose|x: int| 0 <= x < pd.len() && pd[x] == k;
                assert(dirs2[nb + x] == c.path@);
            }
            if fate(c, beside) is Artifact {
                lemma_placed(v, names, false, k);
                let x = choose|x: int| 0 <= x < ph.len() && ph[x] == k;
                assert(hits2[nh + x] == hit_of(style, c, beside));
            }
        }
    }
}

/// Two entries of one directory have different paths.
proof fn lemma_siblings(
    style: PathStyle,
    tree: spec_fn(Seq<char>) -> Contents,
    d: Seq<char>,
    k: int,
    l: int,
)
    requires
        well_listed(style, tree, d),
        0 <= k < tree(d).children.len(),
        0 <= l < tree(d).children.len(),
        k != l,
    ensures
        components(style, tree(d).children[k].path@) != components(
            style,
            tree(d).children[l].path@,
        ),
{
    let v = tree(d).children;
    let a = components(style, v[k].path@);
    let b = components(style, v[l].path@);
    assert(a.last() == Component::Normal { name: v[k].name@ });
    assert(b.last() == Component::Normal { name: v[l].name@ });
    if k < l {
        assert(v[k].name@ != v[l].name@);
    } else {
        assert(v[l].name@ != v[k].name@);
    }
}

proof fn lemma_run(
    style: PathStyle,
    root: Seq<char>,
    tree: spec_fn(Seq<char>) -> Contents,
    states: Seq<Discovery>,
    taken: Seq<Discovery>,
    n: int,
)
    requires
        is_discovery(style, root, tree, states, taken),
        well_listed_all(style, tree, read_dirs(states, taken.len() as int)),
        0 <= n <= taken.len(),
    ensures
        inv(
            style,
            root,
            tree,
            read_dirs(states, n),
            views(states[n].todo@),
            hit_views(states[n].hits@),
        ),
    decreases n,
{
    let done = read_dirs(states, n);
    if n == 0 {
        let dirs = done + views(states[0].todo@);
        assert(dirs =~= seq![root]);
        assert(dirs[0] == root);
        let c = components(style, root);
        assert(c.subrange(0, c.len() as int) =~= c);
    } else {
        let m = n - 1;
        lemma_run(style, root, tree, states, taken, m);
        assert(discovery_step(style, tree, states, taken, m));
        let before = read_dirs(states, m);
        let todo = views(states[m].todo@);
        let all = read_dirs(states, taken.len() as int);
        assert forall|i: int| 0 <= i < before.len() implies well_listed(
            style,
            tree,
            #[trigger] before[i],
        ) by {
            assert(all[i] == before[i]);
        }
        assert(todo.last() == states[m].upcoming());
        assert(all[m] == todo.last());
        assert(well_listed(style, tree, all[m]));
        lemma_step(style, root, tree, before, todo, hit_views(states[m].hits@));
        assert(done =~= before.push(todo.last()));
        assert(views(taken[m].todo@) =~= todo.drop_last());
    }
}

// ------------------------------------------------------------------- laws --
/// The marker of its kind is in the artifact, or beside it.
pub open spec fn has_marker(c: DevChild, beside: Option<Vec<String>>, kind: int) -> bool {
    let k = kinds()[kind];
    &&& 0 <= kind < kinds().len()
    &&& k.detect is SelfMarker ==> dir_marked(c.names, k.markers)
    &&& k.detect is SiblingMarker ==> same_ascii(c.name@, k.dir_name) && dir_marked(
        beside,
        k.markers,
    )
}

/// Every hit of a whole discovery is a directory that was seen in one that was
/// read, and a project marker proves that it is an artifact.
pub proof fn law_discovered_artifacts_have_a_marker(
    style: PathStyle,
    root: Seq<char>,
    tree: spec_fn(Seq<char>) -> Contents,
    states: Seq<Discovery>,
    taken: Seq<Discovery>,
    h: int,
)
    requires
        is_discovery(style, root, tree, states, taken),
        well_listed_all(style, tree, read_dirs(states, taken.len() as int)),
        0 <= h < states.last().hits@.len(),
    ensures
        ({
            let dirs = read_dirs(states, taken.len() as int);
            let hit = states.last().hits@[h]@;
            exists|q: int, k: int|
                0 <= q < dirs.len() && 0 <= k < tree(dirs[q]).children.len() && has_marker(
                    #[trigger] tree(dirs[q]).children[k],
                    tree(dirs[q]).names,
                    hit.kind,
                ) && hit == hit_of(style, tree(dirs[q]).children[k], tree(dirs[q]).names)
        }),
{
    let n = taken.len() as int;
    let dirs = read_dirs(states, n);
    let hits = hit_views(states[n].hits@);
    lemma_run(style, root, tree, states, taken, n);
    assert(hits[h] == states.last().hits@[h]@);
    assert(is_found(style, tree, dirs, hits[h]));
    let (q, k) = choose|q: int, k: int|
        0 <= q < dirs.len() && 0 <= k < tree(dirs[q]).children.len() && fate(
            #[trigger] tree(dirs[q]).children[k],
            tree(dirs[q]).names,
        ) is Artifact && hits[h] == hit_of(style, tree(dirs[q]).children[k], tree(dirs[q]).names);
    law_artifacts_have_a_marker(tree(dirs[q]).children[k], tree(dirs[q]).names);
    assert(has_marker(tree(dirs[q]).children[k], tree(dirs[q]).names, hits[h].kind));
}

/// Every directory between the root and a directory that was read was read too,
/// and none of them is one of version control.
proof fn lemma_way_down(
    style: PathStyle,
    root: Seq<char>,
    tree: spec_fn(Seq<char>) -> Contents,
    done: Seq<Seq<char>>,
    hits: Seq<HitView>,
    a: int,
    n: int,
)
    requires
        inv(style, root, tree, done, Seq::empty(), hits),
        well_listed_all(style, tree, done),
        0 <= a < done.len(),
        components(style, root).len() <= n <= components(style, done[a]).len(),
    ensures
        exists|b: int|
            0 <= b < done.len() && components(style, #[trigger] done[b]) == components(
                style,
                done[a],
            ).take(n),
        n < components(style, done[a]).len() ==> is_ordinary(components(style, done[a])[n]),
    decreases components(style, done[a]).len(),
{
    let ca = components(style, done[a]);
    assert(done + Seq::<Seq<char>>::empty() =~= done);
    if n == ca.len() {
        assert(ca.take(n) =~= ca);
    } else {
        assert(done[a] == root || is_descent(tree, done, done[a]));
        let (q, k) = choose|q: int, k: int|
            0 <= q < done.len() && 0 <= k < tree(done[q]).children.len() && (
            #[trigger] tree(done[q]).children[k]).path@ == done[a] && fate(
                tree(done[q]).children[k],
                tree(done[q]).names,
            ) is Descend;
        assert(well_listed(style, tree, done[q]));
        let c = tree(done[q]).children[k];
        let cq = components(style, done[q]);
        assert(ca == cq.push(Component::Normal { name: c.name@ }));
        lemma_way_down(style, root, tree, done, hits, q, n);
        assert(ca.take(n) =~= cq.take(n));
        if n < cq.len() {
            assert(ca[n] == cq[n]);
        }
    }
}

/// A name that is not one of a version control directory.
pub open spec fn is_ordinary(c: Component) -> bool {
    c matches Component::Normal { name } && !is_vcs(name)
}

/// The way down to a hit.
proof fn lemma_way_to_hit(
    style: PathStyle,
    root: Seq<char>,
    tree: spec_fn(Seq<char>) -> Contents,
    done: Seq<Seq<char>>,
    hits: Seq<HitView>,
    h: int,
    n: int,
)
    requires
        inv(style, root, tree, done, Seq::empty(), hits),
        well_listed_all(style, tree, done),
        0 <= h < hits.len(),
        components(style, root).len() <= n < components(style, hits[h].path).len(),
    ensures
        exists|b: int|
            0 <= b < done.len() && components(style, #[trigger] done[b]) == components(
                style,
                hits[h].path,
            ).take(n),
        is_ordinary(components(style, hits[h].path)[n]),
        under(style, hits[h].path, root),
{
    assert(done + Seq::<Seq<char>>::empty() =~= done);
    assert(is_found(style, tree, done, hits[h]));
    let (q, k) = choose|q: int, k: int|
        0 <= q < done.len() && 0 <= k < tree(done[q]).children.len() && fate(
            #[trigger] tree(done[q]).children[k],
            tree(done[q]).names,
        ) is Artifact && hits[h] == hit_of(style, tree(done[q]).children[k], tree(done[q]).names);
    assert(well_listed(style, tree, done[q]));
    let c = tree(done[q]).children[k];
    let ch = components(style, c.path@);
    let cq = components(style, done[q]);
    let cr = components(style, root);
    assert(ch == cq.push(Component::Normal { name: c.name@ }));
    assert(under(style, done[q], root));
    assert(ch.subrange(0, cr.len() as int) =~= cq.subrange(0, cr.len() as int));
    lemma_way_down(style, root, tree, done, hits, q, n);
    assert(ch.take(n) =~= cq.take(n));
    if n < cq.len() {
        assert(ch[n] == cq[n]);
    }
}

/// No hit of a whole discovery is at or inside another one: none is listed
/// twice, and none lies in an artifact.
pub proof fn law_discovered_artifacts_lie_apart(
    style: PathStyle,
    root: Seq<char>,
    tree: spec_fn(Seq<char>) -> Contents,
    states: Seq<Discovery>,
    taken: Seq<Discovery>,
    g: int,
    h: int,
)
    requires
        is_discovery(style, root, tree, states, taken),
        well_listed_all(style, tree, read_dirs(states, taken.len() as int)),
        0 <= g < states.last().hits@.len(),
        0 <= h < states.last().hits@.len(),
        g != h,
    ensures
        !under(style, states.last().hits@[h].path@, states.last().hits@[g].path@),
{
    let n = taken.len() as int;
    let done = read_dirs(states, n);
    let hits = hit_views(states[n].hits@);
    lemma_run(style, root, tree, states, taken, n);
    assert(views(states[n].todo@) =~= Seq::empty());
    assert(done + Seq::<Seq<char>>::empty() =~= done);
    let a = components(style, hits[g].path);
    let b = components(style, hits[h].path);
    assert(hits[g] == states.last().hits@[g]@ && hits[h] == states.last().hits@[h]@);
    if a.is_prefix_of(b) {
        assert(b.subrange(0, a.len() as int) == a);
        if a.len() == b.len() {
            assert(b.subrange(0, a.len() as int) =~= b);
            if g < h {
                assert(components(style, hits[g].path) != components(style, hits[h].path));
            } else {
                assert(components(style, hits[h].path) != components(style, hits[g].path));
            }
        } else {
            lemma_hit_below_root(style, root, tree, done, hits, g);
            lemma_way_to_hit(style, root, tree, done, hits, h, a.len() as int);
            let d = choose|d: int|
                0 <= d < done.len() && components(style, #[trigger] done[d]) == b.take(
                    a.len() as int,
                );
            assert(b.take(a.len() as int) =~= a);
            assert(components(style, hits[g].path) != components(style, done[d]));
        }
    }
}

proof fn lemma_hit_below_root(
    style: PathStyle,
    root: Seq<char>,
    tree: spec_fn(Seq<char>) -> Contents,
    done: Seq<Seq<char>>,
    hits: Seq<HitView>,
    h: int,
)
    requires
        inv(style, root, tree, done, Seq::empty(), hits),
        well_listed_all(style, tree, done),
        0 <= h < hits.len(),
    ensures
        components(style, root).len() < components(style, hits[h].path).len(),
{
    assert(done + Seq::<Seq<char>>::empty() =~= done);
    assert(is_found(style, tree, done, hits[h]));
    let (q, k) = choose|q: int, k: int|
        0 <= q < done.len() && 0 <= k < tree(done[q]).children.len() && fate(
            #[trigger] tree(done[q]).children[k],
            tree(done[q]).names,
        ) is Artifact && hits[h] == hit_of(style, tree(done[q]).children[k], tree(done[q]).names);
    assert(well_listed(style, tree, done[q]));
    assert(under(style, done[q], root));
}

/// No hit of a whole discovery lies in or is a version control directory: every
/// name on the way from the root to it is an ordinary one.
pub proof fn law_discovery_avoids_version_control(
    style: PathStyle,
    root: Seq<char>,
    tree: spec_fn(Seq<char>) -> Contents,
    states: Seq<Discovery>,
    taken: Seq<Discovery>,
    h: int,
    n: int,
)
    requires
        is_discovery(style, root, tree, states, taken),
        well_listed_all(style, tree, read_dirs(states, taken.len() as int)),
        0 <= h < states.last().hits@.len(),
        components(style, root).len() <= n < components(
            style,
            states.last().hits@[h].path@,
        ).len(),
    ensures
        under(style, states.last().hits@[h].path@, root),
        is_ordinary(components(style, states.last().hits@[h].path@)[n]),
{
    let l = taken.len() as int;
    let done = read_dirs(states, l);
    let hits = hit_views(states[l].hits@);
    lemma_run(style, root, tree, states, taken, l);
    assert(views(states[l].todo@) =~= Seq::empty());
    assert(hits[h] == states.last().hits@[h]@);
    lemma_way_to_hit(style, root, tree, done, hits, h, n);
}

/// A whole discovery misses nothing: the root is read, and of every directory
/// that is read each artifact is hit and each plain directory is read.
pub proof fn law_discovery_misses_nothing(
    style: PathStyle,
    root: Seq<char>,
    tree: spec_fn(Seq<char>) -> Contents,
    states: Seq<Discovery>,
    taken: Seq<Discovery>,
    q: int,
    k: int,
)
    requires
        is_discovery(style, root, tree, states, taken),
        well_listed_all(style, tree, read_dirs(states, taken.len() as int)),
        0 <= q < taken.len(),
        0 <= k < tree(read_dirs(states, taken.len() as int)[q]).children.len(),
    ensures
        ({
            let dirs = read_dirs(states, taken.len() as int);
            &&& dirs.contains(root)
            &&& nothing_lost(
                style,
                tree(dirs[q]).names,
                tree(dirs[q]).children[k],
                dirs,
                hit_views(states.last().hits@),
            )
        }),
{
    let n = taken.len() as int;
    let done = read_dirs(states, n);
    lemma_run(style, root, tree, states, taken, n);
    assert(views(states[n].todo@) =~= Seq::empty());
    assert(done + Seq::<Seq<char>>::empty() =~= done);
}

} // verus!
