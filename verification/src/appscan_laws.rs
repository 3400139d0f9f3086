//! When an installed app is listed, how it is shown and why it is flagged.
use crate::appscan::{
    app_flags, app_key, app_keys, app_sorted, bundle_name, bundled, bundleware_patterns, counts_as,
    deduped, is_program, iso_date, names_update, newest, program_app, program_apps, same_product,
    windows_list, AppOrder, BundleEntry, FoundProgram, InstalledApp, TimedFile, UninstallEntry,
};
use crate::order::{key_lt, law_sorted_copy_is_ascending};
use crate::paths::name_extension;
use crate::startup::has_any;
use crate::text::{has, is_digit, is_white, lex_lt, lowercase, same_ascii, trimmed};
use crate::text_laws::law_trimming_takes_the_white_off;
use vstd::prelude::*;
use vstd::utf8::encode_utf8;

verus! {

// -------------------------------------------------------------------- flags --
proof fn lemma_flag_names()
    ensures
        "unused"@ != "old"@,
        "unused"@ != "bundleware"@,
        "old"@ != "bundleware"@,
{
    reveal_strlit("unused");
    reveal_strlit("old");
    reveal_strlit("bundleware");
    assert("unused"@.len() == 6 && "old"@.len() == 3 && "bundleware"@.len() == 10);
}

/// An app is flagged as unused where it was last used more than 180 whole days
/// ago; as old where it was installed more than 365 whole days ago and was, as far
/// as known, not used in the last 90; and as bundleware where it is that. Nothing
/// else is flagged, and no flag is given twice.
pub proof fn law_when_an_app_is_flagged(
    now: i64,
    install: Option<i64>,
    used: Option<i64>,
    bundleware: bool,
)
    ensures
        ({
            let f = app_flags(now, install, used, bundleware);
            let day = 24 * 60 * 60;
            &&& f.contains("unused"@) <==> (used matches Some(t) && now - t >= 181 * day)
            &&& f.contains("old"@) <==> (install matches Some(t) && now - t >= 366 * day && (
            used matches Some(u) ==> now - u >= 91 * day))
            &&& f.contains("bundleware"@) <==> bundleware
            &&& f.no_duplicates()
            &&& f.len() <= 3
        }),
{
    lemma_flag_names();
    let f = app_flags(now, install, used, bundleware);
    let u = used matches Some(t) && now - t >= 181 * 86_400;
    let o = install matches Some(t) && now - t >= 366 * 86_400 && (used matches Some(u)
        ==> now - u >= 91 * 86_400);
    let a: Seq<Seq<char>> = if u {
        seq!["unused"@]
    } else {
        Seq::empty()
    };
    let b: Seq<Seq<char>> = if o {
        seq!["old"@]
    } else {
        Seq::empty()
    };
    let c: Seq<Seq<char>> = if bundleware {
        seq!["bundleware"@]
    } else {
        Seq::empty()
    };
    assert(f == a + b + c);
    if u {
        assert(f[0] == "unused"@);
    }
    if o {
        assert(f[a.len() as int] == "old"@);
    }
    if bundleware {
        assert(f[(a + b).len() as int] == "bundleware"@);
    }
    assert forall|i: int| 0 <= i < f.len() implies {
        ||| u && #[trigger] f[i] == "unused"@
        ||| o && f[i] == "old"@
        ||| bundleware && f[i] == "bundleware"@
    } by {
        if i < a.len() {
            assert(f[i] == a[i]);
        } else if i < a.len() + b.len() {
            assert(f[i] == b[i - a.len()]);
        } else {
            assert(f[i] == c[i - a.len() - b.len()]);
        }
    }
}

/// An app is bundleware if its name and publisher, in lower case, hold one of the
/// words for it.
pub proof fn law_which_apps_are_bundleware(name: Seq<char>, publisher: Seq<char>)
    ensures
        ({
            let hay = lowercase(name + " "@ + publisher);
            bundled(name, publisher) <==> {
                ||| has(hay, "2345"@)
                ||| has(hay, "hao123"@)
                ||| has(hay, "toolbar"@)
                ||| has(hay, "webadvisor"@)
                ||| has(hay, "web companion"@)
                ||| has(hay, "search protect"@)
                ||| has(hay, "wildtangent"@)
                ||| has(hay, "pc app store"@)
                ||| has(hay, "mcafee security scan"@)
                ||| has(hay, "driver updater"@)
            }
        }),
{
    let hay = lowercase(name + " "@ + publisher);
    let w = bundleware_patterns();
    assert(w.len() == 10);
    assert(w[0] == "2345"@ && w[1] == "hao123"@ && w[2] == "toolbar"@ && w[3] == "webadvisor"@
        && w[4] == "web companion"@ && w[5] == "search protect"@ && w[6] == "wildtangent"@ && w[7]
        == "pc app store"@ && w[8] == "mcafee security scan"@ && w[9] == "driver updater"@);
    if has_any(hay, w) {
        let i = choose|i: int| 0 <= i < w.len() && has(hay, #[trigger] w[i]);
        assert(0 <= i < 10);
    }
}

// ------------------------------------------------------------------ updates --
/// A name of the letters KB and a number of four digits or more is an update, and
/// so is what starts like one; a name that starts like none of them is not.
pub proof fn law_which_names_are_updates(n: Seq<char>, lower: Seq<char>)
    ensures
        n.len() >= 6 && n[0] == 'K' && n[1] == 'B' && (forall|i: int|
            2 <= i < n.len() ==> '0' <= #[trigger] n[i] <= '9') ==> names_update(n, lower),
        "update for "@.is_prefix_of(lower) ==> names_update(n, lower),
        "security update for "@.is_prefix_of(lower) ==> names_update(n, lower),
        "hotfix for "@.is_prefix_of(lower) ==> names_update(n, lower),
        n.len() > 0 && n[0] != 'K' && !"update for "@.is_prefix_of(lower)
            && !"security update for "@.is_prefix_of(lower) && !"hotfix for "@.is_prefix_of(lower)
            ==> !names_update(n, lower),
        n.len() > 2 && !('0' <= n[2] <= '9') && !"update for "@.is_prefix_of(lower)
            && !"security update for "@.is_prefix_of(lower) && !"hotfix for "@.is_prefix_of(lower)
            ==> !names_update(n, lower),
{
    reveal_strlit("KB");
    let kb = "KB"@;
    if n.len() >= 6 && n[0] == 'K' && n[1] == 'B' && (forall|i: int|
        2 <= i < n.len() ==> '0' <= #[trigger] n[i] <= '9') {
        assert(n.subrange(0, 2) =~= kb);
        lemma_utf8_is_no_shorter(n);
        assert forall|i: int| 2 <= i < n.len() && i < 6 implies is_digit(#[trigger] n[i]) by {}
    }
    if kb.is_prefix_of(n) {
        assert(n.subrange(0, 2)[0] == kb[0]);
    }
    if n.len() > 2 && !('0' <= n[2] <= '9') {
        assert(!is_digit(n[2]));
    }
}

proof fn lemma_utf8_is_no_shorter(s: Seq<char>)
    ensures
        encode_utf8(s).len() >= s.len(),
    decreases s.len(),
{
    reveal_with_fuel(encode_utf8, 2);
    if s.len() > 0 {
        lemma_utf8_is_no_shorter(s.drop_first());
    }
}

// -------------------------------------------------------------------- dates --
/// Eight digits are the year, the month and the day; they are shown with dashes
/// between them, and white around them does not count. Anything else is no date.
pub proof fn law_dates_are_eight_digits(
    front: Seq<char>,
    y: Seq<char>,
    m: Seq<char>,
    d: Seq<char>,
    back: Seq<char>,
)
    requires
        crate::text_laws::all_white(front),
        crate::text_laws::all_white(back),
        y.len() == 4,
        m.len() == 2,
        d.len() == 2,
        forall|i: int| 0 <= i < 4 ==> '0' <= #[trigger] y[i] <= '9',
        forall|i: int| 0 <= i < 2 ==> '0' <= #[trigger] m[i] <= '9',
        forall|i: int| 0 <= i < 2 ==> '0' <= #[trigger] d[i] <= '9',
    ensures
        iso_date(front + (y + m + d) + back) == Some(y + seq!['-'] + m + seq!['-'] + d),
{
    let s = y + m + d;
    assert forall|i: int| 0 <= i < 8 implies is_digit(#[trigger] s[i]) && !is_white(s[i]) by {
        if i < 4 {
            assert(s[i] == y[i]);
        } else if i < 6 {
            assert(s[i] == m[i - 4]);
        } else {
            assert(s[i] == d[i - 6]);
        }
    }
    assert(s.last() == s[7]);
    law_trimming_takes_the_white_off(front, s, back);
    assert(s.subrange(0, 4) =~= y);
    assert(s.subrange(4, 6) =~= m);
    assert(s.subrange(6, 8) =~= d);
}

/// A date with any other number of characters, or with one that is no digit, is
/// not taken.
pub proof fn law_other_dates_are_not_taken(raw: Seq<char>, i: int)
    ensures
        trimmed(raw).len() != 8 ==> iso_date(raw) is None,
        0 <= i < 8 && !('0' <= trimmed(raw)[i] <= '9') ==> iso_date(raw) is None,
{
    if 0 <= i < 8 && !('0' <= trimmed(raw)[i] <= '9') {
        assert(!is_digit(trimmed(raw)[i]));
    }
}

// -------------------------------------------------------------------- times --
/// Only files count, and of those only the ones with the extension, in whatever
/// case, where one is given.
pub proof fn law_which_files_count(f: TimedFile, ext: Seq<char>)
    ensures
        !f.is_file ==> !counts_as(f, ext),
        f.is_file && ext.len() == 0 ==> counts_as(f, ext),
        f.is_file && ext.len() > 0 ==> (counts_as(f, ext) <==> (name_extension(f.name@) matches Some(
            e,
        ) && same_ascii(e, ext))),
{
}

/// The newest time is that of a file that counts, its access or its change, and
/// none of them is newer; it is unknown only where all of them are.
pub proof fn law_the_newest_time_is_the_newest(v: Seq<TimedFile>, ext: Seq<char>, i: int)
    requires
        0 <= i < v.len(),
        counts_as(v[i], ext),
    ensures
        v[i].accessed matches Some(t) ==> (newest(v, ext) matches Some(n) && t <= n),
        v[i].modified matches Some(t) ==> (newest(v, ext) matches Some(n) && t <= n),
    decreases v.len(),
{
    if i < v.len() - 1 {
        assert(v.drop_last()[i] == v[i]);
        law_the_newest_time_is_the_newest(v.drop_last(), ext, i);
    }
}

/// The file has this time.
pub open spec fn has_time(f: TimedFile, t: i64) -> bool {
    f.accessed == Some(t) || f.modified == Some(t)
}

/// The newest time was read off one of the files that count.
pub proof fn law_the_newest_time_is_of_a_file(v: Seq<TimedFile>, ext: Seq<char>)
    ensures
        newest(v, ext) matches Some(t) ==> exists|i: int|
            0 <= i < v.len() && counts_as(#[trigger] v[i], ext) && has_time(v[i], t),
    decreases v.len(),
{
    if v.len() > 0 {
        let front = v.drop_last();
        law_the_newest_time_is_of_a_file(front, ext);
        match newest(v, ext) {
            Some(t) => {
                if newest(front, ext) == Some(t) {
                    let i = choose|i: int|
                        0 <= i < front.len() && counts_as(#[trigger] front[i], ext) && has_time(
                            front[i],
                            t,
                        );
                    assert(v[i] == front[i]);
                } else {
                    assert(has_time(v[v.len() - 1], t));
                }
            },
            None => {},
        }
    }
}

// ------------------------------------------------------------------ listing --
/// An entry of the registry is an application if it has a name that is not that of
/// an update, is no part of the system or of another entry, and can be
/// uninstalled.
pub proof fn law_which_entries_are_applications(e: UninstallEntry)
    ensures
        trimmed(e.name@).len() == 0 ==> !is_program(e),
        e.system_component == 1 ==> !is_program(e),
        trimmed(e.parent@).len() > 0 ==> !is_program(e),
        trimmed(e.uninstall@).len() == 0 ==> !is_program(e),
        trimmed(e.name@).len() > 0 && e.system_component != 1 && trimmed(e.parent@).len() == 0
            && trimmed(e.uninstall@).len() > 0 && !names_update(
            trimmed(trimmed(e.name@)),
            lowercase(trimmed(trimmed(e.name@))),
        ) ==> is_program(e),
{
}

/// An application is shown with its name without white around it, its own version
/// and publisher, 1024 bytes for each kilobyte of its size, and the command that
/// uninstalls it.
pub proof fn law_an_application_is_shown_as_recorded(
    now: i64,
    e: UninstallEntry,
    files: Option<Vec<TimedFile>>,
)
    ensures
        ({
            let a = program_app(now, e, files);
            &&& a.name == trimmed(e.name@)
            &&& a.version == e.version@
            &&& a.publisher == e.publisher@
            &&& a.location == trimmed(e.location@)
            &&& a.size_bytes == 1024 * e.size_kb
            &&& a.uninstall == Some(trimmed(e.uninstall@))
            &&& a.bundle is None
            &&& trimmed(e.location@).len() == 0 || files is None ==> a.last_used_unix == 0
        }),
{
}

/// Every application that was found is among the apps.
pub proof fn law_every_application_is_taken(now: i64, found: Seq<FoundProgram>, i: int)
    requires
        0 <= i < found.len(),
        is_program(found[i].entry),
    ensures
        program_apps(now, found).contains(program_app(now, found[i].entry, found[i].files)),
    decreases found.len(),
{
    let all = program_apps(now, found);
    let front = found.drop_last();
    let before = program_apps(now, front);
    let a = program_app(now, found[i].entry, found[i].files);
    if i < front.len() {
        assert(front[i] == found[i]);
        law_every_application_is_taken(now, front, i);
        let k = choose|k: int| 0 <= k < before.len() && before[k] == a;
        assert(all[k] == a);
    } else {
        assert(all[before.len() as int] == a);
    }
}

/// One of the apps has the same name, but for case, and the same version.
pub open spec fn lists_product(v: Seq<InstalledApp>, a: InstalledApp) -> bool {
    exists|k: int|
        0 <= k < v.len() && same_ascii(a.name@, (#[trigger] v[k]).name@) && a.version@
            == v[k].version@
}

proof fn lemma_product_stays(v: Seq<InstalledApp>, i: int)
    requires
        0 <= i < v.len(),
    ensures
        lists_product(deduped(v), v[i]),
        forall|a: InstalledApp| #[trigger] deduped(v).contains(a) ==> v.contains(a),
    decreases v.len(),
{
    let front = v.drop_last();
    let before = deduped(front);
    let out = deduped(v);
    if front.len() > 0 {
        lemma_product_stays(
            front,
            if i < front.len() {
                i
            } else {
                0
            },
        );
    }
    if i < front.len() {
        assert(front[i] == v[i]);
        let k = choose|k: int|
            0 <= k < before.len() && same_ascii(v[i].name@, (#[trigger] before[k]).name@)
                && v[i].version@ == before[k].version@;
        assert(out[k] == before[k]);
    } else if before.len() > 0 && same_product(v.last(), before.last()) {
        assert(same_product(v[i], out[before.len() - 1]));
    } else {
        assert(out[before.len() as int] == v[i]);
        assert(same_product(v[i], out[before.len() as int]));
    }
    assert forall|a: InstalledApp| #[trigger] out.contains(a) implies v.contains(a) by {
        let k = choose|k: int| 0 <= k < out.len() && out[k] == a;
        if k < before.len() {
            assert(before[k] == a);
            assert(before.contains(a));
            assert(front.contains(a));
            let j = choose|j: int| 0 <= j < front.len() && front[j] == a;
            assert(v[j] == a);
        } else {
            assert(v[v.len() - 1] == a);
        }
    }
}

/// No product is lost when doubles are taken out: of every app that was found one
/// with the same name, but for case, and the same version is listed; and nothing
/// is listed that was not found.
pub proof fn law_every_product_stays_listed(raw: Seq<InstalledApp>, out: Seq<InstalledApp>, i: int)
    requires
        windows_list(raw, out),
        0 <= i < raw.len(),
    ensures
        lists_product(out, raw[i]),
        forall|a: InstalledApp| #[trigger] out.contains(a) ==> raw.contains(a),
{
    let (a, b, c, d) = choose|
        a: Seq<InstalledApp>,
        b: Seq<InstalledApp>,
        c: Seq<InstalledApp>,
        d: Seq<InstalledApp>,
    | #[trigger]
        app_sorted(AppOrder::Location, raw, a) && #[trigger] app_sorted(AppOrder::Size, a, b)
            && #[trigger] app_sorted(AppOrder::Version, b, c) && #[trigger] app_sorted(
            AppOrder::Name,
            c,
            d,
        ) && out == deduped(d);
    lemma_sorted_apps(AppOrder::Location, raw, a);
    lemma_sorted_apps(AppOrder::Size, a, b);
    lemma_sorted_apps(AppOrder::Version, b, c);
    lemma_sorted_apps(AppOrder::Name, c, d);
    assert(raw.contains(raw[i]));
    assert(a.contains(raw[i]));
    assert(b.contains(raw[i]));
    assert(c.contains(raw[i]));
    assert(d.contains(raw[i]));
    let k = choose|k: int| 0 <= k < d.len() && d[k] == raw[i];
    lemma_product_stays(d, k);
    assert forall|x: InstalledApp| #[trigger] out.contains(x) implies raw.contains(x) by {
        assert(d.contains(x));
        assert(c.contains(x));
        assert(b.contains(x));
        assert(a.contains(x));
    }
}

proof fn lemma_sorted_apps(by: AppOrder, input: Seq<InstalledApp>, out: Seq<InstalledApp>)
    requires
        app_sorted(by, input, out),
    ensures
        forall|a: InstalledApp| #[trigger] out.contains(a) <==> input.contains(a),
        forall|i: int, j: int|
            0 <= i < j < out.len() ==> !key_lt(
                app_key(by, #[trigger] out[j]),
                app_key(by, #[trigger] out[i]),
            ),
{
    law_sorted_copy_is_ascending(
        input,
        |a: InstalledApp| app_key(by, a),
        app_keys(by, input),
        out,
    );
}

/// The list of apps shows the biggest first, and those of one size by name.
pub proof fn law_the_biggest_apps_come_first(
    apps: Seq<InstalledApp>,
    out: Seq<InstalledApp>,
    i: int,
    j: int,
)
    requires
        app_sorted(AppOrder::SizeAndName, apps, out),
        0 <= i < j < out.len(),
    ensures
        out[i].size_bytes >= out[j].size_bytes,
        out[i].size_bytes == out[j].size_bytes ==> !lex_lt(
            lowercase(out[j].name@),
            lowercase(out[i].name@),
        ),
{
    lemma_sorted_apps(AppOrder::SizeAndName, apps, out);
    assert(!key_lt(app_key(AppOrder::SizeAndName, out[j]), app_key(AppOrder::SizeAndName, out[i])));
}

/// A directory whose name ends in `.app` is a bundle and is called what stands in
/// front; a link is none, and neither is a file.
pub proof fn law_which_directories_are_bundles(e: BundleEntry, name: Seq<char>)
    ensures
        e.name@ == name + ".app"@ && name.len() > 0 && e.is_dir && !e.is_symlink ==> bundle_name(e)
            == Some(name),
        !e.is_dir || e.is_symlink ==> bundle_name(e) is None,
        !".app"@.is_suffix_of(e.name@) ==> bundle_name(e) is None,
{
    reveal_strlit(".app");
    let n = name + ".app"@;
    assert(n.subrange(n.len() - 4, n.len() as int) =~= ".app"@);
    assert(n.take(n.len() - 4) =~= name);
}

} // verus!
