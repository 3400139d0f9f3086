//! Sets of glob patterns.
use crate::error::CoreError;
use crate::paths::PathStyle;
use crate::text::{chars_of, copy, string_of, views};
use vstd::prelude::*;

verus! {

// ------------------------------------------------------ outside functions --
/// `globset::Glob`: one compiled pattern.
#[verifier::external_type_specification]
#[verifier::external_body]
pub struct ExGlob(globset::Glob);

/// `globset::GlobSetBuilder`: patterns on their way into a set.
#[verifier::external_type_specification]
#[verifier::external_body]
pub struct ExGlobSetBuilder(globset::GlobSetBuilder);

/// `globset::GlobSet`: patterns that are matched together.
#[verifier::external_type_specification]
#[verifier::external_body]
pub struct ExGlobSet(globset::GlobSet);

/// `globset::Error`: why a pattern or a set was refused.
#[verifier::external_type_specification]
#[verifier::external_body]
pub struct ExGlobError(globset::Error);

/// The pattern a glob was built from, and whether its wildcards stop at `/`.
pub uninterp spec fn glob_source(g: globset::Glob) -> (Seq<char>, bool);

/// The globs that were added to a builder, in order.
pub uninterp spec fn builder_globs(b: globset::GlobSetBuilder) -> Seq<(Seq<char>, bool)>;

/// The globs in a set, in order.
pub uninterp spec fn set_globs(s: globset::GlobSet) -> Seq<(Seq<char>, bool)>;

/// What globset's grammar has against a pattern that holds no backslash, in
/// globset's words; nothing where it accepts the pattern.
pub uninterp spec fn glob_refusal(pattern: Seq<char>) -> Option<Seq<char>>;

/// Whether a pattern, read without regard to case, matches a path, neither of
/// which holds a backslash.
pub uninterp spec fn glob_matches(pattern: Seq<char>, literal_separator: bool, path: Seq<char>) -> bool;

/// How globset words an error.
pub uninterp spec fn error_text(e: globset::Error) -> Seq<char>;

/// No backslash. What a backslash means to globset depends on the platform it
/// runs on.
pub open spec fn plain(s: Seq<char>) -> bool {
    !s.contains('\\')
}

/// `globset::GlobBuilder` with `case_insensitive` on and `literal_separator`
/// as given. The grammar decides alone whether a pattern without a backslash
/// is accepted, and how a refusal is worded; of other patterns only the source
/// of the glob is claimed.
#[verifier::external_body]
fn glob_build(pattern: &str, literal_separator: bool) -> (r: Result<globset::Glob, globset::Error>)
    ensures
        r matches Ok(g) ==> glob_source(g) == (pattern@, literal_separator),
        plain(pattern@) ==> match r {
            Ok(_) => glob_refusal(pattern@) is None,
            Err(e) => glob_refusal(pattern@) == Some(error_text(e)),
        },
{
    globset::GlobBuilder::new(pattern)
        .case_insensitive(true)
        .literal_separator(literal_separator)
        .build()
}

/// `globset::GlobSetBuilder::new`: an empty builder.
#[verifier::external_body]
fn builder_new() -> (r: globset::GlobSetBuilder)
    ensures
        builder_globs(r) == Seq::<(Seq<char>, bool)>::empty(),
{
    globset::GlobSetBuilder::new()
}

/// `globset::GlobSetBuilder::add`: appends one glob.
#[verifier::external_body]
fn builder_add(b: &mut globset::GlobSetBuilder, g: globset::Glob)
    ensures
        builder_globs(*final(b)) == builder_globs(*old(b)).push(glob_source(g)),
{
    b.add(g);
}

/// `globset::GlobSetBuilder::build`: the set of the globs added so far. An
/// empty builder always gives a set; whether globs together grow too large for
/// the regular expression engine is left open.
#[verifier::external_body]
fn builder_build(b: &globset::GlobSetBuilder) -> (r: Result<globset::GlobSet, globset::Error>)
    ensures
        r matches Ok(s) ==> set_globs(s) == builder_globs(*b),
        builder_globs(*b).len() == 0 ==> r is Ok,
{
    b.build()
}

/// `globset::GlobSet::is_match`: whether any glob of the set matches. Claimed
/// where neither the path nor a pattern holds a backslash.
#[verifier::external_body]
fn set_is_match(s: &globset::GlobSet, path: &str) -> (r: bool)
    ensures
        plain(path@) && all_plain(set_globs(*s)) ==> r == set_globs(*s).any(
            |g: (Seq<char>, bool)| glob_matches(g.0, g.1, path@),
        ),
{
    s.is_match(path)
}

/// The `Display` text of a `globset::Error`.
#[verifier::external_body]
fn glob_error_text(e: &globset::Error) -> (r: String)
    ensures
        r@ == error_text(*e),
{
    e.to_string()
}

// ------------------------------------------------------------------ sets --
pub open spec fn all_plain(globs: Seq<(Seq<char>, bool)>) -> bool {
    forall|i: int| 0 <= i < globs.len() ==> plain((#[trigger] globs[i]).0)
}

/// Some glob matches the path.
pub open spec fn any_matches(globs: Seq<(Seq<char>, bool)>, path: Seq<char>) -> bool {
    globs.any(|g: (Seq<char>, bool)| glob_matches(g.0, g.1, path))
}

/// The globs that a list of patterns stands for.
pub open spec fn globs_of(patterns: Seq<Seq<char>>, literal_separator: bool) -> Seq<
    (Seq<char>, bool),
> {
    patterns.map_values(|p: Seq<char>| (p, literal_separator))
}

/// A path the way globs see it: on Windows `\` counts as `/`.
pub open spec fn slashed(style: PathStyle, path: Seq<char>) -> Seq<char> {
    match style {
        PathStyle::Posix => path,
        PathStyle::Windows => path.map_values(
            |c: char|
                if c == '\\' {
                    '/'
                } else {
                    c
                },
        ),
    }
}

fn to_slashed(style: PathStyle, path: &str) -> (r: String)
    ensures
        r@ == slashed(style, path@),
{
    match style {
        PathStyle::Posix => copy(path),
        PathStyle::Windows => {
            let cs: Vec<char> = chars_of(path);
            let mut out: Vec<char> = Vec::new();
            let ghost goal = slashed(style, path@);
            let mut i: usize = 0;
            while i < cs.len()
                invariant
                    i <= cs@.len(),
                    cs@ == path@,
                    goal == slashed(PathStyle::Windows, path@),
                    out@ == goal.take(i as int),
                decreases cs@.len() - i,
            {
                let c: char = cs[i];
                out.push(
                    if c == '\\' {
                        '/'
                    } else {
                        c
                    },
                );
                i += 1;
                assert(goal.take(i as int) =~= goal.take(i - 1).push(goal[i - 1]));
            }
            assert(goal.take(i as int) =~= goal);
            assert(out@.subrange(0, out@.len() as int) =~= out@);
            string_of(&out, 0, out.len())
        },
    }
}

/// Why a set of patterns was refused: the first pattern the grammar does not
/// accept, or all of them where they are too large together.
pub enum Refused {
    Pattern { index: usize, message: String },
    Together { message: String },
}

/// `patterns[..n]` are all accepted, as far as the grammar alone decides.
pub open spec fn accepted(patterns: Seq<Seq<char>>, n: int) -> bool {
    forall|i: int|
        0 <= i < n && plain(#[trigger] patterns[i]) ==> glob_refusal(patterns[i]) is None
}

/// Compiles patterns into a set.
pub fn compile(patterns: &Vec<String>, literal_separator: bool) -> (r: Result<
    globset::GlobSet,
    Refused,
>)
    ensures
        match r {
            Ok(set) => set_globs(set) == globs_of(views(patterns@), literal_separator) && accepted(
                views(patterns@),
                patterns@.len() as int,
            ),
            Err(Refused::Pattern { index, message }) => index < patterns@.len() && accepted(
                views(patterns@),
                index as int,
            ) && (plain(patterns@[index as int]@) ==> glob_refusal(patterns@[index as int]@)
                == Some(message@)),
            Err(Refused::Together { message }) => patterns@.len() > 0 && accepted(
                views(patterns@),
                patterns@.len() as int,
            ),
        },
{
    let ghost all = views(patterns@);
    let ghost globs = globs_of(all, literal_separator);
    let mut builder: globset::GlobSetBuilder = builder_new();
    let mut i: usize = 0;
    assert(globs.take(0) =~= Seq::empty());
    while i < patterns.len()
        invariant
            i <= patterns@.len(),
            all == views(patterns@),
            globs == globs_of(all, literal_separator),
            accepted(all, i as int),
            builder_globs(builder) == globs.take(i as int),
        decreases patterns@.len() - i,
    {
        match glob_build(patterns[i].as_str(), literal_separator) {
            Ok(g) => {
                assert(glob_source(g) == globs[i as int]);
                builder_add(&mut builder, g);
                assert(globs.take(i + 1) =~= globs.take(i as int).push(globs[i as int]));
            },
            Err(e) => {
                return Err(Refused::Pattern { index: i, message: glob_error_text(&e) });
            },
        }
        i += 1;
    }
    assert(globs.take(i as int) =~= globs);
    match builder_build(&builder) {
        Ok(set) => Ok(set),
        Err(e) => Err(Refused::Together { message: glob_error_text(&e) }),
    }
}

/// Whether any pattern of the set matches the path.
pub fn is_match(style: PathStyle, set: &globset::GlobSet, path: &str) -> (r: bool)
    ensures
        plain(slashed(style, path@)) && all_plain(set_globs(*set)) ==> r == any_matches(
            set_globs(*set),
            slashed(style, path@),
        ),
{
    let p: String = to_slashed(style, path);
    set_is_match(set, p.as_str())
}

/// The strings of a list with `, ` between them.
pub open spec fn comma_list(v: Seq<Seq<char>>) -> Seq<char>
    decreases v.len(),
{
    if v.len() == 0 {
        Seq::empty()
    } else if v.len() == 1 {
        v[0]
    } else {
        comma_list(v.drop_last()) + ", "@ + v.last()
    }
}

pub fn join_with_commas(v: &Vec<String>) -> (r: String)
    ensures
        r@ == comma_list(views(v@)),
{
    let ghost all = views(v@);
    let mut out: String = String::new();
    let mut i: usize = 0;
    assert(out@ =~= comma_list(all.take(0)));
    while i < v.len()
        invariant
            i <= v@.len(),
            all == views(v@),
            out@ == comma_list(all.take(i as int)),
        decreases v@.len() - i,
    {
        let ghost before = out@;
        if i > 0 {
            out.push_str(", ");
        }
        out.push_str(v[i].as_str());
        i += 1;
        assert(all.take(i as int).drop_last() =~= all.take(i - 1));
        if i == 1 {
            assert(out@ =~= all.take(1)[0]);
        }
    }
    assert(all.take(i as int) =~= all);
    out
}

/// The error for a refused pattern list; `context` comes before the reason.
pub fn pattern_error(refused: Refused, patterns: &Vec<String>, context: &str) -> (r: CoreError)
    requires
        refused matches Refused::Pattern { index, .. } ==> index < patterns@.len(),
    ensures
        match refused {
            Refused::Pattern { index, message } => r matches CoreError::InvalidPattern {
                pattern,
                message: text,
            } && pattern@ == patterns@[index as int]@ && text@ == context@ + message@,
            Refused::Together { message } => r matches CoreError::InvalidPattern {
                pattern,
                message: text,
            } && pattern@ == comma_list(views(patterns@)) && text@ == context@ + message@,
        },
{
    match refused {
        Refused::Pattern { index, message } => CoreError::InvalidPattern {
            pattern: patterns[index].clone(),
            message: crate::text::join2(context, message.as_str()),
        },
        Refused::Together { message } => CoreError::InvalidPattern {
            pattern: join_with_commas(patterns),
            message: crate::text::join2(context, message.as_str()),
        },
    }
}

/// On Windows globs see every backslash of a path as a slash and everything else as
/// it is; elsewhere they see the path itself.
pub proof fn law_globs_see_slashes(path: Seq<char>, i: int)
    requires
        0 <= i < path.len(),
    ensures
        slashed(PathStyle::Posix, path) == path,
        slashed(PathStyle::Windows, path).len() == path.len(),
        path[i] == '\\' ==> slashed(PathStyle::Windows, path)[i] == '/',
        path[i] != '\\' ==> slashed(PathStyle::Windows, path)[i] == path[i],
{
}

/// A set matches a path exactly if one of its patterns does.
pub proof fn law_a_set_matches_if_one_pattern_does(
    patterns: Seq<Seq<char>>,
    literal_separator: bool,
    path: Seq<char>,
)
    ensures
        any_matches(globs_of(patterns, literal_separator), path) <==> exists|k: int|
            0 <= k < patterns.len() && glob_matches(
                #[trigger] patterns[k],
                literal_separator,
                path,
            ),
{
    let globs = globs_of(patterns, literal_separator);
    let hits = |g: (Seq<char>, bool)| glob_matches(g.0, g.1, path);
    if any_matches(globs, path) {
        let k = choose|k: int| 0 <= k < globs.len() && hits(#[trigger] globs[k]);
        assert(globs[k] == (patterns[k], literal_separator));
        assert(glob_matches(patterns[k], literal_separator, path));
    }
    if exists|k: int|
        0 <= k < patterns.len() && glob_matches(#[trigger] patterns[k], literal_separator, path) {
        let k = choose|k: int|
            0 <= k < patterns.len() && glob_matches(#[trigger] patterns[k], literal_separator, path);
        assert(globs[k] == (patterns[k], literal_separator));
        assert(hits(globs[k]));
    }
}

/// Texts are listed with a comma and a blank between them.
pub proof fn law_texts_are_listed_with_commas(v: Seq<Seq<char>>, s: Seq<char>)
    ensures
        comma_list(seq![s]) == s,
        v.len() > 0 ==> comma_list(v.push(s)) == comma_list(v) + seq![',', ' '] + s,
{
    reveal_strlit(", ");
    assert(", "@ =~= seq![',', ' ']);
    assert(v.push(s).drop_last() =~= v);
}

} // verus!
