//! Junk rules: what may be cleaned, and why it is safe.
use crate::env::Env;
use crate::error::CoreError;
use crate::globs::{
    accepted, all_plain, any_matches, comma_list, compile, glob_refusal, globs_of, is_match,
    pattern_error, plain, set_globs, slashed,
};
use crate::index::{as_ints, lemma_positions, positions, Index};
use crate::lists::{lemma_sum_push, lemma_sum_take, sum};
use crate::paths::{
    body, components, file_name, file_name_of, head, is_same, opt_view, parent, parent_of,
    plain_component, relative, relative_to, same_path, under, Component, PathStyle,
};
use crate::report::record_size;
use crate::text::{chars_of, find_chars, find_from, string_of, views};
use crate::types::{records, FileRecord, Platform, Record};
use vstd::prelude::*;

verus! {

#[derive(Debug, Clone, Copy, PartialEq, Eq, Structural)]
pub enum JunkCategory {
    Temp,
    Cache,
    Logs,
    Dumps,
    UpdateLeftover,
    /// Privacy traces: recent-file lists, jump lists, and (opt-in) browser
    /// history / cookies.
    Trace,
    /// Shortcuts (`.lnk`) whose target no longer exists.
    BrokenShortcut,
    /// Directories left with no files or subdirectories.
    EmptyFolder,
    /// Miscellaneous leftovers (e.g. zero-byte files).
    Leftover,
}

impl JunkCategory {
    pub open spec fn label_text(self) -> Seq<char> {
        match self {
            JunkCategory::Temp => "Temporary files"@,
            JunkCategory::Cache => "Caches"@,
            JunkCategory::Logs => "Log files"@,
            JunkCategory::Dumps => "Crash dumps & error reports"@,
            JunkCategory::UpdateLeftover => "Update leftovers"@,
            JunkCategory::Trace => "Privacy traces"@,
            JunkCategory::BrokenShortcut => "Broken shortcuts"@,
            JunkCategory::EmptyFolder => "Empty folders"@,
            JunkCategory::Leftover => "Leftovers"@,
        }
    }

    pub fn label(&self) -> (r: &'static str)
        ensures
            r@ == self.label_text(),
    {
        match self {
            JunkCategory::Temp => "Temporary files",
            JunkCategory::Cache => "Caches",
            JunkCategory::Logs => "Log files",
            JunkCategory::Dumps => "Crash dumps & error reports",
            JunkCategory::UpdateLeftover => "Update leftovers",
            JunkCategory::Trace => "Privacy traces",
            JunkCategory::BrokenShortcut => "Broken shortcuts",
            JunkCategory::EmptyFolder => "Empty folders",
            JunkCategory::Leftover => "Leftovers",
        }
    }
}

/// How a rule decides whether a scanned entry is junk. `Glob` (the default)
/// matches files by the include-globs. The others add a predicate on top of
/// the include match.
#[derive(Debug, Clone, Copy, PartialEq, Eq, Structural)]
pub enum MatchPredicate {
    /// Include-glob match on files.
    Glob,
    /// File whose size is exactly 0 bytes (and matches the include-globs).
    ZeroByte,
    /// `.lnk` shortcut whose resolved local target no longer exists.
    BrokenShortcut,
    /// Directory that contains no files and no subdirectories.
    EmptyDir,
}

impl Default for MatchPredicate {
    fn default() -> (r: Self)
        ensures
            r == MatchPredicate::Glob,
    {
        MatchPredicate::Glob
    }
}

#[derive(Debug, Clone, Copy, PartialEq, Eq, Structural)]
pub enum RiskTier {
    /// Regenerable or purely historical data. Only this tier is deletable.
    Safe,
    /// Reserved (e.g. old Downloads); never auto-applied.
    Moderate,
}

#[derive(Debug)]
pub struct JunkRule {
    pub id: String,
    pub category: JunkCategory,
    pub risk: RiskTier,
    pub rationale: String,
    /// Base directory containing %ENVVAR% placeholders. A rule can never
    /// match a path outside its expanded base.
    pub base: String,
    /// Globs relative to base (case-insensitive, `/` separators).
    pub includes: Vec<String>,
    /// Files modified within the last N days are never flagged.
    pub min_age_days: u32,
    /// How entries are matched.
    pub predicate: MatchPredicate,
    /// Whether this rule is applied by default. `false` marks a rule the user
    /// must opt into (e.g. browser history / cookies, which log you out).
    pub default_apply: bool,
}

#[derive(Debug)]
pub struct RulePack {
    pub pack: String,
    pub rules: Vec<JunkRule>,
}

#[derive(Debug)]
pub struct JunkFinding {
    pub record: FileRecord,
    pub rule_id: String,
    pub category: JunkCategory,
    pub risk: RiskTier,
}

#[derive(Debug)]
pub struct RuleReport {
    pub rule: JunkRule,
    pub base: String,
    pub findings: Vec<JunkFinding>,
    pub bytes: u64,
}

/// A copy of a list of strings.
pub fn copy_strings(v: &Vec<String>) -> (r: Vec<String>)
    ensures
        r@ == v@,
{
    let mut out: Vec<String> = Vec::new();
    let mut i: usize = 0;
    while i < v.len()
        invariant
            i <= v@.len(),
            out@ == v@.take(i as int),
        decreases v@.len() - i,
    {
        out.push(v[i].clone());
        i += 1;
        assert(v@.take(i as int) =~= v@.take(i - 1).push(v@[i - 1]));
    }
    assert(v@.take(i as int) =~= v@);
    out
}

impl JunkRule {
    /// The same rule, field by field.
    pub open spec fn same_as(&self, other: JunkRule) -> bool {
        &&& self.id == other.id
        &&& self.category == other.category
        &&& self.risk == other.risk
        &&& self.rationale == other.rationale
        &&& self.base == other.base
        &&& self.includes@ == other.includes@
        &&& self.min_age_days == other.min_age_days
        &&& self.predicate == other.predicate
        &&& self.default_apply == other.default_apply
    }
}

impl Clone for JunkRule {
    fn clone(&self) -> (r: Self)
        ensures
            r.same_as(*self),
    {
        JunkRule {
            id: self.id.clone(),
            category: self.category,
            risk: self.risk,
            rationale: self.rationale.clone(),
            base: self.base.clone(),
            includes: copy_strings(&self.includes),
            min_age_days: self.min_age_days,
            predicate: self.predicate,
            default_apply: self.default_apply,
        }
    }
}

impl Clone for JunkFinding {
    fn clone(&self) -> (r: Self)
        ensures
            r == *self,
    {
        JunkFinding {
            record: self.record.clone(),
            rule_id: self.rule_id.clone(),
            category: self.category,
            risk: self.risk,
        }
    }
}

/// The rules for a platform, of the shipped packs. Other platforms get an
/// empty set (a junk scan finds nothing rather than guessing at paths).
pub fn builtin_rules(platform: Platform, windows: RulePack, macos: RulePack) -> (r: Vec<JunkRule>)
    ensures
        r@ == match platform {
            Platform::Windows => windows.rules@,
            Platform::MacOs => macos.rules@,
            Platform::Other => Seq::empty(),
        },
{
    match platform {
        Platform::Windows => windows.rules,
        Platform::MacOs => macos.rules,
        Platform::Other => Vec::new(),
    }
}

// ------------------------------------------------------------ placeholders --
/// `s` with every `%VAR%` replaced by the variable's value; `None` where a
/// variable is not set or a `%` has no partner.
pub open spec fn expanded(env: Env, s: Seq<char>) -> Option<Seq<char>>
    decreases s.len(),
{
    match find_from(s, seq!['%'], 0) {
        None => Some(s),
        Some(i) => match find_from(s, seq!['%'], i + 1) {
            None => None,
            Some(j) => if i < 0 || j <= i || j >= s.len() {
                None
            } else {
                match (env.value(s.subrange(i + 1, j)), expanded(env, s.skip(j + 1))) {
                    (Some(v), Some(rest)) => Some(s.take(i) + v + rest),
                    _ => None,
                }
            },
        },
    }
}

/// Expand `%VAR%` placeholders from the environment. Returns `None` when a
/// referenced variable is not set (the rule is skipped).
pub fn expand_env(env: &Env, input: &str) -> (r: Option<String>)
    ensures
        opt_view(r) == expanded(*env, input@),
{
    let cs: Vec<char> = chars_of(input);
    let percent: Vec<char> = vec!['%'];
    assert(percent@ =~= seq!['%']);
    let mut out: String = String::new();
    let mut at: usize = 0;
    let n: usize = cs.len();
    assert(cs@.skip(0) =~= cs@);
    proof {
        match expanded(*env, input@) {
            Some(x) => {
                assert(out@ + x =~= x);
            },
            None => {},
        }
    }
    loop
        invariant
            cs@ == input@,
            percent@ == seq!['%'],
            at <= cs@.len() == n,
            expanded(*env, input@) == match expanded(*env, cs@.skip(at as int)) {
                Some(x) => Some(out@ + x),
                None => None,
            },
        decreases cs@.len() - at,
    {
        let ghost s = cs@.skip(at as int);
        proof {
            lemma_find_skip(cs@, at as int, 0);
        }
        match find_chars(&cs, &percent, at) {
            None => {
                let tail: String = string_of(&cs, at, n);
                assert(tail@ =~= s);
                out.push_str(tail.as_str());
                return Some(out);
            },
            Some(i) => {
                let ghost k = i - at;
                proof {
                    lemma_find_skip(cs@, at as int, k + 1);
                }
                match find_chars(&cs, &percent, i + 1) {
                    None => {
                        return None;
                    },
                    Some(j) => {
                        let name: String = string_of(&cs, i + 1, j);
                        assert(name@ =~= s.subrange(k + 1, j - at));
                        assert(s.skip(j - at + 1) =~= cs@.skip(j + 1));
                        match env.get(name.as_str()) {
                            None => {
                                return None;
                            },
                            Some(v) => {
                                let head: String = string_of(&cs, at, i);
                                assert(head@ =~= s.take(k));
                                let ghost before = out@;
                                out.push_str(head.as_str());
                                out.push_str(v.as_str());
                                proof {
                                    match expanded(*env, cs@.skip(j + 1)) {
                                        Some(x) => {
                                            assert(before + (s.take(k) + v@ + x) =~= out@ + x);
                                        },
                                        None => {},
                                    }
                                }
                                at = j + 1;
                            },
                        }
                    },
                }
            },
        }
    }
}

/// Searching a suffix is searching the whole from there on.
pub proof fn lemma_find_skip(cs: Seq<char>, at: int, from: int)
    requires
        0 <= at <= cs.len(),
        0 <= from,
    ensures
        find_from(cs.skip(at), seq!['%'], from) == match find_from(cs, seq!['%'], at + from) {
            Some(i) => Some(i - at),
            None => None,
        },
        find_from(cs, seq!['%'], at + from) matches Some(i) ==> at + from <= i < cs.len(),
    decreases cs.len() + 1 - at - from,
{
    let s = cs.skip(at);
    if from + 1 <= s.len() {
        assert(s.subrange(from, from + 1) =~= cs.subrange(at + from, at + from + 1));
        lemma_find_skip(cs, at, from + 1);
    }
}

// -------------------------------------------------------------- evaluation --
/// A directory with the path `path` has scanned children: some record's parent
/// is that path.
pub open spec fn has_child(style: PathStyle, recs: Seq<Record>, path: Seq<char>) -> bool {
    exists|j: int|
        0 <= j < recs.len() && (parent(style, (#[trigger] recs[j]).path) matches Some(p)
            && same_path(style, p, path))
}

/// What a rule asks of an entry besides its place, its name and its age.
pub open spec fn predicate_holds(
    style: PathStyle,
    predicate: MatchPredicate,
    base: Seq<char>,
    recs: Seq<Record>,
    i: int,
    broken: bool,
) -> bool {
    match predicate {
        MatchPredicate::Glob => true,
        MatchPredicate::ZeroByte => recs[i].size == 0,
        MatchPredicate::BrokenShortcut => broken,
        MatchPredicate::EmptyDir => !same_path(style, recs[i].path, base) && !has_child(
            style,
            recs,
            recs[i].path,
        ),
    }
}

/// A rule flags record `i`: it lies inside the base, its relative path matches
/// the globs, it is old enough, and the predicate holds. Directories are
/// flagged only by `EmptyDir`, and by that nothing else.
pub open spec fn flagged(
    style: PathStyle,
    rule: JunkRule,
    base: Seq<char>,
    recs: Seq<Record>,
    now_unix: i64,
    matched: Seq<bool>,
    broken: Seq<bool>,
    i: int,
) -> bool {
    &&& recs[i].is_dir == (rule.predicate == MatchPredicate::EmptyDir)
    &&& under(style, recs[i].path, base)
    &&& matched[i]
    &&& now_unix - recs[i].modified >= rule.min_age_days * 86_400
    &&& predicate_holds(style, rule.predicate, base, recs, i, broken[i])
}

/// The flagged ones among the first `n` records, in order.
pub open spec fn flagged_records(
    style: PathStyle,
    rule: JunkRule,
    base: Seq<char>,
    recs: Seq<Record>,
    now_unix: i64,
    matched: Seq<bool>,
    broken: Seq<bool>,
    n: int,
) -> Seq<Record>
    decreases n,
{
    if n <= 0 {
        Seq::empty()
    } else {
        let before = flagged_records(
            style,
            rule,
            base,
            recs,
            now_unix,
            matched,
            broken,
            n - 1,
        );
        if flagged(style, rule, base, recs, now_unix, matched, broken, n - 1) {
            before.push(recs[n - 1])
        } else {
            before
        }
    }
}

/// The records of a list of findings.
pub open spec fn finding_records(v: Seq<JunkFinding>) -> Seq<Record> {
    v.map_values(|f: JunkFinding| f.record@)
}

/// Every finding carries what the rule says of itself.
pub open spec fn labelled(rule: JunkRule, v: Seq<JunkFinding>) -> bool {
    forall|i: int|
        0 <= i < v.len() ==> (#[trigger] v[i]).rule_id@ == rule.id@ && v[i].category
            == rule.category && v[i].risk == rule.risk
}

/// The name of a path as its components tell it.
pub open spec fn last_name(c: Seq<Component>) -> Option<Seq<char>> {
    if c.len() == 0 {
        None
    } else {
        match c.last() {
            Component::Normal { name } => Some(name),
            _ => None,
        }
    }
}

proof fn lemma_name_of_components(style: PathStyle, s: Seq<char>)
    ensures
        file_name(style, s) == last_name(components(style, s)),
{
    let g = body(style, s);
    let plain = g.map_values(|x: (int, int)| plain_component(s.subrange(x.0, x.1)));
    let all = components(style, s);
    if g.len() > 0 {
        assert(all.last() == plain[g.len() - 1]);
    } else {
        assert(all =~= head(style, s));
    }
}

/// Which directories have scanned children, looked up by name.
struct Parents {
    names: Index,
    paths: Vec<Option<String>>,
}

/// The name of a parent, and the empty string where it has none.
spec fn parent_name_keys(style: PathStyle, recs: Seq<Record>) -> Seq<Option<Seq<char>>> {
    recs.map_values(
        |r: Record|
            match parent(style, r.path) {
                Some(p) => match file_name(style, p) {
                    Some(n) => Some(n),
                    None => Some(Seq::empty()),
                },
                None => None,
            },
    )
}

impl Parents {
    spec fn wf(&self, style: PathStyle, recs: Seq<Record>) -> bool {
        &&& self.names.wf()
        &&& self.names.keys() == parent_name_keys(style, recs)
        &&& self.paths@.len() == recs.len()
        &&& forall|i: int|
            0 <= i < recs.len() ==> opt_view(#[trigger] self.paths@[i]) == parent(
                style,
                recs[i].path,
            )
    }

    fn new(style: PathStyle, v: &Vec<FileRecord>) -> (r: Parents)
        requires
            v@.len() < usize::MAX,
        ensures
            r.wf(style, records(v@)),
    {
        let ghost recs = records(v@);
        let ghost keys = parent_name_keys(style, recs);
        let mut names: Index = Index::new();
        let mut paths: Vec<Option<String>> = Vec::new();
        let mut i: usize = 0;
        assert(keys.take(0) =~= Seq::empty());
        while i < v.len()
            invariant
                i <= v@.len() < usize::MAX,
                recs == records(v@),
                keys == parent_name_keys(style, recs),
                names.wf(),
                names.keys() == keys.take(i as int),
                paths@.len() == i,
                forall|k: int|
                    0 <= k < i ==> opt_view(#[trigger] paths@[k]) == parent(style, recs[k].path),
            decreases v@.len() - i,
        {
            let up: Option<String> = parent_of(style, v[i].path.as_str());
            match &up {
                Some(p) => {
                    match file_name_of(style, p.as_str()) {
                        Some(n) => {
                            names.add(Some(n.as_str()));
                        },
                        None => {
                            let empty: String = String::new();
                            assert(empty@ =~= Seq::empty());
                            names.add(Some(empty.as_str()));
                        },
                    }
                },
                None => {
                    names.add(None);
                },
            }
            paths.push(up);
            i += 1;
            assert(keys.take(i as int) =~= keys.take(i - 1).push(keys[i - 1]));
        }
        assert(keys.take(i as int) =~= keys);
        Parents { names, paths }
    }

    fn contains(&self, style: PathStyle, path: &str, Ghost(recs): Ghost<Seq<Record>>) -> (r: bool)
        requires
            self.wf(style, recs),
        ensures
            r == has_child(style, recs, path@),
    {
        let name: String = match file_name_of(style, path) {
            Some(n) => n,
            None => {
                let empty: String = String::new();
                assert(empty@ =~= Seq::empty());
                empty
            },
        };
        let at: Vec<usize> = self.names.find(name.as_str());
        let ghost keys = self.names.keys();
        let ghost pos = positions(keys, name@);
        proof {
            lemma_positions(keys, name@);
            assert forall|k: int| 0 <= k < at@.len() implies (#[trigger] at@[k]) < recs.len() by {
                assert(as_ints(at@)[k] == at@[k]);
                assert(pos[k] == at@[k]);
            }
        }
        let mut i: usize = 0;
        while i < at.len()
            invariant
                i <= at@.len(),
                self.wf(style, recs),
                forall|k: int| 0 <= k < at@.len() ==> (#[trigger] at@[k]) < recs.len(),
                forall|k: int|
                    0 <= k < i ==> !(parent(style, recs[#[trigger] at@[k] as int].path) matches Some(
                        p,
                    ) && same_path(style, p, path@)),
            decreases at@.len() - i,
        {
            match &self.paths[at[i]] {
                Some(p) => {
                    if is_same(style, p.as_str(), path) {
                        assert(parent(style, recs[at@[i as int] as int].path) == Some(p@));
                        return true;
                    }
                },
                None => {},
            }
            i += 1;
        }
        proof {
            assert forall|j: int| 0 <= j < recs.len() implies !(parent(
                style,
                (#[trigger] recs[j]).path,
            ) matches Some(p) && same_path(style, p, path@)) by {
                match parent(style, recs[j].path) {
                    Some(p) => {
                        if same_path(style, p, path@) {
                            lemma_name_of_components(style, p);
                            lemma_name_of_components(style, path@);
                            assert(keys[j] == Some(name@));
                            assert(pos.contains(j));
                            let k = choose|k: int| 0 <= k < pos.len() && pos[k] == j;
                            assert(as_ints(at@)[k] == at@[k]);
                            assert(at@[k] == j);
                        }
                    },
                    None => {},
                }
            }
        }
        false
    }
}

/// Evaluation of one rule against already-scanned records under `base`, where
/// `matched` says which relative paths match the rule's globs and `broken`
/// which records are shortcuts to a missing target.
pub fn evaluate_matched(
    style: PathStyle,
    rule: &JunkRule,
    base: &str,
    recs: &Vec<FileRecord>,
    now_unix: i64,
    matched: &Vec<bool>,
    broken: &Vec<bool>,
) -> (r: Vec<JunkFinding>)
    requires
        recs@.len() == matched@.len() == broken@.len(),
        recs@.len() < usize::MAX,
    ensures
        finding_records(r@) == flagged_records(
            style,
            *rule,
            base@,
            records(recs@),
            now_unix,
            matched@,
            broken@,
            recs@.len() as int,
        ),
        labelled(*rule, r@),
{
    let ghost all = records(recs@);
    let wants_dir: bool = rule.predicate == MatchPredicate::EmptyDir;
    let parents: Option<Parents> = if wants_dir {
        Some(Parents::new(style, recs))
    } else {
        None
    };
    let min_age: i128 = rule.min_age_days as i128 * 86_400;
    let mut out: Vec<JunkFinding> = Vec::new();
    let mut i: usize = 0;
    assert(finding_records(out@) =~= Seq::empty());
    while i < recs.len()
        invariant
            i <= recs@.len() == matched@.len() == broken@.len(),
            all == records(recs@),
            wants_dir == (rule.predicate == MatchPredicate::EmptyDir),
            wants_dir ==> (parents matches Some(p) && p.wf(style, all)),
            min_age == rule.min_age_days * 86_400,
            labelled(*rule, out@),
            finding_records(out@) == flagged_records(
                style,
                *rule,
                base@,
                all,
                now_unix,
                matched@,
                broken@,
                i as int,
            ),
        decreases recs@.len() - i,
    {
        let rec: &FileRecord = &recs[i];
        assert(all[i as int] == rec@);
        let age: i128 = now_unix as i128 - rec.modified as i128;
        let hit: bool = rec.is_dir == wants_dir && matched[i] && age >= min_age
            && crate::paths::is_under(style, rec.path.as_str(), base) && match rule.predicate {
            MatchPredicate::Glob => true,
            MatchPredicate::ZeroByte => rec.size == 0,
            MatchPredicate::BrokenShortcut => broken[i],
            MatchPredicate::EmptyDir => match &parents {
                Some(p) => !is_same(style, rec.path.as_str(), base) && !p.contains(
                    style,
                    rec.path.as_str(),
                    Ghost(all),
                ),
                None => false,
            },
        };
        assert(hit == flagged(
            style,
            *rule,
            base@,
            all,
            now_unix,
            matched@,
            broken@,
            i as int,
        ));
        if hit {
            let ghost before = out@;
            out.push(
                JunkFinding {
                    record: rec.clone(),
                    rule_id: rule.id.clone(),
                    category: rule.category,
                    risk: rule.risk,
                },
            );
            assert(finding_records(out@) =~= finding_records(before).push(rec@));
        }
        i += 1;
    }
    out
}

/// `matched` says of each record inside the base whether the rule's globs match
/// its relative path, as far as that does not depend on what a backslash
/// means. Outside the base nothing matches.
pub open spec fn glob_matched(
    style: PathStyle,
    globs: Seq<(Seq<char>, bool)>,
    base: Seq<char>,
    recs: Seq<Record>,
    matched: Seq<bool>,
) -> bool {
    &&& matched.len() == recs.len()
    &&& forall|i: int|
        0 <= i < recs.len() ==> match relative(style, (#[trigger] recs[i]).path, base) {
            None => !matched[i],
            Some(rel) => all_plain(globs) && plain(slashed(style, rel)) ==> matched[i]
                == any_matches(globs, slashed(style, rel)),
        }
}

/// The error of a rule whose globs are refused names the first bad pattern, or
/// all of them where each is accepted alone, and the rule.
pub open spec fn refused_rule(rule: JunkRule, e: CoreError) -> bool {
    let patterns = views(rule.includes@);
    let context = "rule "@ + rule.id@ + ": "@;
    e matches CoreError::InvalidPattern { pattern, message } && {
        &&& context.is_prefix_of(message@)
        &&& {
            ||| exists|k: int|
                0 <= k < patterns.len() && pattern@ == #[trigger] patterns[k] && accepted(
                    patterns,
                    k,
                ) && (plain(patterns[k]) ==> glob_refusal(patterns[k]) == Some(
                    message@.skip(context.len() as int),
                ))
            ||| patterns.len() > 0 && pattern@ == comma_list(patterns) && accepted(
                patterns,
                patterns.len() as int,
            )
        }
    }
}

/// What building the globs of a rule may give: a set of exactly its patterns, or
/// an error that says what was refused.
pub open spec fn include_outcome(rule: JunkRule, built: Result<globset::GlobSet, CoreError>) -> bool {
    match built {
        Ok(set) => set_globs(set) == globs_of(views(rule.includes@), true) && accepted(
            views(rule.includes@),
            rule.includes@.len() as int,
        ),
        Err(e) => refused_rule(rule, e),
    }
}

/// The glob set of a rule.
pub fn build_include_set(rule: &JunkRule) -> (r: Result<globset::GlobSet, CoreError>)
    ensures
        include_outcome(*rule, r),
{
    match compile(&rule.includes, true) {
        Ok(set) => Ok(set),
        Err(why) => {
            let ghost w = why;
            let context: String = crate::text::join3("rule ", rule.id.as_str(), ": ");
            let e: CoreError = pattern_error(why, &rule.includes, context.as_str());
            proof {
                match &e {
                    CoreError::InvalidPattern { pattern, message } => {
                        assert(message@.subrange(0, context@.len() as int) =~= context@);
                    },
                    _ => {},
                }
                match w {
                    crate::globs::Refused::Pattern { index, message } => {
                        assert(views(rule.includes@)[index as int]
                            == rule.includes@[index as int]@);
                        assert((context@ + message@).skip(context@.len() as int) =~= message@);
                    },
                    crate::globs::Refused::Together { message } => {},
                }
            }
            Err(e)
        },
    }
}

/// `found` is what a rule flags among the records under `base`: matching is on
/// the path relative to the base.
pub open spec fn finds(
    style: PathStyle,
    rule: JunkRule,
    base: Seq<char>,
    recs: Seq<Record>,
    now_unix: i64,
    broken: Seq<bool>,
    found: Seq<JunkFinding>,
) -> bool {
    &&& labelled(rule, found)
    &&& exists|matched: Seq<bool>| #[trigger]
        glob_matched(style, globs_of(views(rule.includes@), true), base, recs, matched)
            && finding_records(found) == flagged_records(
            style,
            rule,
            base,
            recs,
            now_unix,
            matched,
            broken,
            recs.len() as int,
        )
}

/// Evaluation of one rule with its glob set.
fn evaluate_with_set(
    style: PathStyle,
    rule: &JunkRule,
    set: &globset::GlobSet,
    base: &str,
    recs: &Vec<FileRecord>,
    now_unix: i64,
    broken: &Vec<bool>,
) -> (r: Vec<JunkFinding>)
    requires
        set_globs(*set) == globs_of(views(rule.includes@), true),
        recs@.len() == broken@.len(),
        recs@.len() < usize::MAX,
    ensures
        finds(style, *rule, base@, records(recs@), now_unix, broken@, r@),
{
    let ghost globs = set_globs(*set);
    let ghost all = records(recs@);
    let mut matched: Vec<bool> = Vec::new();
    let mut i: usize = 0;
    while i < recs.len()
        invariant
            i <= recs@.len(),
            all == records(recs@),
            globs == set_globs(*set),
            matched@.len() == i,
            forall|k: int|
                0 <= k < i ==> match relative(style, (#[trigger] all[k]).path, base@) {
                    None => !matched@[k],
                    Some(rel) => all_plain(globs) && plain(slashed(style, rel)) ==> matched@[k]
                        == any_matches(globs, slashed(style, rel)),
                },
        decreases recs@.len() - i,
    {
        let hit: bool = match relative_to(style, recs[i].path.as_str(), base) {
            Some(rel) => is_match(style, set, rel.as_str()),
            None => false,
        };
        assert(all[i as int].path == recs@[i as int].path@);
        matched.push(hit);
        i += 1;
    }
    assert(glob_matched(style, globs, base@, all, matched@));
    evaluate_matched(style, rule, base, recs, now_unix, &matched, broken)
}

/// Evaluation of one rule against already-scanned records under `base`. Only
/// files (never directories) are flagged, except by the empty-directory
/// predicate; matching is on the path relative to base; recently-modified
/// entries are left out per rule.
pub fn evaluate_records(
    style: PathStyle,
    rule: &JunkRule,
    base: &str,
    recs: &Vec<FileRecord>,
    now_unix: i64,
    broken: &Vec<bool>,
) -> (r: Result<Vec<JunkFinding>, CoreError>)
    requires
        recs@.len() == broken@.len(),
        recs@.len() < usize::MAX,
    ensures
        match r {
            Ok(found) => accepted(views(rule.includes@), rule.includes@.len() as int) && finds(
                style,
                *rule,
                base@,
                records(recs@),
                now_unix,
                broken@,
                found@,
            ),
            Err(e) => refused_rule(*rule, e),
        },
{
    match build_include_set(rule) {
        Ok(set) => Ok(evaluate_with_set(style, rule, &set, base, recs, now_unix, broken)),
        Err(e) => Err(e),
    }
}

/// A shortcut is broken when a concrete local target was resolved and does not
/// exist. A file that cannot be read, or whose target cannot be told, is not.
pub fn is_broken_shortcut(target: &Option<String>, target_exists: bool) -> (r: bool)
    ensures
        r == (target is Some && !target_exists),
{
    target.is_some() && !target_exists
}

// --------------------------------------------------------------- all rules --
/// The scan of a rule's expanded base directory. `broken` says which records
/// are shortcuts to a missing target.
pub struct RuleScan {
    pub base: String,
    pub records: Vec<FileRecord>,
    pub broken: Vec<bool>,
}

impl RuleScan {
    /// One shortcut verdict per record, and sizes that can be added up.
    pub open spec fn wf(&self) -> bool {
        &&& self.records@.len() == self.broken@.len()
        &&& self.records@.len() < usize::MAX
        &&& sum(records(self.records@), record_size()) <= u64::MAX
    }
}

/// A rule with its base, its findings in the scan and their bytes.
pub open spec fn reports(
    style: PathStyle,
    rule: JunkRule,
    scan: RuleScan,
    now_unix: i64,
    report: RuleReport,
) -> bool {
    &&& report.rule.same_as(rule)
    &&& report.base@ == scan.base@
    &&& finds(
        style,
        rule,
        scan.base@,
        records(scan.records@),
        now_unix,
        scan.broken@,
        report.findings@,
    )
    &&& report.bytes == sum(finding_records(report.findings@), record_size())
}

proof fn lemma_flagged_sum(
    style: PathStyle,
    rule: JunkRule,
    base: Seq<char>,
    recs: Seq<Record>,
    now_unix: i64,
    matched: Seq<bool>,
    broken: Seq<bool>,
    n: int,
)
    requires
        0 <= n <= recs.len(),
    ensures
        sum(
            flagged_records(style, rule, base, recs, now_unix, matched, broken, n),
            record_size(),
        ) <= sum(recs.take(n), record_size()),
    decreases n,
{
    if n > 0 {
        lemma_flagged_sum(style, rule, base, recs, now_unix, matched, broken, n - 1);
        lemma_sum_take(recs, record_size(), n - 1);
        let before = flagged_records(style, rule, base, recs, now_unix, matched, broken, n - 1);
        lemma_sum_push(before, record_size(), recs[n - 1]);
    }
}

fn finding_bytes(v: &Vec<JunkFinding>) -> (r: u64)
    requires
        sum(finding_records(v@), record_size()) <= u64::MAX,
    ensures
        r == sum(finding_records(v@), record_size()),
{
    let ghost all = finding_records(v@);
    let ghost f = record_size();
    let mut total: u64 = 0;
    let mut i: usize = 0;
    while i < v.len()
        invariant
            i <= v@.len(),
            all == finding_records(v@),
            f == record_size(),
            sum(all, f) <= u64::MAX,
            total == sum(all.take(i as int), f),
        decreases v@.len() - i,
    {
        proof {
            lemma_sum_take(all, f, i as int);
        }
        total += v[i].record.size;
        i += 1;
    }
    assert(all.take(i as int) =~= all);
    total
}

/// The report of one scanned rule, given its glob set.
fn report_with_set(
    style: PathStyle,
    rule: &JunkRule,
    set: &globset::GlobSet,
    scan: &RuleScan,
    now_unix: i64,
) -> (r: RuleReport)
    requires
        scan.wf(),
        set_globs(*set) == globs_of(views(rule.includes@), true),
    ensures
        reports(style, *rule, *scan, now_unix, r),
{
    let findings: Vec<JunkFinding> = evaluate_with_set(
        style,
        rule,
        set,
        scan.base.as_str(),
        &scan.records,
        now_unix,
        &scan.broken,
    );
    proof {
        let recs = records(scan.records@);
        let matched = choose|matched: Seq<bool>| #[trigger]
            glob_matched(
                style,
                globs_of(views(rule.includes@), true),
                scan.base@,
                recs,
                matched,
            ) && finding_records(findings@) == flagged_records(
                style,
                *rule,
                scan.base@,
                recs,
                now_unix,
                matched,
                scan.broken@,
                recs.len() as int,
            );
        lemma_flagged_sum(
            style,
            *rule,
            scan.base@,
            recs,
            now_unix,
            matched,
            scan.broken@,
            recs.len() as int,
        );
        assert(recs.take(recs.len() as int) =~= recs);
    }
    let bytes: u64 = finding_bytes(&findings);
    RuleReport { rule: rule.clone(), base: scan.base.clone(), findings, bytes }
}

/// The report of one scanned rule, given what building its globs came to: a
/// report where there is a set, and none where the globs were refused.
pub fn evaluate_built(
    style: PathStyle,
    rule: &JunkRule,
    built: Result<globset::GlobSet, CoreError>,
    scan: &RuleScan,
    now_unix: i64,
) -> (r: Option<RuleReport>)
    requires
        scan.wf(),
        built matches Ok(set) ==> set_globs(set) == globs_of(views(rule.includes@), true),
    ensures
        match built {
            Ok(_) => r matches Some(p) && reports(style, *rule, *scan, now_unix, p),
            Err(_) => r is None,
        },
{
    match built {
        Ok(set) => Some(report_with_set(style, rule, &set, scan, now_unix)),
        Err(_) => None,
    }
}

/// The report of one scanned rule; nothing where its globs are refused.
pub fn evaluate_rule(style: PathStyle, rule: &JunkRule, scan: &RuleScan, now_unix: i64) -> (r: Option<
    RuleReport,
>)
    requires
        scan.wf(),
    ensures
        exists|built: Result<globset::GlobSet, CoreError>| #[trigger]
            include_outcome(*rule, built) && match built {
                Ok(_) => r matches Some(p) && reports(style, *rule, *scan, now_unix, p),
                Err(_) => r is None,
            },
{
    let built: Result<globset::GlobSet, CoreError> = build_include_set(rule);
    assert(include_outcome(*rule, built));
    evaluate_built(style, rule, built, scan, now_unix)
}

/// A rule has a report where its base was scanned and its globs were built.
pub open spec fn has_report(
    scan: Option<RuleScan>,
    built: Result<globset::GlobSet, CoreError>,
) -> bool {
    scan is Some && built is Ok
}

/// The reports cover, in order, exactly the rules that have one: report `k` is
/// that of rule `kept[k]`.
pub open spec fn all_reports(
    style: PathStyle,
    rules: Seq<JunkRule>,
    built: Seq<Result<globset::GlobSet, CoreError>>,
    scans: Seq<Option<RuleScan>>,
    now_unix: i64,
    out: Seq<RuleReport>,
    kept: Seq<int>,
) -> bool {
    &&& out.len() == kept.len()
    &&& forall|k: int|
        0 <= k < kept.len() ==> 0 <= (#[trigger] kept[k]) < rules.len() && reports(
            style,
            rules[kept[k]],
            scans[kept[k]]->0,
            now_unix,
            out[k],
        )
    &&& forall|k: int, l: int|
        0 <= k < l < kept.len() ==> (#[trigger] kept[k]) < (#[trigger] kept[l])
    &&& forall|i: int|
        0 <= i < rules.len() ==> (kept.contains(i) <==> has_report(#[trigger] scans[i], built[i]))
}

/// Each outcome is one of building the globs of its rule.
pub open spec fn include_outcomes(
    rules: Seq<JunkRule>,
    built: Seq<Result<globset::GlobSet, CoreError>>,
) -> bool {
    &&& built.len() == rules.len()
    &&& forall|i: int| 0 <= i < rules.len() ==> include_outcome(rules[i], #[trigger] built[i])
}

/// Evaluates each rule that was scanned and whose globs were built. A rule whose
/// base is missing (application not installed) or could not be scanned has no
/// scan; it is left out, and so is one whose globs were refused.
pub fn evaluate_all_built(
    style: PathStyle,
    rules: &Vec<JunkRule>,
    built: &Vec<Result<globset::GlobSet, CoreError>>,
    scans: &Vec<Option<RuleScan>>,
    now_unix: i64,
) -> (r: Vec<RuleReport>)
    requires
        rules@.len() == scans@.len() == built@.len(),
        forall|i: int| 0 <= i < scans@.len() ==> ((#[trigger] scans@[i]) matches Some(s) ==> s.wf()),
        forall|i: int|
            0 <= i < built@.len() ==> ((#[trigger] built@[i]) matches Ok(set) ==> set_globs(set)
                == globs_of(views(rules@[i].includes@), true)),
    ensures
        exists|kept: Seq<int>| #[trigger]
            all_reports(style, rules@, built@, scans@, now_unix, r@, kept),
{
    let mut out: Vec<RuleReport> = Vec::new();
    let ghost mut kept: Seq<int> = Seq::empty();
    let mut i: usize = 0;
    while i < rules.len()
        invariant
            i <= rules@.len() == scans@.len() == built@.len(),
            forall|k: int|
                0 <= k < scans@.len() ==> ((#[trigger] scans@[k]) matches Some(s) ==> s.wf()),
            forall|k: int|
                0 <= k < built@.len() ==> ((#[trigger] built@[k]) matches Ok(set) ==> set_globs(set)
                    == globs_of(views(rules@[k].includes@), true)),
            out@.len() == kept.len(),
            forall|k: int|
                0 <= k < kept.len() ==> 0 <= (#[trigger] kept[k]) < i && reports(
                    style,
                    rules@[kept[k]],
                    scans@[kept[k]]->0,
                    now_unix,
                    out@[k],
                ),
            forall|k: int, l: int|
                0 <= k < l < kept.len() ==> (#[trigger] kept[k]) < (#[trigger] kept[l]),
            forall|k: int|
                0 <= k < i ==> (kept.contains(k) <==> has_report(#[trigger] scans@[k], built@[k])),
        decreases rules@.len() - i,
    {
        let ghost kept0 = kept;
        assert(!kept0.contains(i as int));
        match (&scans[i], &built[i]) {
            (Some(scan), Ok(set)) => {
                assert(scans@[i as int] is Some && built@[i as int] is Ok);
                out.push(report_with_set(style, &rules[i], set, scan, now_unix));
                proof {
                    kept = kept.push(i as int);
                    assert(kept[kept0.len() as int] == i as int);
                    assert forall|k: int| 0 <= k < i + 1 implies (kept.contains(k) <==> has_report(
                        #[trigger] scans@[k],
                        built@[k],
                    )) by {
                        if kept0.contains(k) {
                            let j = choose|j: int| 0 <= j < kept0.len() && kept0[j] == k;
                            assert(kept[j] == k);
                        }
                        if kept.contains(k) && k < i {
                            let j = choose|j: int| 0 <= j < kept.len() && kept[j] == k;
                            assert(kept0[j] == k);
                        }
                    }
                }
            },
            _ => {
                assert(!has_report(scans@[i as int], built@[i as int]));
            },
        }
        i += 1;
    }
    assert(all_reports(style, rules@, built@, scans@, now_unix, out@, kept));
    out
}

/// Builds the globs of each rule and evaluates the scanned ones.
pub fn evaluate_all(
    style: PathStyle,
    rules: &Vec<JunkRule>,
    scans: &Vec<Option<RuleScan>>,
    now_unix: i64,
) -> (r: Vec<RuleReport>)
    requires
        rules@.len() == scans@.len(),
        forall|i: int| 0 <= i < scans@.len() ==> ((#[trigger] scans@[i]) matches Some(s) ==> s.wf()),
    ensures
        exists|built: Seq<Result<globset::GlobSet, CoreError>>, kept: Seq<int>|
            include_outcomes(rules@, built) && #[trigger] all_reports(
                style,
                rules@,
                built,
                scans@,
                now_unix,
                r@,
                kept,
            ),
{
    let mut built: Vec<Result<globset::GlobSet, CoreError>> = Vec::new();
    let mut i: usize = 0;
    while i < rules.len()
        invariant
            i <= rules@.len(),
            built@.len() == i,
            forall|k: int| 0 <= k < i ==> include_outcome(rules@[k], #[trigger] built@[k]),
        decreases rules@.len() - i,
    {
        built.push(build_include_set(&rules[i]));
        i += 1;
    }
    assert(include_outcomes(rules@, built@));
    evaluate_all_built(style, rules, &built, scans, now_unix)
}

// -------------------------------------------------------------------- laws --
/// A rule never flags anything outside its base, never a directory unless it
/// looks for empty ones, never the base itself as an empty directory, and
/// never anything younger than its minimum age.
pub proof fn law_flagged_is_safe(
    style: PathStyle,
    rule: JunkRule,
    base: Seq<char>,
    recs: Seq<Record>,
    now_unix: i64,
    matched: Seq<bool>,
    broken: Seq<bool>,
    n: int,
)
    requires
        0 <= n <= recs.len(),
    ensures
        forall|k: int|
            0 <= k < flagged_records(style, rule, base, recs, now_unix, matched, broken, n).len()
                ==> {
                let f = #[trigger] flagged_records(
                    style,
                    rule,
                    base,
                    recs,
                    now_unix,
                    matched,
                    broken,
                    n,
                )[k];
                &&& under(style, f.path, base)
                &&& f.is_dir ==> rule.predicate == MatchPredicate::EmptyDir && !same_path(
                    style,
                    f.path,
                    base,
                ) && !has_child(style, recs, f.path)
                &&& now_unix - f.modified >= rule.min_age_days * 86_400
                &&& recs.contains(f)
            },
    decreases n,
{
    if n > 0 {
        law_flagged_is_safe(style, rule, base, recs, now_unix, matched, broken, n - 1);
        let before = flagged_records(style, rule, base, recs, now_unix, matched, broken, n - 1);
        let now = flagged_records(style, rule, base, recs, now_unix, matched, broken, n);
        assert(recs.contains(recs[n - 1]));
        assert forall|k: int| 0 <= k < now.len() implies {
            let f = #[trigger] now[k];
            &&& under(style, f.path, base)
            &&& f.is_dir ==> rule.predicate == MatchPredicate::EmptyDir && !same_path(
                style,
                f.path,
                base,
            ) && !has_child(style, recs, f.path)
            &&& now_unix - f.modified >= rule.min_age_days * 86_400
            &&& recs.contains(f)
        } by {
            if k < before.len() {
                assert(now[k] == before[k]);
            }
        }
    }
}

} // verus!
