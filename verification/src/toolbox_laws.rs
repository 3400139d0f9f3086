//! How the toolbox writes, checks and chooses its commands, and what it measures.
use crate::catalog::{reason, term_commands, Presence};
use crate::env::Env;
use crate::lists::sum;
use crate::rules_laws::{lemma_next_percent, without_percent};
use crate::text::{is_white, trimmed};
use crate::text_laws::law_controls_are_the_two_blocks;
use crate::toolbox::{
    entry_bytes, entry_dirs, known_bytes, pid_argument, position, probed, quoted, shown_line,
    substituted, term_error, Mode, Probe, SizedEntry, ToolView,
};
use crate::toolrun::{tool_plan, PlanView};
use vstd::prelude::*;
use vstd::utf8::encode_utf8;

verus! {

// ------------------------------------------------------------- placeholders --
/// In a command a name between two percent signs is replaced by its value; a name
/// that is not set stays as it is written, and so does everything around it.
pub proof fn law_unset_names_stay_as_written(
    env: Env,
    front: Seq<char>,
    name: Seq<char>,
    rest: Seq<char>,
)
    requires
        without_percent(front),
        without_percent(name),
        name.len() > 0,
    ensures
        substituted(env, front + seq!['%'] + name + seq!['%'] + rest) == match env.value(name) {
            Some(v) => front + v + substituted(env, rest),
            None => front + (seq!['%'] + name + seq!['%']) + substituted(env, rest),
        },
        substituted(env, front) == front,
{
    let s = front + seq!['%'] + name + seq!['%'] + rest;
    let i = front.len() as int;
    let j = i + 1 + name.len() as int;
    assert(s[i] == '%' && s[j] == '%');
    assert forall|k: int| 0 <= k < i implies #[trigger] s[k] != '%' by {
        assert(s[k] == front[k]);
    }
    assert forall|k: int| i + 1 <= k < j implies #[trigger] s[k] != '%' by {
        assert(s[k] == name[k - i - 1]);
    }
    lemma_next_percent(s, 0, i);
    lemma_next_percent(s, i + 1, j);
    assert(s.subrange(i + 1, j) =~= name);
    assert(s.skip(j + 1) =~= rest);
    assert(s.take(i) =~= front);
    if front.contains('%') {
        let k = choose|k: int| 0 <= k < front.len() && front[k] == '%';
        assert(front[k] != '%');
    }
    crate::toolbox::lemma_substituted_plain(env, front);
}

// ------------------------------------------------------------------- display --
/// A word is shown in quotes if it is empty or holds white, and as it is
/// otherwise.
pub proof fn law_words_with_white_are_quoted(s: Seq<char>, i: int)
    ensures
        s.len() == 0 ==> quoted(s) == seq!['"', '"'],
        0 <= i < s.len() && is_white(s[i]) ==> quoted(s) == seq!['"'] + s + seq!['"'],
        s.len() > 0 && (forall|k: int| 0 <= k < s.len() ==> !is_white(#[trigger] s[k])) ==> quoted(
            s,
        ) == s,
{
    if s.len() == 0 {
        assert(seq!['"'] + s + seq!['"'] =~= seq!['"', '"']);
    }
}

/// The words of a command are shown in order with one blank between them.
pub proof fn law_words_are_shown_in_order(
    program: Seq<char>,
    args: Seq<Seq<char>>,
    more: Seq<char>,
)
    ensures
        shown_line(program, Seq::empty()) == quoted(program),
        shown_line(program, args.push(more)) == shown_line(program, args) + seq![' '] + quoted(more),
{
    assert(args.push(more).drop_last() =~= args);
}

// --------------------------------------------------------------------- terms --
/// A search term is accepted exactly if it is not empty, has at most 128 bytes,
/// does not look like an option and holds no control character.
pub proof fn law_which_terms_are_accepted(term: Seq<char>)
    ensures
        term_error(term) is None <==> {
            &&& term.len() > 0
            &&& encode_utf8(term).len() <= 128
            &&& term[0] != '-' && term[0] != '/'
            &&& forall|i: int|
                0 <= i < term.len() ==> !((#[trigger] term[i]) < ' ' || '\u{7f}' <= term[i]
                    <= '\u{9f}')
        },
{
    if term_error(term) is None {
        assert forall|i: int| 0 <= i < term.len() implies !((#[trigger] term[i]) < ' ' || '\u{7f}'
            <= term[i] <= '\u{9f}') by {
            law_controls_are_the_two_blocks(term[i]);
            assert(!crate::text::is_control(term[i]));
        }
    }
    if exists|i: int| 0 <= i < term.len() && crate::text::is_control(#[trigger] term[i]) {
        let i = choose|i: int| 0 <= i < term.len() && crate::text::is_control(#[trigger] term[i]);
        law_controls_are_the_two_blocks(term[i]);
        assert(term[i] < ' ' || '\u{7f}' <= term[i] <= '\u{9f}');
    }
}

// ------------------------------------------------------------------ measures --
/// The size of directories is the sum of those that could be measured, and there
/// is none where not one could; a file's size is its own.
pub proof fn law_probes_add_up_what_is_there(probe: Probe, sizes: Seq<Option<u64>>)
    ensures
        probe is Nothing ==> probed(probe, sizes) is None,
        probe is File && sizes.len() == 1 ==> (probed(probe, sizes) is Some <==> sizes[0] is Some)
            && (sizes[0] matches Some(n) ==> probed(probe, sizes) == Some(n as int)),
        probe is Dirs && (forall|i: int| 0 <= i < sizes.len() ==> (#[trigger] sizes[i]) is None)
            ==> probed(probe, sizes) is None,
        probe is Dirs && (exists|i: int| 0 <= i < sizes.len() && (#[trigger] sizes[i]) is Some)
            ==> probed(probe, sizes) == Some(
            sum(
                sizes,
                |o: Option<u64>|
                    match o {
                        Some(n) => n as nat,
                        None => 0nat,
                    },
            ) as int,
        ),
{
    lemma_known_bytes(sizes);
}

proof fn lemma_known_bytes(sizes: Seq<Option<u64>>)
    ensures
        known_bytes(sizes) == sum(
            sizes,
            |o: Option<u64>|
                match o {
                    Some(n) => n as nat,
                    None => 0nat,
                },
        ),
    decreases sizes.len(),
{
    if sizes.len() > 0 {
        lemma_known_bytes(sizes.drop_last());
    }
}

/// Measuring a tree adds up the lengths of its files, whatever else is there, and
/// goes on into its directories; links are not followed.
pub proof fn law_sizes_are_those_of_files(v: Seq<SizedEntry>)
    ensures
        entry_bytes(v) == sum(
            v,
            |e: SizedEntry|
                if e.kind is File && e.len is Some {
                    e.len->0 as nat
                } else {
                    0nat
                },
        ),
        forall|i: int|
            0 <= i < v.len() && (#[trigger] v[i]).kind is Directory ==> entry_dirs(v).contains(
                v[i].path@,
            ),
        entry_dirs(v).len() == sum(
            v,
            |e: SizedEntry|
                if e.kind is Directory {
                    1nat
                } else {
                    0nat
                },
        ),
    decreases v.len(),
{
    if v.len() > 0 {
        let front = v.drop_last();
        law_sizes_are_those_of_files(front);
        let before = entry_dirs(front);
        assert forall|i: int| 0 <= i < v.len() && (#[trigger] v[i]).kind is Directory implies entry_dirs(
            v,
        ).contains(v[i].path@) by {
            if i < front.len() {
                assert(front[i] == v[i]);
                let k = choose|k: int| 0 <= k < before.len() && before[k] == v[i].path@;
                assert(entry_dirs(v)[k] == v[i].path@);
            } else {
                assert(entry_dirs(v)[before.len() as int] == v[i].path@);
            }
        }
    }
}

// --------------------------------------------------------------------- plans --
/// What a tool runs is what it was asked for: its own check in check mode, its own
/// action in action mode, and only while nothing else runs, with the rights it
/// needs and where it is available. A tool that takes a term runs with the term as
/// it was typed, without white around it.
pub proof fn law_a_tool_runs_what_was_asked_for(
    t: ToolView,
    mode: Mode,
    env: Env,
    winget: Seq<char>,
    elevated: bool,
    here: Presence,
    input: Seq<char>,
    busy: bool,
)
    ensures
        ({
            let plan = tool_plan(t, mode, env, winget, elevated, here, input, busy);
            let free = (elevated || !t.needs_admin) && reason(t.id, here) is None;
            &&& plan is Run ==> free && !busy && !(mode is Open)
            &&& t.input is Nothing && mode is Check && free && !busy && t.check.len() > 0 ==> plan
                == (PlanView::Run { steps: t.check })
            &&& t.input is Nothing && mode is Action && free && !busy && t.action.len() > 0 ==> plan
                == (PlanView::Run { steps: t.action })
            &&& t.input is WingetTerm && !(mode is Open) && free && !busy && term_error(
                trimmed(input),
            ) is None && term_commands(mode, env, winget, trimmed(input)).len() > 0 ==> plan == (
            PlanView::Run { steps: term_commands(mode, env, winget, trimmed(input)) })
            &&& mode is Open && free ==> (t.open matches Some(cmd) ==> plan == (PlanView::Open {
                cmd,
            }))
            &&& !free ==> plan is Refuse
            &&& busy && !(mode is Open) ==> plan is Refuse
            &&& t.input is WingetTerm && !(mode is Open) && term_error(trimmed(input)) is Some
                ==> plan is Refuse
        }),
{
}

/// A process waits for the first number that follows the flag, and for none where
/// the flag is missing or nothing follows it.
pub proof fn law_the_pid_follows_the_flag(args: Seq<Seq<char>>, i: int)
    requires
        0 <= i < args.len(),
        args[i] == "--wait-for-pid"@,
        forall|k: int| 0 <= k < i ==> #[trigger] args[k] != "--wait-for-pid"@,
    ensures
        i + 1 < args.len() ==> pid_argument(args) == crate::text::u32_value(args[i + 1]),
        i + 1 == args.len() ==> pid_argument(args) is None,
{
    lemma_position(args, 0, i);
}

proof fn lemma_position(args: Seq<Seq<char>>, from: int, i: int)
    requires
        0 <= from <= i < args.len(),
        args[i] == "--wait-for-pid"@,
        forall|k: int| 0 <= k < i ==> #[trigger] args[k] != "--wait-for-pid"@,
    ensures
        position(args, "--wait-for-pid"@, from) == Some(i),
    decreases i - from,
{
    if from < i {
        lemma_position(args, from + 1, i);
    }
}

} // verus!
