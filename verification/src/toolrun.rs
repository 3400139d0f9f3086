//! Which commands a tool runs: the user names a tool and a mode, and the command
//! line is derived from the catalog here.
use crate::catalog::{
    find_tool, first_with_id, platform_tools, reason, term_commands, unavailable_reason,
    winget_cmds, winget_program, Presence,
};
use crate::env::Env;
use crate::paths::opt_view;
use crate::text::{copy, join2, join3, trimmed};
use crate::toolbox::{
    cmds, shown_line, term_error, validate_winget_term, Cmd, CmdView, Input, Mode, Tool, ToolView,
};
use crate::types::Platform;
use vstd::prelude::*;

verus! {

/// What is to be done.
pub enum ToolPlan {
    /// Launch and forget.
    Open(Cmd),
    /// Run the steps in order.
    Run(Vec<Cmd>),
}

/// What is to be done, or why nothing is.
#[verifier::ext_equal]
pub enum PlanView {
    Open { cmd: CmdView },
    Run { steps: Seq<CmdView> },
    Refuse { why: Seq<char> },
}

pub open spec fn plan_view(r: Result<ToolPlan, String>) -> PlanView {
    match r {
        Ok(ToolPlan::Open(c)) => PlanView::Open { cmd: c@ },
        Ok(ToolPlan::Run(v)) => PlanView::Run { steps: cmds(v@) },
        Err(e) => PlanView::Refuse { why: e@ },
    }
}

/// The mode that a text names.
pub open spec fn mode_of(s: Seq<char>) -> Option<Mode> {
    if s == "check"@ {
        Some(Mode::Check)
    } else if s == "action"@ {
        Some(Mode::Action)
    } else if s == "open"@ {
        Some(Mode::Open)
    } else {
        None
    }
}

/// The text that goes with the request.
pub open spec fn input_text(input: Option<String>) -> Seq<char> {
    match input {
        Some(s) => s@,
        None => Seq::empty(),
    }
}

/// Steps to run; a tool without such steps, or one that would run beside
/// another, is refused.
pub open spec fn steps_plan(steps: Seq<CmdView>, busy: bool) -> PlanView {
    if steps.len() == 0 {
        PlanView::Refuse { why: "This tool has no such command."@ }
    } else if busy {
        PlanView::Refuse {
            why: "Another tool is still running. Wait for it or cancel it first."@,
        }
    } else {
        PlanView::Run { steps }
    }
}

/// What is done with a tool of the catalog.
pub open spec fn tool_plan(
    t: ToolView,
    mode: Mode,
    env: Env,
    winget: Seq<char>,
    elevated: bool,
    here: Presence,
    input: Seq<char>,
    busy: bool,
) -> PlanView {
    if t.needs_admin && !elevated {
        PlanView::Refuse {
            why:
                "This tool needs administrator rights. Restart Clean Master as administrator first."@,
        }
    } else {
        match reason(t.id, here) {
            Some(why) => PlanView::Refuse {
                why: "Tool is not available right now ("@ + why + ")."@,
            },
            None => match (mode, t.input) {
                (Mode::Open, _) => match t.open {
                    Some(cmd) => PlanView::Open { cmd },
                    None => PlanView::Refuse { why: "This tool has nothing to open."@ },
                },
                (m, Input::WingetTerm) => match term_error(trimmed(input)) {
                    Some(why) => PlanView::Refuse { why },
                    None => steps_plan(term_commands(m, env, winget, trimmed(input)), busy),
                },
                (Mode::Check, _) => steps_plan(t.check, busy),
                (Mode::Action, _) => steps_plan(t.action, busy),
            },
        }
    }
}

fn steps_or_error(steps: Vec<Cmd>, busy: bool) -> (r: Result<ToolPlan, String>)
    ensures
        plan_view(r) == steps_plan(cmds(steps@), busy),
{
    assert(cmds(steps@).len() == steps@.len());
    if steps.len() == 0 {
        Err(copy("This tool has no such command."))
    } else if busy {
        Err(copy("Another tool is still running. Wait for it or cancel it first."))
    } else {
        Ok(ToolPlan::Run(steps))
    }
}

/// Who asks, and in which state the machine is.
pub struct ToolRequest {
    pub id: String,
    pub mode: String,
    pub input: Option<String>,
    /// This process is elevated.
    pub elevated: bool,
    /// A tool is running already.
    pub busy: bool,
    /// Where winget was found.
    pub winget: Option<String>,
    pub here: Presence,
}

/// What to do for a request; anything that is not in the catalog is refused.
pub open spec fn request_plan(platform: Platform, env: Env, q: ToolRequest) -> PlanView {
    match first_with_id(platform_tools(platform, env, opt_view(q.winget)), q.id@) {
        None => PlanView::Refuse { why: "Unknown tool: "@ + q.id@ },
        Some(t) => match mode_of(q.mode@) {
            None => PlanView::Refuse { why: "Unknown mode: "@ + q.mode@ },
            Some(mode) => tool_plan(
                t,
                mode,
                env,
                winget_program(opt_view(q.winget)),
                q.elevated,
                q.here,
                input_text(q.input),
                q.busy,
            ),
        },
    }
}

pub fn plan_request(platform: Platform, env: &Env, q: &ToolRequest) -> (r: Result<
    ToolPlan,
    String,
>)
    ensures
        plan_view(r) == request_plan(platform, *env, *q),
{
    let tool: Tool = match find_tool(platform, env, &q.winget, q.id.as_str()) {
        Some(t) => t,
        None => {
            return Err(join2("Unknown tool: ", q.id.as_str()));
        },
    };
    let mode: Mode = match Mode::parse(q.mode.as_str()) {
        Some(m) => m,
        None => {
            return Err(join2("Unknown mode: ", q.mode.as_str()));
        },
    };
    if tool.needs_admin && !q.elevated {
        return Err(
            copy(
                "This tool needs administrator rights. Restart Clean Master as administrator first.",
            ),
        );
    }
    match unavailable_reason(&tool, &q.here) {
        Some(why) => {
            return Err(join3("Tool is not available right now (", why, ")."));
        },
        None => {},
    }
    match (mode, tool.input) {
        (Mode::Open, _) => match tool.open {
            Some(c) => Ok(ToolPlan::Open(c)),
            None => Err(copy("This tool has nothing to open.")),
        },
        (m, Input::WingetTerm) => {
            let raw: String = match &q.input {
                Some(s) => s.clone(),
                None => String::new(),
            };
            match validate_winget_term(raw.as_str()) {
                Ok(term) => steps_or_error(
                    winget_cmds(m, term.as_str(), env, &q.winget),
                    q.busy,
                ),
                Err(e) => Err(e),
            }
        },
        (Mode::Check, _) => steps_or_error(tool.check, q.busy),
        (Mode::Action, _) => steps_or_error(tool.action, q.busy),
    }
}

/// No request can make a command line of its own: what is run is in the catalog,
/// or is a winget command around one validated term.
pub proof fn law_only_catalog_commands_run(platform: Platform, env: Env, q: ToolRequest)
    ensures
        request_plan(platform, env, q) matches PlanView::Run { steps } ==> {
            let t = first_with_id(platform_tools(platform, env, opt_view(q.winget)), q.id@);
            &&& t is Some
            &&& steps == t->0.check || steps == t->0.action || (t->0.input is WingetTerm
                && term_error(trimmed(input_text(q.input))) is None && exists|m: Mode|
                steps == #[trigger] term_commands(
                    m,
                    env,
                    winget_program(opt_view(q.winget)),
                    trimmed(input_text(q.input)),
                ))
        },
        request_plan(platform, env, q) matches PlanView::Open { cmd } ==> {
            let t = first_with_id(platform_tools(platform, env, opt_view(q.winget)), q.id@);
            t is Some && t->0.open == Some(cmd)
        },
{
    match mode_of(q.mode@) {
        Some(m) => {
            let x = term_commands(
                m,
                env,
                winget_program(opt_view(q.winget)),
                trimmed(input_text(q.input)),
            );
        },
        None => {},
    }
}

/// A tool that needs an administrator never runs without one.
pub proof fn law_admin_tools_need_elevation(platform: Platform, env: Env, q: ToolRequest)
    requires
        !q.elevated,
        first_with_id(platform_tools(platform, env, opt_view(q.winget)), q.id@) matches Some(t)
            && t.needs_admin,
    ensures
        request_plan(platform, env, q) is Refuse,
{
}

/// The command lines of some commands, one per line.
pub open spec fn joined_lines(v: Seq<CmdView>) -> Seq<char>
    decreases v.len(),
{
    if v.len() == 0 {
        Seq::empty()
    } else if v.len() == 1 {
        shown_line(v[0].program, v[0].args)
    } else {
        joined_lines(v.drop_last()) + seq!['\n'] + shown_line(v.last().program, v.last().args)
    }
}

/// Literal command lines, for the card and the confirm dialog.
pub fn join_cmds(v: &Vec<Cmd>) -> (r: String)
    ensures
        r@ == joined_lines(cmds(v@)),
{
    let ghost all = cmds(v@);
    let mut out: String = String::new();
    let mut i: usize = 0;
    assert(out@ =~= joined_lines(all.take(0)));
    while i < v.len()
        invariant
            i <= v@.len(),
            all == cmds(v@),
            out@ == joined_lines(all.take(i as int)),
        decreases v@.len() - i,
    {
        let ghost t = all.take(i + 1);
        assert(t.drop_last() =~= all.take(i as int));
        assert(t.last() == v@[i as int]@);
        if i > 0 {
            out.push('\n');
        }
        out.push_str(v[i].display().as_str());
        assert(out@ =~= joined_lines(t));
        i += 1;
    }
    assert(all.take(i as int) =~= all);
    out
}

/// Another instance is started only while no tool runs.
pub fn check_idle(busy: bool) -> (r: Result<(), String>)
    ensures
        match r {
            Ok(_) => !busy,
            Err(e) => busy && e@
                == "A tool is still running. Wait for it or cancel it first."@,
        },
{
    if busy {
        Err(copy("A tool is still running. Wait for it or cancel it first."))
    } else {
        Ok(())
    }
}

/// The file manager with a path selected. It only shows the file, and the path
/// travels as an argument, never through a shell.
pub fn reveal_cmd(platform: Platform, path: &str, exists: bool) -> (r: Result<Cmd, String>)
    ensures
        match r {
            Ok(c) => exists && !(platform is Other) && c@ == match platform {
                Platform::Windows => CmdView {
                    program: "explorer"@,
                    args: seq!["/select,"@ + path@],
                },
                _ => CmdView { program: "open"@, args: seq!["-R"@, path@] },
            },
            Err(e) => if !exists {
                e@ == "No longer exists: "@ + path@
            } else {
                platform is Other && e@ == "Reveal is not supported on this platform."@
            },
        },
{
    if !exists {
        return Err(join2("No longer exists: ", path));
    }
    let mut args: Vec<String> = Vec::new();
    match platform {
        Platform::Windows => {
            args.push(join2("/select,", path));
            let c: Cmd = Cmd { program: copy("explorer"), args };
            assert(c@.args =~= seq!["/select,"@ + path@]);
            Ok(c)
        },
        Platform::MacOs => {
            args.push(copy("-R"));
            args.push(copy(path));
            let c: Cmd = Cmd { program: copy("open"), args };
            assert(c@.args =~= seq!["-R"@, path@]);
            Ok(c)
        },
        Platform::Other => Err(copy("Reveal is not supported on this platform.")),
    }
}

} // verus!
