//! Running the steps of a tool: what happens after each event.
//!
//! The caller starts the processes, reads their output and watches them; which
//! step comes next, and when the run is over, is decided here.
use crate::text::join2;
use crate::toolbox::{shown_line, Cmd};
use vstd::prelude::*;

verus! {

#[derive(Debug)]
pub struct RunOutcome {
    /// Exit code of the last step that ran (None if killed).
    pub exit_code: Option<i32>,
    /// Every step exited 0.
    pub success: bool,
    pub cancelled: bool,
    pub steps_run: usize,
}

/// What the caller has to do next.
#[derive(Debug)]
pub enum Next {
    /// Show this line and start the current step.
    Start { line: String },
    /// The run is over.
    Finished,
}

/// What became of the running process.
#[derive(Debug)]
pub enum Poll {
    Running,
    /// It ended; there is no code where a signal killed it.
    Exited { code: Option<i32> },
    /// The run was cancelled, and the process was killed.
    Cancelled,
    /// Waiting for it failed.
    Failed { message: String },
}

#[derive(Debug, Clone, Copy, PartialEq, Eq, Structural)]
pub enum Phase {
    /// No process runs; the next step can start.
    Between,
    /// The process of the current step runs.
    Running,
    /// Nothing is left to do.
    Over,
}

/// A run of some steps, in order, up to the first that fails.
pub struct StepRun {
    pub steps: Vec<Cmd>,
    pub phase: Phase,
    /// The exit codes of the steps that ended, in order.
    pub codes: Vec<Option<i32>>,
    pub outcome: RunOutcome,
}

/// Every one of the first `n` codes is 0.
pub open spec fn all_zero(codes: Seq<Option<i32>>, n: int) -> bool {
    forall|i: int| 0 <= i < n ==> #[trigger] codes[i] == Some(0i32)
}

impl StepRun {
    /// How many steps have ended.
    pub open spec fn at(&self) -> nat {
        self.codes@.len()
    }

    /// The run was cancelled while a step ran.
    pub open spec fn killed(&self) -> bool {
        self.outcome.cancelled && self.outcome.steps_run > self.at()
    }

    /// - A step is started only after every step before it exited with 0.
    /// - The exit code is that of the last step that ended; there is none where
    ///   the last step that ran was killed because the run was cancelled.
    /// - A run that is over was a success if and only if every step exited
    ///   with 0, and it was not cancelled in that case.
    pub open spec fn wf(&self) -> bool {
        let o = self.outcome;
        &&& self.codes@.len() <= self.steps@.len()
        &&& all_zero(self.codes@, self.codes@.len() - 1)
        &&& o.exit_code == if self.codes@.len() == 0 || self.killed() {
            None
        } else {
            self.codes@.last()
        }
        &&& self.phase is Running ==> self.at() < self.steps@.len() && o.steps_run == self.at() + 1
        &&& self.phase is Between ==> o.steps_run == self.at()
        &&& self.at() <= o.steps_run <= self.steps@.len()
        &&& !(self.phase is Over) ==> !o.success && !o.cancelled && all_zero(
            self.codes@,
            self.codes@.len() as int,
        )
        &&& self.phase is Over ==> (o.success <==> self.codes@.len() == self.steps@.len()
            && all_zero(self.codes@, self.codes@.len() as int))
        &&& o.success ==> !o.cancelled && o.steps_run == self.steps@.len()
    }

    pub fn new(steps: Vec<Cmd>) -> (r: Self)
        ensures
            r.wf(),
            r.steps == steps,
            r.codes@.len() == 0,
            r.phase is Between,
            r.outcome == (RunOutcome {
                exit_code: None,
                success: false,
                cancelled: false,
                steps_run: 0,
            }),
    {
        StepRun {
            steps,
            phase: Phase::Between,
            codes: Vec::new(),
            outcome: RunOutcome { exit_code: None, success: false, cancelled: false, steps_run: 0 },
        }
    }

    /// Between two steps: the run ends where no step is left, or where it was
    /// cancelled; otherwise the next step is shown and started.
    pub fn next(&mut self, cancelled: bool) -> (r: Next)
        requires
            old(self).wf(),
            old(self).phase is Between,
        ensures
            final(self).wf(),
            final(self).steps == old(self).steps,
            final(self).codes == old(self).codes,
            final(self).outcome.exit_code == old(self).outcome.exit_code,
            final(self).outcome.steps_run == old(self).outcome.steps_run,
            if old(self).at() == old(self).steps@.len() {
                &&& r is Finished
                &&& final(self).phase is Over
                &&& final(self).outcome.success
                &&& !final(self).outcome.cancelled
            } else if cancelled {
                &&& r is Finished
                &&& final(self).phase is Over
                &&& !final(self).outcome.success
                &&& final(self).outcome.cancelled
            } else {
                &&& r matches Next::Start { line } && line@ == seq!['>', ' '] + shown_line(
                    old(self).steps@[old(self).at() as int]@.program,
                    old(self).steps@[old(self).at() as int]@.args,
                )
                &&& final(self).phase is Between
                &&& final(self).outcome == old(self).outcome
            },
    {
        if self.codes.len() == self.steps.len() {
            self.outcome.success = true;
            self.phase = Phase::Over;
            return Next::Finished;
        }
        if cancelled {
            self.outcome.cancelled = true;
            self.phase = Phase::Over;
            return Next::Finished;
        }
        let mut line: String = String::new();
        line.push('>');
        line.push(' ');
        line.push_str(self.steps[self.codes.len()].display().as_str());
        assert(line@ =~= seq!['>', ' '] + shown_line(
            self.steps@[self.at() as int]@.program,
            self.steps@[self.at() as int]@.args,
        ));
        Next::Start { line }
    }

    /// The current step was started, or could not be.
    pub fn started(&mut self, failure: Option<String>) -> (r: Result<(), String>)
        requires
            old(self).wf(),
            old(self).phase is Between,
            old(self).at() < old(self).steps@.len(),
        ensures
            final(self).wf(),
            final(self).steps == old(self).steps,
            final(self).codes == old(self).codes,
            match failure {
                None => {
                    &&& r is Ok
                    &&& final(self).phase is Running
                    &&& final(self).outcome == (RunOutcome {
                        steps_run: (old(self).outcome.steps_run + 1) as usize,
                        ..old(self).outcome
                    })
                },
                Some(e) => {
                    &&& r matches Err(m) && m@ == "could not start "@ + old(self).steps@[old(
                        self,
                    ).at() as int].program@ + ": "@ + e@
                    &&& final(self).phase is Over
                    &&& final(self).outcome == old(self).outcome
                },
            },
    {
        match failure {
            None => {
                let total: usize = self.steps.len();
                assert(self.outcome.steps_run < total);
                self.outcome.steps_run = self.outcome.steps_run + 1;
                self.phase = Phase::Running;
                Ok(())
            },
            Some(e) => {
                self.phase = Phase::Over;
                Err(self.steps[self.codes.len()].start_error(e.as_str()))
            },
        }
    }

    /// The running process was looked at.
    pub fn polled(&mut self, poll: Poll) -> (r: Result<(), String>)
        requires
            old(self).wf(),
            old(self).phase is Running,
        ensures
            final(self).wf(),
            final(self).steps == old(self).steps,
            match poll {
                Poll::Running => r is Ok && *final(self) == *old(self),
                Poll::Exited { code } => {
                    &&& r is Ok
                    &&& final(self).phase == if code == Some(0i32) {
                        Phase::Between
                    } else {
                        Phase::Over
                    }
                    &&& final(self).codes@ == old(self).codes@.push(code)
                    &&& final(self).outcome == (RunOutcome { exit_code: code, ..old(self).outcome })
                },
                Poll::Cancelled => {
                    &&& r is Ok
                    &&& final(self).phase is Over
                    &&& final(self).codes == old(self).codes
                    &&& final(self).outcome == (RunOutcome {
                        cancelled: true,
                        exit_code: None,
                        ..old(self).outcome
                    })
                },
                Poll::Failed { message } => {
                    &&& r matches Err(m) && m@ == "wait failed: "@ + message@
                    &&& final(self).phase is Over
                    &&& final(self).codes == old(self).codes
                    &&& final(self).outcome == old(self).outcome
                },
            },
    {
        match poll {
            Poll::Running => Ok(()),
            Poll::Exited { code } => {
                let ok: bool = match code {
                    Some(c) => c == 0,
                    None => false,
                };
                self.outcome.exit_code = code;
                self.codes.push(code);
                self.phase = if ok {
                    Phase::Between
                } else {
                    Phase::Over
                };
                Ok(())
            },
            Poll::Cancelled => {
                self.outcome.cancelled = true;
                self.outcome.exit_code = None;
                self.phase = Phase::Over;
                Ok(())
            },
            Poll::Failed { message } => {
                self.phase = Phase::Over;
                Err(join2("wait failed: ", message.as_str()))
            },
        }
    }
}

} // verus!
