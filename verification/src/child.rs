//! The child's side of a fork: the ordered steps it takes before it exits,
//! and the machine that turns them into system-level actions one at a
//! time, given whether each action succeeded.
//!
//! Once a required action fails, the child takes no further required
//! action: it only releases what it still owns, and exits with status 101,
//! as when its setup or its action panics.

use vstd::prelude::*;

use crate::fd::FdTable;
use crate::sys::{child_exit_status, spec_child_exit_status};

verus! {

/// One step the child takes, in order.
#[derive(Clone, Debug, PartialEq, Eq)]
pub enum ChildStep {
    /// Start a new session, losing the inherited controlling terminal.
    NewSession,
    /// Release a descriptor the child owns but does not use: close it,
    /// ignoring any error. Taken whatever failed before.
    Release(i32),
    /// Make the second descriptor refer to what the first refers to
    /// (`dup2`). Required: it must succeed.
    Redirect(i32, i32),
    /// The descriptor is already where it belongs and is handed over open.
    /// If something failed before, it is released instead.
    Adopt(i32),
    /// Open the pty slave with this path for reading and writing, making it
    /// the controlling terminal, and keep it open until the action has
    /// returned. Required.
    OpenTerminal(Vec<u8>),
    /// Run the child's action. Required: a panic counts as a failure.
    RunAction,
}

/// What the child process does next.
#[derive(Clone, Debug, PartialEq, Eq)]
pub enum ChildAction {
    /// Nothing: the step is skipped because something failed before.
    Nothing,
    /// `setsid()`.
    NewSession,
    /// `close(fd)`; its result does not matter.
    Close(i32),
    /// `dup2(old, new)`.
    Dup2(i32, i32),
    /// Open the pty slave with this path and keep it open until the
    /// action has returned.
    OpenTerminal(Vec<u8>),
    /// Run the action, catching a panic.
    RunAction,
    /// `_exit(status)`.
    Exit(i32),
}

/// Whether a step must succeed.
pub open spec fn required(step: ChildStep) -> bool {
    match step {
        ChildStep::NewSession => true,
        ChildStep::Release(_) => false,
        ChildStep::Redirect(_, _) => true,
        ChildStep::Adopt(_) => false,
        ChildStep::OpenTerminal(_) => true,
        ChildStep::RunAction => true,
    }
}

/// The action a step becomes, depending on whether something failed
/// before it.
pub open spec fn spec_action(step: ChildStep, failed: bool) -> ChildAction {
    match step {
        ChildStep::NewSession => if failed {
            ChildAction::Nothing
        } else {
            ChildAction::NewSession
        },
        ChildStep::Release(fd) => ChildAction::Close(fd),
        ChildStep::Redirect(old, new) => if failed {
            ChildAction::Nothing
        } else {
            ChildAction::Dup2(old, new)
        },
        ChildStep::Adopt(fd) => if failed {
            ChildAction::Close(fd)
        } else {
            ChildAction::Nothing
        },
        ChildStep::OpenTerminal(name) => if failed {
            ChildAction::Nothing
        } else {
            ChildAction::OpenTerminal(name)
        },
        ChildStep::RunAction => if failed {
            ChildAction::Nothing
        } else {
            ChildAction::RunAction
        },
    }
}

/// The child's progress through its steps.
pub struct ChildRun {
    rest: Vec<ChildStep>,
    failed: bool,
    pending: bool,
}

impl ChildRun {
    /// The steps still to take, in order.
    pub closed spec fn steps(self) -> Seq<ChildStep> {
        self.rest@
    }

    /// Whether a required action has failed.
    pub closed spec fn failed(self) -> bool {
        self.failed
    }

    /// Whether the last action handed out was a required one, whose
    /// outcome the next call reports.
    pub closed spec fn pending(self) -> bool {
        self.pending
    }

    /// A run that has yet to take the given steps, with nothing failed.
    pub fn new(steps: Vec<ChildStep>) -> (r: ChildRun)
        ensures
            r.steps() == steps@,
            !r.failed(),
            !r.pending(),
    {
        ChildRun { rest: steps, failed: false, pending: false }
    }

    /// Reports whether the last action handed out succeeded (ignored
    /// unless that action was required), and hands out the next action.
    /// When no step is left the action is `Exit` with status 0 if every
    /// required action succeeded, 101 otherwise.
    pub fn next(&mut self, last_succeeded: bool) -> (a: ChildAction)
        ensures
            ({
                let failed = old(self).failed() || (old(self).pending() && !last_succeeded);
                &&& final(self).failed() == failed
                &&& old(self).steps().len() == 0 ==> a == ChildAction::Exit(
                    if failed {
                        101i32
                    } else {
                        0i32
                    },
                )
                &&& old(self).steps().len() == 0 ==> a == ChildAction::Exit(
                    spec_child_exit_status(!failed),
                ) && final(self).steps() == old(self).steps() && !final(self).pending()
                &&& old(self).steps().len() > 0 ==> a == spec_action(old(self).steps()[0], failed)
                    && final(self).steps() == old(self).steps().drop_first() && final(self).pending()
                    == (required(old(self).steps()[0]) && !failed)
                &&& old(self).steps().len() > 0 && !failed ==> match old(self).steps()[0] {
                    ChildStep::NewSession => a == ChildAction::NewSession,
                    ChildStep::Release(fd) => a == ChildAction::Close(fd),
                    ChildStep::Redirect(old_fd, new_fd) => a == ChildAction::Dup2(old_fd, new_fd),
                    ChildStep::Adopt(_) => a == ChildAction::Nothing,
                    ChildStep::OpenTerminal(name) => a == ChildAction::OpenTerminal(name),
                    ChildStep::RunAction => a == ChildAction::RunAction,
                }
                &&& old(self).steps().len() > 0 && failed ==> match old(self).steps()[0] {
                    ChildStep::Release(fd) => a == ChildAction::Close(fd),
                    ChildStep::Adopt(fd) => a == ChildAction::Close(fd),
                    _ => a == ChildAction::Nothing,
                }
            }),
    {
        if self.pending && !last_succeeded {
            self.failed = true;
        }
        if self.rest.len() == 0 {
            self.pending = false;
            return ChildAction::Exit(child_exit_status(!self.failed));
        }
        let step = self.rest.remove(0);
        let failed = self.failed;
        let (action, req) = match step {
            ChildStep::NewSession => (
                if failed {
                    ChildAction::Nothing
                } else {
                    ChildAction::NewSession
                },
                true,
            ),
            ChildStep::Release(fd) => (ChildAction::Close(fd), false),
            ChildStep::Redirect(old, new) => (
                if failed {
                    ChildAction::Nothing
                } else {
                    ChildAction::Dup2(old, new)
                },
                true,
            ),
            ChildStep::Adopt(fd) => (
                if failed {
                    ChildAction::Close(fd)
                } else {
                    ChildAction::Nothing
                },
                false,
            ),
            ChildStep::OpenTerminal(name) => (
                if failed {
                    ChildAction::Nothing
                } else {
                    ChildAction::OpenTerminal(name)
                },
                true,
            ),
            ChildStep::RunAction => (
                if failed {
                    ChildAction::Nothing
                } else {
                    ChildAction::RunAction
                },
                true,
            ),
        };
        self.pending = req && !failed;
        action
    }
}

/// Until something fails, every step is carried out as itself: a new
/// session is started, a release closes its own descriptor, a redirection
/// duplicates exactly its own pair, the terminal opened is the one the step
/// names, and the action runs; an adopted descriptor is left alone. Once
/// something has failed, only releases (of released and adopted
/// descriptors alike) are carried out, and no required action is.
pub proof fn lemma_steps_carried_out(step: ChildStep, failed: bool)
    ensures
        !failed ==> match step {
            ChildStep::NewSession => spec_action(step, failed) == ChildAction::NewSession,
            ChildStep::Release(fd) => spec_action(step, failed) == ChildAction::Close(fd),
            ChildStep::Redirect(old, new) => spec_action(step, failed) == ChildAction::Dup2(old, new),
            ChildStep::Adopt(_) => spec_action(step, failed) == ChildAction::Nothing,
            ChildStep::OpenTerminal(name) => spec_action(step, failed) == ChildAction::OpenTerminal(
                name,
            ),
            ChildStep::RunAction => spec_action(step, failed) == ChildAction::RunAction,
        },
        failed ==> match step {
            ChildStep::Release(fd) => spec_action(step, failed) == ChildAction::Close(fd),
            ChildStep::Adopt(fd) => spec_action(step, failed) == ChildAction::Close(fd),
            _ => spec_action(step, failed) == ChildAction::Nothing,
        },
{
}

/// What an action does to a descriptor table, and whether it succeeds
/// there: closing releases the descriptor and never fails; `dup2` succeeds
/// exactly when the old descriptor is open and the new one is not
/// negative. The other actions leave the table's descriptors alone (the
/// terminal opened is not among them) and succeed in this model.
pub open spec fn act_on(t: FdTable, a: ChildAction) -> (FdTable, bool) {
    match a {
        ChildAction::Close(fd) => (t.remove(fd as int), true),
        ChildAction::Dup2(old, new) => if t.contains_key(old as int) && new >= 0 {
            (t.insert(new as int, t[old as int]), true)
        } else {
            (t, false)
        },
        _ => (t, true),
    }
}

/// The effect of one step on a descriptor table, and whether a required
/// action has failed once it is taken.
pub open spec fn step_table(t: FdTable, step: ChildStep, failed: bool) -> (FdTable, bool) {
    let (t2, ok) = act_on(t, spec_action(step, failed));
    (t2, failed || (required(step) && !ok))
}

/// The effect of taking steps in order on a descriptor table, and whether
/// a required action has failed by the end.
pub open spec fn run_steps(t: FdTable, steps: Seq<ChildStep>, failed: bool) -> (FdTable, bool)
    decreases steps.len(),
{
    if steps.len() == 0 {
        (t, failed)
    } else {
        let (t1, f1) = step_table(t, steps[0], failed);
        run_steps(t1, steps.drop_first(), f1)
    }
}

/// Taking two sequences of steps one after the other is taking their
/// concatenation.
pub proof fn lemma_run_steps_append(
    t: FdTable,
    a: Seq<ChildStep>,
    b: Seq<ChildStep>,
    failed: bool,
)
    ensures
        run_steps(t, a + b, failed) == run_steps(run_steps(t, a, failed).0, b, run_steps(t, a, failed).1),
    decreases a.len(),
{
    if a.len() == 0 {
        assert(a + b =~= b);
    } else {
        assert((a + b).drop_first() =~= a.drop_first() + b);
        assert((a + b)[0] == a[0]);
        let (t1, f1) = step_table(t, a[0], failed);
        lemma_run_steps_append(t1, a.drop_first(), b, f1);
    }
}

/// Once a required action has failed, the child never fails to fail: the
/// flag stays set through any further steps.
pub proof fn lemma_failure_persists(t: FdTable, steps: Seq<ChildStep>)
    ensures
        run_steps(t, steps, true).1,
    decreases steps.len(),
{
    if steps.len() > 0 {
        lemma_failure_persists(step_table(t, steps[0], true).0, steps.drop_first());
    }
}

} // verus!
