use ptyknot::fd::{pty_stderr, pty_stdin, pty_stdout};
use ptyknot::knot::{Forked, PipeDirection, Plumbing, PtyKnot, PtyKnotSetup};
use ptyknot::sys::{exit_code, SysError};
use ptyknot::{ChildAction, ChildRun, ChildStep};

fn plumbing(direction: PipeDirection, read: i32, write: i32, target: ptyknot::fd::StdFd) -> Plumbing {
    match Plumbing::new(direction, Ok([read, write]), target) {
        Ok(p) => p,
        Err(e) => panic!("could not make plumbing: {:?}", e),
    }
}

/// Drives a child run to its exit, reporting every action as succeeded
/// except those listed in `failing` (by position among the actions).
fn drive(mut run: ChildRun, failing: &[usize]) -> Vec<ChildAction> {
    let mut actions = Vec::new();
    let mut succeeded = true;
    loop {
        let action = run.next(succeeded);
        succeeded = !failing.contains(&actions.len());
        let done = matches!(action, ChildAction::Exit(_));
        actions.push(action);
        if done {
            return actions;
        }
        assert!(actions.len() < 100, "the child run does not end");
    }
}

fn child_run(setup: PtyKnotSetup) -> ChildRun {
    match setup.spawn(0, 0) {
        Forked::Child(run) => run,
        _ => panic!("expected the child branch"),
    }
}

#[test]
fn standard_descriptor_targets() {
    assert_eq!(pty_stdin().as_raw_fd(), 0);
    assert_eq!(pty_stdout().as_raw_fd(), 1);
    assert_eq!(pty_stderr().as_raw_fd(), 2);
}

#[test]
fn master_read_parent_reads_child_writes() {
    // The parent keeps the read end; the child's stdout becomes the write end.
    let p = plumbing(PipeDirection::MasterRead, 3, 4, pty_stdout());
    assert_eq!(p.into_parent(), (3, 4));
    let p = plumbing(PipeDirection::MasterRead, 3, 4, pty_stdout());
    assert_eq!(
        p.install_in_child(),
        vec![ChildStep::Release(3), ChildStep::Redirect(4, 1), ChildStep::Release(4)]
    );
}

#[test]
fn master_write_parent_writes_child_reads() {
    let p = plumbing(PipeDirection::MasterWrite, 5, 6, pty_stdin());
    assert_eq!(p.into_parent(), (6, 5));
    let p = plumbing(PipeDirection::MasterWrite, 5, 6, pty_stdin());
    assert_eq!(
        p.install_in_child(),
        vec![ChildStep::Release(6), ChildStep::Redirect(5, 0), ChildStep::Release(5)]
    );
}

#[test]
fn slave_already_on_target_is_kept_open() {
    // stdin was closed when the pipe was made, so the read end became 0.
    let p = plumbing(PipeDirection::MasterWrite, 0, 3, pty_stdin());
    assert_eq!(p.install_in_child(), vec![ChildStep::Release(3), ChildStep::Adopt(0)]);
    let p = plumbing(PipeDirection::MasterWrite, 0, 3, pty_stdin());
    let run = child_run(PtyKnotSetup::new().with_plumbing(p));
    assert_eq!(
        drive(run, &[]),
        vec![
            ChildAction::NewSession,
            ChildAction::Close(3),
            ChildAction::Nothing,
            ChildAction::RunAction,
            ChildAction::Exit(0)
        ]
    );
}

#[test]
fn plumbing_new_passes_pipe_error_on() {
    let r = Plumbing::new(PipeDirection::MasterRead, Err(SysError::Os(24)), pty_stderr());
    assert!(matches!(r, Err(SysError::Os(24))));
}

#[test]
fn parent_pipe_order_matches_setup_order() {
    let first = plumbing(PipeDirection::MasterRead, 3, 4, pty_stdout());
    let second = plumbing(PipeDirection::MasterRead, 5, 6, pty_stderr());
    let expected = [3, 5];
    let setup = PtyKnotSetup::new().with_plumbing(first).with_plumbing(second);
    match setup.spawn(1234, 0) {
        Forked::Parent(spawned, release) => {
            let (handles, knot) = spawned.into_parts();
            let (pty, pipes) = handles.into_parts();
            let actual = [pipes[0], pipes[1]];
            assert_eq!(actual, expected);
            assert_eq!(pty, None);
            assert_eq!(release, vec![4, 6]);
            assert_eq!(knot.pid, Some(1234));
        }
        _ => panic!("expected the parent branch"),
    }
}

#[test]
fn lib_pty_test() {
    // A pty and nothing else: the child opens the slave as its controlling
    // terminal, runs its action and succeeds; the parent keeps the master.
    let (setup, release) = PtyKnotSetup::new().with_pty(7, Ok(b"/dev/pts/3".to_vec()));
    assert!(release.is_empty());
    let run = child_run(setup.expect("with_pty"));
    assert_eq!(
        drive(run, &[]),
        vec![
            ChildAction::NewSession,
            ChildAction::Close(7),
            ChildAction::OpenTerminal(b"/dev/pts/3".to_vec()),
            ChildAction::RunAction,
            ChildAction::Exit(0)
        ]
    );
    let (setup, _) = PtyKnotSetup::new().with_pty(7, Ok(b"/dev/pts/3".to_vec()));
    match setup.expect("with_pty").spawn(4321, 0) {
        Forked::Parent(spawned, release) => {
            assert!(release.is_empty());
            let (handles, knot) = spawned.into_parts();
            let (pty, pipes) = handles.into_parts();
            assert_eq!(pty, Some(7));
            assert!(pipes.is_empty());
            assert_eq!(knot.pid, Some(4321));
        }
        _ => panic!("expected the parent branch"),
    }
}

#[test]
fn lib_pipe_test() {
    // The child's stderr goes into a pipe that the parent reads.
    let pipeout = plumbing(PipeDirection::MasterRead, 3, 4, pty_stderr());
    let run = child_run(PtyKnotSetup::new().with_plumbing(pipeout));
    assert_eq!(
        drive(run, &[]),
        vec![
            ChildAction::NewSession,
            ChildAction::Close(3),
            ChildAction::Dup2(4, 2),
            ChildAction::Close(4),
            ChildAction::RunAction,
            ChildAction::Exit(0)
        ]
    );
    let pipeout = plumbing(PipeDirection::MasterRead, 3, 4, pty_stderr());
    match PtyKnotSetup::new().with_plumbing(pipeout).spawn(99, 0) {
        Forked::Parent(spawned, release) => {
            let (handles, _knot) = spawned.into_parts();
            let (_pty, mut pipes) = handles.into_parts();
            assert_eq!(pipes.pop(), Some(3));
            assert_eq!(release, vec![4]);
        }
        _ => panic!("expected the parent branch"),
    }
}

#[test]
fn macro_test() {
    // `ptyknot!(knot, macro_slave, @ child_pty, > child_stdin pty_stdin())`:
    // a pty, then a pipe into the child's stdin.
    let (setup, _) = PtyKnotSetup::new().with_pty(7, Ok(b"/dev/pts/3".to_vec()));
    let stdin = plumbing(PipeDirection::MasterWrite, 8, 9, pty_stdin());
    let run = child_run(setup.expect("with_pty").with_plumbing(stdin));
    assert_eq!(
        drive(run, &[]),
        vec![
            ChildAction::NewSession,
            ChildAction::Close(7),
            ChildAction::OpenTerminal(b"/dev/pts/3".to_vec()),
            ChildAction::Close(9),
            ChildAction::Dup2(8, 0),
            ChildAction::Close(8),
            ChildAction::RunAction,
            ChildAction::Exit(0)
        ]
    );
}

#[test]
fn child_panic_status() {
    // The child's action panics: the child exits with status 101, and the
    // parent reads that status from the `waitpid` word.
    let run = child_run(PtyKnotSetup::new());
    let actions = drive(run, &[1]);
    assert_eq!(
        actions,
        vec![ChildAction::NewSession, ChildAction::RunAction, ChildAction::Exit(101)]
    );
    let status = match actions.last() {
        Some(ChildAction::Exit(status)) => *status,
        _ => panic!("missing exit"),
    };
    assert_eq!(exit_code(libc::W_EXITCODE(status, 0)), Some(101), "expected exit status 101");
}

#[test]
fn failed_dup2_still_releases_both_ends() {
    // dup2 fails for the first plumbing: its slave is still released, the
    // second plumbing is released whole, the action does not run, and the
    // child exits with 101.
    let out = plumbing(PipeDirection::MasterRead, 3, 4, pty_stdout());
    let err = plumbing(PipeDirection::MasterRead, 5, 6, pty_stderr());
    let run = child_run(PtyKnotSetup::new().with_plumbing(out).with_plumbing(err));
    assert_eq!(
        drive(run, &[2]),
        vec![
            ChildAction::NewSession,
            ChildAction::Close(3),
            ChildAction::Dup2(4, 1),
            ChildAction::Close(4),
            ChildAction::Close(5),
            ChildAction::Nothing,
            ChildAction::Close(6),
            ChildAction::Nothing,
            ChildAction::Exit(101)
        ]
    );
}

#[test]
fn failure_releases_adopted_slaves() {
    // The terminal cannot be opened: nothing is redirected or adopted, every
    // pipe end is released, and the child exits with 101.
    let (setup, _) = PtyKnotSetup::new().with_pty(7, Ok(b"/dev/pts/3".to_vec()));
    let stdin = plumbing(PipeDirection::MasterWrite, 0, 3, pty_stdin());
    let run = child_run(setup.expect("with_pty").with_plumbing(stdin));
    assert_eq!(
        drive(run, &[2]),
        vec![
            ChildAction::NewSession,
            ChildAction::Close(7),
            ChildAction::OpenTerminal(b"/dev/pts/3".to_vec()),
            ChildAction::Close(3),
            ChildAction::Close(0),
            ChildAction::Nothing,
            ChildAction::Exit(101)
        ]
    );
}

#[test]
fn lost_session_skips_everything_required() {
    let out = plumbing(PipeDirection::MasterRead, 3, 4, pty_stdout());
    let run = child_run(PtyKnotSetup::new().with_plumbing(out));
    assert_eq!(
        drive(run, &[0]),
        vec![
            ChildAction::NewSession,
            ChildAction::Close(3),
            ChildAction::Nothing,
            ChildAction::Close(4),
            ChildAction::Nothing,
            ChildAction::Exit(101)
        ]
    );
}

#[test]
fn exit_is_repeated_once_done() {
    let mut run = ChildRun::new(vec![]);
    assert_eq!(run.next(true), ChildAction::Exit(0));
    assert_eq!(run.next(false), ChildAction::Exit(0));
    let mut run = ChildRun::new(vec![ChildStep::RunAction]);
    assert_eq!(run.next(true), ChildAction::RunAction);
    assert_eq!(run.next(false), ChildAction::Exit(101));
}

#[test]
fn failed_fork_releases_everything() {
    let (setup, _) = PtyKnotSetup::new().with_pty(7, Ok(b"/dev/pts/1".to_vec()));
    let setup = setup.expect("with_pty");
    let out = plumbing(PipeDirection::MasterRead, 3, 4, pty_stdout());
    match setup.with_plumbing(out).spawn(-1, 11) {
        Forked::Failed(e, release) => {
            assert_eq!(e, SysError::Os(11));
            assert_eq!(release, vec![7, 3, 4]);
        }
        _ => panic!("expected a failure"),
    }
}

#[test]
fn setup_drop_closes_files() {
    let out = plumbing(PipeDirection::MasterRead, 3, 4, pty_stdout());
    let (setup, _) = PtyKnotSetup::new().with_plumbing(out).with_pty(9, Ok(b"/dev/pts/1".to_vec()));
    assert_eq!(setup.expect("with_pty").release(), vec![9, 3, 4]);
}

#[test]
fn with_pty_error_releases_setup_and_master() {
    let out = plumbing(PipeDirection::MasterRead, 3, 4, pty_stdout());
    let (r, release) = PtyKnotSetup::new().with_plumbing(out).with_pty(9, Err(SysError::InvalidData));
    assert!(matches!(r, Err(SysError::InvalidData)));
    assert_eq!(release, vec![3, 4, 9]);
}

#[test]
fn with_pty_replaces_previous_pty() {
    let (setup, _) = PtyKnotSetup::new().with_pty(7, Ok(b"/dev/pts/1".to_vec()));
    let (setup, release) = setup.expect("first pty").with_pty(8, Ok(b"/dev/pts/2".to_vec()));
    assert_eq!(release, vec![7]);
    let run = child_run(setup.expect("second pty"));
    assert_eq!(
        drive(run, &[]),
        vec![
            ChildAction::NewSession,
            ChildAction::Close(8),
            ChildAction::OpenTerminal(b"/dev/pts/2".to_vec()),
            ChildAction::RunAction,
            ChildAction::Exit(0)
        ]
    );
}

#[test]
fn knot_is_reaped_once() {
    let mut knot = PtyKnot { pid: Some(42) };
    assert_eq!(knot.take_pid(), Some(42));
    assert_eq!(knot.take_pid(), None);
    assert_eq!(knot.pid, None);
}

#[test]
fn child_success_status() {
    let status = ptyknot::sys::child_exit_status(true);
    assert!(ptyknot::sys::exit_success(libc::W_EXITCODE(status, 0)));
}
